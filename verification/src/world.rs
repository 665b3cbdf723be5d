//! Physics body handles and collision group filtering.

use vstd::prelude::*;

verus! {

/// Unique identifier for a physics body.
#[derive(Clone, Copy, Debug, PartialEq, Eq, Structural, Hash)]
pub struct BodyHandle(pub(crate) usize);

impl View for BodyHandle {
    type V = usize;

    closed spec fn view(&self) -> usize {
        self.0
    }
}

impl BodyHandle {
    /// The raw index of the body.
    pub fn index(&self) -> (i: usize)
        ensures
            i == self@,
    {
        self.0
    }
}

/// Collision group flags: bodies collide only if each one's membership
/// overlaps the other's filter.
#[derive(Clone, Copy, Debug, PartialEq, Eq, Structural)]
pub struct CollisionGroups {
    /// Groups this body belongs to.
    pub membership: u32,
    /// Groups this body can collide with.
    pub filter: u32,
}

/// Whether bodies with groups `a` and `b` interact.
pub open spec fn groups_collide(a: CollisionGroups, b: CollisionGroups) -> bool {
    (a.membership & b.filter) != 0 && (b.membership & a.filter) != 0
}

impl Default for CollisionGroups {
    /// Member of every group, colliding with every group.
    fn default() -> (g: Self)
        ensures
            g.membership == 0xFFFF_FFFFu32,
            g.filter == 0xFFFF_FFFFu32,
    {
        CollisionGroups { membership: 0xFFFF_FFFF, filter: 0xFFFF_FFFF }
    }
}

impl CollisionGroups {
    /// No collisions with any body.
    pub fn none() -> (g: Self)
        ensures
            g.membership == 0,
            g.filter == 0,
    {
        CollisionGroups { membership: 0, filter: 0 }
    }

    /// Collide with everything (the default).
    pub fn all() -> (g: Self)
        ensures
            g.membership == 0xFFFF_FFFFu32,
            g.filter == 0xFFFF_FFFFu32,
    {
        CollisionGroups { membership: 0xFFFF_FFFF, filter: 0xFFFF_FFFF }
    }

    /// Collision groups with the given membership and filter.
    pub fn new(membership: u32, filter: u32) -> (g: Self)
        ensures
            g.membership == membership,
            g.filter == filter,
    {
        CollisionGroups { membership, filter }
    }

    /// Whether two bodies with these groups interact: each one's membership
    /// shares a bit with the other's filter.
    pub fn can_collide(&self, other: &Self) -> (b: bool)
        ensures
            b == groups_collide(*self, *other),
    {
        (self.membership & other.filter) != 0 && (other.membership & self.filter) != 0
    }
}

/// Collision is symmetric: `a` collides with `b` exactly when `b` collides with `a`.
pub proof fn lemma_can_collide_symmetric(a: CollisionGroups, b: CollisionGroups)
    ensures
        groups_collide(a, b) == groups_collide(b, a),
{
}

/// Groups with an empty membership or an empty filter collide with nothing,
/// and two groups that each belong to every group the other filters on collide.
pub proof fn lemma_can_collide_extremes(a: CollisionGroups, b: CollisionGroups)
    ensures
        a.membership == 0 || a.filter == 0 ==> !groups_collide(a, b),
        a.membership == 0xFFFF_FFFFu32 && a.filter == 0xFFFF_FFFFu32 ==> (groups_collide(a, b) <==> (
        b.membership != 0 && b.filter != 0)),
{
    let (am, af, bm, bf) = (a.membership, a.filter, b.membership, b.filter);
    assert(am == 0 ==> am & bf == 0) by (bit_vector);
    assert(af == 0 ==> bm & af == 0) by (bit_vector);
    assert(am == 0xFFFF_FFFFu32 ==> am & bf == bf) by (bit_vector);
    assert(af == 0xFFFF_FFFFu32 ==> bm & af == bm) by (bit_vector);
}

/// Where a live handle's body is stored: an index into the soft bodies or
/// into the rigid bodies.
#[derive(Clone, Copy, Debug, PartialEq, Eq, Structural)]
pub enum BodySlot {
    Soft(usize),
    Rigid(usize),
}

/// A body as a handle sees it.
pub enum Body<S, R> {
    Soft(S),
    Rigid(R),
}

/// The handle table of a physics world: soft and rigid bodies in two dense
/// vectors, and for each handle ever given out the slot of its body, or
/// nothing once the body is removed. Handles are never reused.
pub struct BodyTable<S, R> {
    soft: Vec<S>,
    rigid: Vec<R>,
    body_types: Vec<Option<BodySlot>>,
    next_handle: usize,
}

impl<S, R> BodyTable<S, R> {
    /// The body each live handle refers to.
    pub closed spec fn bodies(&self) -> Map<usize, Body<S, R>> {
        Map::new(
            |h: usize| h < self.body_types@.len() && self.body_types@[h as int] is Some,
            |h: usize|
                match self.body_types@[h as int] {
                    Some(BodySlot::Soft(i)) => Body::Soft(self.soft@[i as int]),
                    Some(BodySlot::Rigid(i)) => Body::Rigid(self.rigid@[i as int]),
                    None => Body::Soft(self.soft@[0]),
                },
        )
    }

    /// The handle that the next added body gets.
    pub closed spec fn next_handle(&self) -> usize {
        self.next_handle
    }

    /// Number of soft bodies stored.
    pub closed spec fn soft_count(&self) -> nat {
        self.soft@.len()
    }

    /// Number of rigid bodies stored.
    pub closed spec fn rigid_count(&self) -> nat {
        self.rigid@.len()
    }

    /// The soft bodies in storage order.
    pub closed spec fn soft_seq(&self) -> Seq<S> {
        self.soft@
    }

    /// The rigid bodies in storage order.
    pub closed spec fn rigid_seq(&self) -> Seq<R> {
        self.rigid@
    }

    /// Where the body of handle `h` is stored, if `h` is live.
    pub closed spec fn slot_of(&self, h: usize) -> Option<BodySlot> {
        if h < self.body_types@.len() {
            self.body_types@[h as int]
        } else {
            None
        }
    }

    /// The table's invariant: every slot is in range, no two handles share a
    /// slot, every handle is below the next one, and there are as many live
    /// handles as bodies.
    pub closed spec fn wf(&self) -> bool {
        &&& self.body_types@.len() <= self.next_handle
        &&& forall|h: int|
            0 <= h < self.body_types@.len() ==> match #[trigger] self.body_types@[h] {
                Some(BodySlot::Soft(i)) => i < self.soft@.len(),
                Some(BodySlot::Rigid(i)) => i < self.rigid@.len(),
                None => true,
            }
        &&& forall|h1: int, h2: int|
            0 <= h1 < self.body_types@.len() && 0 <= h2 < self.body_types@.len() && h1 != h2
                && #[trigger] self.body_types@[h1] is Some && #[trigger] self.body_types@[h2] is Some
                ==> self.body_types@[h1] != self.body_types@[h2]
        &&& self.bodies().dom().finite()
        &&& self.bodies().dom().len() == self.soft@.len() + self.rigid@.len()
        &&& self.soft@.len() + self.rigid@.len() <= self.next_handle
    }

    /// Every live handle is below the next handle, so no handle is ever given out twice.
    pub proof fn lemma_handles_below_next(&self)
        requires
            self.wf(),
        ensures
            forall|h: usize| #[trigger] self.bodies().contains_key(h) ==> h < self.next_handle(),
    {
    }

    /// The body count is the number of live handles.
    pub proof fn lemma_count_is_live_handles(&self)
        requires
            self.wf(),
        ensures
            self.bodies().dom().finite(),
            self.bodies().dom().len() == self.soft_count() + self.rigid_count(),
    {
    }

    /// An empty table whose first handle is 0.
    pub fn new() -> (t: Self)
        ensures
            t.wf(),
            t.bodies() == Map::<usize, Body<S, R>>::empty(),
            t.next_handle() == 0,
            t.soft_count() == 0,
            t.rigid_count() == 0,
    {
        let t = BodyTable { soft: Vec::new(), rigid: Vec::new(), body_types: Vec::new(), next_handle: 0 };
        assert(t.bodies() =~= Map::<usize, Body<S, R>>::empty());
        t
    }

    /// Gives out the next handle and extends the slot table up to it.
    fn allocate(&mut self, slot: BodySlot) -> (h: BodyHandle)
        requires
            old(self).wf(),
            old(self).next_handle < usize::MAX,
        ensures
            h.0 == old(self).next_handle,
            final(self).next_handle == old(self).next_handle + 1,
            final(self).soft == old(self).soft,
            final(self).rigid == old(self).rigid,
            final(self).body_types@.len() == h.0 + 1,
            final(self).body_types@[h.0 as int] == Some(slot),
            forall|k: int|
                0 <= k < h.0 ==> #[trigger] final(self).body_types@[k] == if k < old(
                    self,
                ).body_types@.len() {
                    old(self).body_types@[k]
                } else {
                    None
                },
    {
        let handle = BodyHandle(self.next_handle);
        self.next_handle = self.next_handle + 1;
        while self.body_types.len() <= handle.0
            invariant
                handle.0 == old(self).next_handle,
                self.next_handle == old(self).next_handle + 1,
                self.soft == old(self).soft,
                self.rigid == old(self).rigid,
                old(self).body_types@.len() <= self.body_types@.len() <= handle.0 + 1,
                forall|k: int|
                    0 <= k < self.body_types@.len() ==> #[trigger] self.body_types@[k] == if k < old(
                        self,
                    ).body_types@.len() {
                        old(self).body_types@[k]
                    } else {
                        None
                    },
            decreases handle.0 + 1 - self.body_types@.len(),
        {
            self.body_types.push(None);
        }
        self.body_types.set(handle.0, Some(slot));
        handle
    }

    /// Adds a soft body under a new handle.
    pub fn add_body(&mut self, body: S) -> (h: BodyHandle)
        requires
            old(self).wf(),
            old(self).next_handle() < usize::MAX,
        ensures
            final(self).wf(),
            h@ == old(self).next_handle(),
            !old(self).bodies().contains_key(h@),
            final(self).bodies() == old(self).bodies().insert(h@, Body::Soft(body)),
            final(self).next_handle() == old(self).next_handle() + 1,
            final(self).soft_count() == old(self).soft_count() + 1,
            final(self).rigid_count() == old(self).rigid_count(),
            final(self).soft_seq() == old(self).soft_seq().push(body),
            final(self).rigid_seq() == old(self).rigid_seq(),
            final(self).slot_of(h@) == Some(BodySlot::Soft(old(self).soft_count() as usize)),
            forall|k: usize| k != h@ ==> #[trigger] final(self).slot_of(k) == old(self).slot_of(k),
    {
        let ghost old_bodies = self.bodies();
        let soft_index = self.soft.len();
        let h = self.allocate(BodySlot::Soft(soft_index));
        self.soft.push(body);
        proof {
            assert(!old_bodies.contains_key(h.0));
            assert(self.bodies() =~= old_bodies.insert(h.0, Body::Soft(body)));
            self.lemma_wf_after_add(old(self), h.0, BodySlot::Soft(soft_index));
        }
        h
    }

    /// Adds a rigid body under a new handle.
    pub fn add_rigid_body(&mut self, body: R) -> (h: BodyHandle)
        requires
            old(self).wf(),
            old(self).next_handle() < usize::MAX,
        ensures
            final(self).wf(),
            h@ == old(self).next_handle(),
            !old(self).bodies().contains_key(h@),
            final(self).bodies() == old(self).bodies().insert(h@, Body::Rigid(body)),
            final(self).next_handle() == old(self).next_handle() + 1,
            final(self).soft_count() == old(self).soft_count(),
            final(self).rigid_count() == old(self).rigid_count() + 1,
            final(self).rigid_seq() == old(self).rigid_seq().push(body),
            final(self).soft_seq() == old(self).soft_seq(),
            final(self).slot_of(h@) == Some(BodySlot::Rigid(old(self).rigid_count() as usize)),
            forall|k: usize| k != h@ ==> #[trigger] final(self).slot_of(k) == old(self).slot_of(k),
    {
        let ghost old_bodies = self.bodies();
        let rigid_index = self.rigid.len();
        let h = self.allocate(BodySlot::Rigid(rigid_index));
        self.rigid.push(body);
        proof {
            assert(!old_bodies.contains_key(h.0));
            assert(self.bodies() =~= old_bodies.insert(h.0, Body::Rigid(body)));
            self.lemma_wf_after_add(old(self), h.0, BodySlot::Rigid(rigid_index));
        }
        h
    }

    proof fn lemma_wf_after_add(&self, old_t: &Self, h: usize, slot: BodySlot)
        requires
            old_t.wf(),
            h == old_t.next_handle,
            self.next_handle == h + 1,
            self.body_types@.len() == h + 1,
            self.body_types@[h as int] == Some(slot),
            forall|k: int|
                0 <= k < h ==> #[trigger] self.body_types@[k] == if k < old_t.body_types@.len() {
                    old_t.body_types@[k]
                } else {
                    None
                },
            match slot {
                BodySlot::Soft(i) => i == old_t.soft@.len() && self.soft@.len() == i + 1
                    && self.rigid == old_t.rigid && forall|j: int|
                    0 <= j < i ==> #[trigger] self.soft@[j] == old_t.soft@[j],
                BodySlot::Rigid(i) => i == old_t.rigid@.len() && self.rigid@.len() == i + 1
                    && self.soft == old_t.soft && forall|j: int|
                    0 <= j < i ==> #[trigger] self.rigid@[j] == old_t.rigid@[j],
            },
            !old_t.bodies().contains_key(h),
        ensures
            self.bodies().dom() == old_t.bodies().dom().insert(h),
            self.wf(),
    {
        assert(self.bodies().dom() =~= old_t.bodies().dom().insert(h));
        assert forall|h1: int, h2: int|
            0 <= h1 < self.body_types@.len() && 0 <= h2 < self.body_types@.len() && h1 != h2
                && #[trigger] self.body_types@[h1] is Some && #[trigger] self.body_types@[h2] is Some
                implies self.body_types@[h1] != self.body_types@[h2] by {
            if h1 < h && h2 < h {
                assert(self.body_types@[h1] == old_t.body_types@[h1]);
                assert(self.body_types@[h2] == old_t.body_types@[h2]);
            } else if h1 < h {
                assert(self.body_types@[h1] == old_t.body_types@[h1]);
            } else {
                assert(self.body_types@[h2] == old_t.body_types@[h2]);
            }
        }
    }
}

/// A slot after the body in slot `removed` is taken out: slots of the same
/// kind above it move down by one.
pub open spec fn shift_slot(s: Option<BodySlot>, removed: BodySlot) -> Option<BodySlot> {
    match (s, removed) {
        (Some(BodySlot::Soft(i)), BodySlot::Soft(k)) => if i > k {
            Some(BodySlot::Soft((i - 1) as usize))
        } else {
            s
        },
        (Some(BodySlot::Rigid(i)), BodySlot::Rigid(k)) => if i > k {
            Some(BodySlot::Rigid((i - 1) as usize))
        } else {
            s
        },
        _ => s,
    }
}

impl<S, R> BodyTable<S, R> {
    /// Whether `handle` refers to a body of the table.
    pub fn contains(&self, handle: BodyHandle) -> (b: bool)
        ensures
            b == self.bodies().contains_key(handle@),
    {
        handle.0 < self.body_types.len() && self.body_types[handle.0].is_some()
    }

    /// Number of bodies, soft and rigid.
    pub fn body_count(&self) -> (n: usize)
        requires
            self.wf(),
        ensures
            n == self.soft_count() + self.rigid_count(),
            n == self.bodies().dom().len(),
    {
        self.soft.len() + self.rigid.len()
    }

    /// Whether `handle` refers to a rigid body.
    pub fn is_rigid(&self, handle: BodyHandle) -> (b: bool)
        ensures
            b == (self.bodies().contains_key(handle@) && self.bodies()[handle@] is Rigid),
    {
        if handle.0 < self.body_types.len() {
            match self.body_types[handle.0] {
                Some(BodySlot::Rigid(_)) => true,
                _ => false,
            }
        } else {
            false
        }
    }

    /// The soft body that `handle` refers to, if it refers to one.
    pub fn get_body(&self, handle: BodyHandle) -> (r: Option<&S>)
        requires
            self.wf(),
        ensures
            match r {
                Some(s) => self.bodies().contains_key(handle@) && self.bodies()[handle@] == Body::<
                    S,
                    R,
                >::Soft(*s),
                None => !(self.bodies().contains_key(handle@) && self.bodies()[handle@] is Soft),
            },
    {
        if handle.0 < self.body_types.len() {
            match self.body_types[handle.0] {
                Some(BodySlot::Soft(i)) => Some(&self.soft[i]),
                _ => None,
            }
        } else {
            None
        }
    }

    /// The rigid body that `handle` refers to, if it refers to one.
    pub fn get_rigid_body(&self, handle: BodyHandle) -> (r: Option<&R>)
        requires
            self.wf(),
        ensures
            match r {
                Some(b) => self.bodies().contains_key(handle@) && self.bodies()[handle@] == Body::<
                    S,
                    R,
                >::Rigid(*b),
                None => !(self.bodies().contains_key(handle@) && self.bodies()[handle@] is Rigid),
            },
    {
        if handle.0 < self.body_types.len() {
            match self.body_types[handle.0] {
                Some(BodySlot::Rigid(i)) => Some(&self.rigid[i]),
                _ => None,
            }
        } else {
            None
        }
    }

    /// The live handles, in increasing order.
    pub fn handles(&self) -> (hs: Vec<BodyHandle>)
        ensures
            forall|k: int| 0 <= k < hs@.len() ==> self.bodies().contains_key(#[trigger] hs@[k]@),
            forall|h: usize| #[trigger] self.bodies().contains_key(h) ==> exists|k: int|
                0 <= k < hs@.len() && #[trigger] hs@[k]@ == h,
            forall|k1: int, k2: int| 0 <= k1 < k2 < hs@.len() ==> #[trigger] hs@[k1]@ < #[trigger] hs@[k2]@,
    {
        let mut hs: Vec<BodyHandle> = Vec::new();
        let mut j: usize = 0;
        while j < self.body_types.len()
            invariant
                j <= self.body_types@.len(),
                forall|k: int| 0 <= k < hs@.len() ==> self.bodies().contains_key(#[trigger] hs@[k]@),
                forall|k: int| 0 <= k < hs@.len() ==> #[trigger] hs@[k]@ < j,
                forall|h: usize| #[trigger] self.bodies().contains_key(h) && h < j ==> exists|k: int|
                    0 <= k < hs@.len() && #[trigger] hs@[k]@ == h,
                forall|k1: int, k2: int|
                    0 <= k1 < k2 < hs@.len() ==> #[trigger] hs@[k1]@ < #[trigger] hs@[k2]@,
            decreases self.body_types@.len() - j,
        {
            if self.body_types[j].is_some() {
                let ghost before = hs@;
                hs.push(BodyHandle(j));
                proof {
                    assert(hs@[hs@.len() - 1]@ == j);
                    assert forall|h: usize| #[trigger] self.bodies().contains_key(h) && h < j + 1
                        implies exists|k: int| 0 <= k < hs@.len() && #[trigger] hs@[k]@ == h by {
                        if h < j {
                            let k = choose|k: int| 0 <= k < before.len() && #[trigger] before[k]@ == h;
                            assert(hs@[k] == before[k]);
                        } else {
                            assert(hs@[hs@.len() - 1]@ == h);
                        }
                    }
                }
            } else {
                proof {
                    assert(!self.bodies().contains_key(j));
                }
            }
            j = j + 1;
        }
        hs
    }

    /// Removes the body that `handle` refers to; its handle is not given out
    /// again. Bodies stored after it move down one place, and the other
    /// handles keep referring to the same bodies. False when `handle` refers
    /// to no body.
    pub fn remove_body(&mut self, handle: BodyHandle) -> (removed: bool)
        requires
            old(self).wf(),
        ensures
            final(self).wf(),
            removed == old(self).bodies().contains_key(handle@),
            final(self).bodies() == old(self).bodies().remove(handle@),
            final(self).next_handle() == old(self).next_handle(),
            final(self).soft_count() + final(self).rigid_count() + (if removed {
                1int
            } else {
                0int
            }) == old(self).soft_count() + old(self).rigid_count(),
            match old(self).slot_of(handle@) {
                Some(BodySlot::Soft(i)) => final(self).soft_seq() == old(self).soft_seq().remove(i as int)
                    && final(self).rigid_seq() == old(self).rigid_seq(),
                Some(BodySlot::Rigid(i)) => final(self).rigid_seq() == old(self).rigid_seq().remove(
                    i as int,
                ) && final(self).soft_seq() == old(self).soft_seq(),
                None => final(self).soft_seq() == old(self).soft_seq() && final(self).rigid_seq()
                    == old(self).rigid_seq(),
            },
            forall|k: usize|
                #[trigger] final(self).slot_of(k) == match old(self).slot_of(handle@) {
                    Some(removed_slot) => if k == handle@ {
                        None
                    } else {
                        shift_slot(old(self).slot_of(k), removed_slot)
                    },
                    None => old(self).slot_of(k),
                },
    {
        if handle.0 >= self.body_types.len() {
            assert(old(self).bodies().remove(handle.0) =~= old(self).bodies());
            return false;
        }
        let slot = match self.body_types[handle.0] {
            Some(s) => s,
            None => {
                assert(old(self).bodies().remove(handle.0) =~= old(self).bodies());
                return false;
            },
        };
        match slot {
            BodySlot::Soft(index) => {
                self.soft.remove(index);
            },
            BodySlot::Rigid(index) => {
                self.rigid.remove(index);
            },
        }
        self.body_types.set(handle.0, None);
        let ghost cleared = self.body_types@;
        let ghost soft_after = self.soft@;
        let ghost rigid_after = self.rigid@;
        let mut j: usize = 0;
        while j < self.body_types.len()
            invariant
                self.next_handle == old(self).next_handle,
                self.soft@ == soft_after,
                self.rigid@ == rigid_after,
                j <= self.body_types@.len(),
                self.body_types@.len() == cleared.len(),
                forall|k: int|
                    0 <= k < cleared.len() ==> #[trigger] self.body_types@[k] == if k < j {
                        shift_slot(cleared[k], slot)
                    } else {
                        cleared[k]
                    },
            decreases self.body_types@.len() - j,
        {
            match self.body_types[j] {
                Some(BodySlot::Soft(i)) => {
                    if let BodySlot::Soft(k) = slot {
                        if i > k {
                            self.body_types.set(j, Some(BodySlot::Soft(i - 1)));
                        }
                    }
                },
                Some(BodySlot::Rigid(i)) => {
                    if let BodySlot::Rigid(k) = slot {
                        if i > k {
                            self.body_types.set(j, Some(BodySlot::Rigid(i - 1)));
                        }
                    }
                },
                None => {},
            }
            j = j + 1;
        }
        proof {
            self.lemma_after_remove(old(self), handle.0, slot, cleared);
        }
        true
    }

    proof fn lemma_after_remove(&self, old_t: &Self, h: usize, slot: BodySlot, cleared: Seq<Option<BodySlot>>)
        requires
            old_t.wf(),
            h < old_t.body_types@.len(),
            old_t.body_types@[h as int] == Some(slot),
            cleared == old_t.body_types@.update(h as int, None),
            self.body_types@.len() == cleared.len(),
            forall|k: int|
                0 <= k < cleared.len() ==> #[trigger] self.body_types@[k] == shift_slot(cleared[k], slot),
            self.next_handle == old_t.next_handle,
            match slot {
                BodySlot::Soft(i) => self.soft@ == old_t.soft@.remove(i as int) && self.rigid@ == old_t.rigid@,
                BodySlot::Rigid(i) => self.rigid@ == old_t.rigid@.remove(i as int) && self.soft@ == old_t.soft@,
            },
        ensures
            self.wf(),
            self.bodies() == old_t.bodies().remove(h),
            self.soft@.len() + self.rigid@.len() + 1 == old_t.soft@.len() + old_t.rigid@.len(),
    {
        assert(old_t.bodies().contains_key(h));
        assert forall|k: int| 0 <= k < self.body_types@.len() implies match #[trigger] self.body_types@[k] {
            Some(BodySlot::Soft(i)) => i < self.soft@.len(),
            Some(BodySlot::Rigid(i)) => i < self.rigid@.len(),
            None => true,
        } by {
            if k != h && old_t.body_types@[k] is Some {
                assert(old_t.body_types@[k] != old_t.body_types@[h as int]);
            }
        }
        assert forall|h1: int, h2: int|
            0 <= h1 < self.body_types@.len() && 0 <= h2 < self.body_types@.len() && h1 != h2
                && #[trigger] self.body_types@[h1] is Some && #[trigger] self.body_types@[h2] is Some
                implies self.body_types@[h1] != self.body_types@[h2] by {
            assert(old_t.body_types@[h1] != old_t.body_types@[h2]);
        }
        assert forall|k: usize| #[trigger] self.bodies().contains_key(k) implies old_t.bodies().remove(
            h,
        ).contains_key(k) && self.bodies()[k] == old_t.bodies().remove(h)[k] by {
            assert(k != h);
            assert(old_t.body_types@[k as int] != old_t.body_types@[h as int]);
        }
        assert forall|k: usize| #[trigger] old_t.bodies().remove(h).contains_key(k) implies self.bodies().contains_key(k) by {
        }
        assert(self.bodies() =~= old_t.bodies().remove(h));
    }
}

/// Removing a body just added gives back the bodies the table had before:
/// `remove_body(add_body(b))` undoes the add.
pub proof fn lemma_remove_undoes_add<S, R>(bodies: Map<usize, Body<S, R>>, h: usize, b: Body<S, R>)
    requires
        !bodies.contains_key(h),
    ensures
        bodies.insert(h, b).remove(h) == bodies,
{
    assert(bodies.insert(h, b).remove(h) =~= bodies);
}

/// Adding or removing a body leaves every other handle referring to the
/// same body, and the added body is what its handle then refers to.
pub proof fn lemma_other_handles_unchanged<S, R>(
    bodies: Map<usize, Body<S, R>>,
    h: usize,
    b: Body<S, R>,
    other: usize,
)
    requires
        other != h,
    ensures
        bodies.insert(h, b)[h] == b,
        bodies.insert(h, b).contains_key(other) == bodies.contains_key(other),
        bodies.insert(h, b)[other] == bodies[other],
        bodies.remove(h).contains_key(other) == bodies.contains_key(other),
        bodies.remove(h)[other] == bodies[other],
        !bodies.remove(h).contains_key(h),
{
}

/// The handles below `j` whose slot is filled.
pub open spec fn live_below(bt: Seq<Option<BodySlot>>, j: int) -> Set<usize> {
    Set::new(|h: usize| h < j && h < bt.len() && bt[h as int] is Some)
}

/// How many of the first `j` slots are filled.
pub open spec fn live_count(bt: Seq<Option<BodySlot>>, j: int) -> nat
    decreases j,
{
    if j <= 0 {
        0
    } else {
        live_count(bt, j - 1) + if j - 1 < bt.len() && bt[j - 1] is Some {
            1nat
        } else {
            0nat
        }
    }
}

proof fn lemma_live_below(bt: Seq<Option<BodySlot>>, j: int)
    requires
        0 <= j <= bt.len(),
        j <= usize::MAX,
    ensures
        live_below(bt, j).finite(),
        live_below(bt, j).len() == live_count(bt, j),
    decreases j,
{
    if j == 0 {
        assert(live_below(bt, j) =~= Set::empty());
    } else {
        lemma_live_below(bt, j - 1);
        let k = (j - 1) as usize;
        if bt[j - 1] is Some {
            assert(live_below(bt, j) =~= live_below(bt, j - 1).insert(k));
        } else {
            assert(live_below(bt, j) =~= live_below(bt, j - 1));
        }
    }
}

impl<S, R> BodyTable<S, R> {
    /// Where the body of `handle` is stored, if `handle` is live.
    pub fn slot(&self, handle: BodyHandle) -> (r: Option<BodySlot>)
        ensures
            r == self.slot_of(handle@),
    {
        if handle.0 < self.body_types.len() {
            self.body_types[handle.0]
        } else {
            None
        }
    }

    /// The handle that the next added body gets.
    pub fn peek_next_handle(&self) -> (h: usize)
        ensures
            h == self.next_handle(),
    {
        self.next_handle
    }

    /// The soft bodies in storage order.
    pub fn soft_bodies(&self) -> (s: &[S])
        ensures
            s@ == self.soft_seq(),
    {
        self.soft.as_slice()
    }

    /// The rigid bodies in storage order.
    pub fn rigid_bodies(&self) -> (s: &[R])
        ensures
            s@ == self.rigid_seq(),
    {
        self.rigid.as_slice()
    }

    /// The soft bodies for change in place; the table is otherwise left as
    /// it was, so it stays well formed.
    pub fn soft_bodies_mut(&mut self) -> (s: &mut [S])
        ensures
            s@ == old(self).soft_seq(),
            final(self).soft_seq() == final(s)@,
            final(self).rigid_seq() == old(self).rigid_seq(),
            final(self).next_handle() == old(self).next_handle(),
            forall|h: usize| #[trigger] final(self).slot_of(h) == old(self).slot_of(h),
            old(self).wf() && final(s)@.len() == s@.len() ==> final(self).wf(),
    {
        self.soft.as_mut_slice()
    }

    /// The rigid bodies for change in place; the table is otherwise left as
    /// it was, so it stays well formed.
    pub fn rigid_bodies_mut(&mut self) -> (s: &mut [R])
        ensures
            s@ == old(self).rigid_seq(),
            final(self).rigid_seq() == final(s)@,
            final(self).soft_seq() == old(self).soft_seq(),
            final(self).next_handle() == old(self).next_handle(),
            forall|h: usize| #[trigger] final(self).slot_of(h) == old(self).slot_of(h),
            old(self).wf() && final(s)@.len() == s@.len() ==> final(self).wf(),
    {
        self.rigid.as_mut_slice()
    }

    /// The soft and the rigid bodies together for change in place; the
    /// table is otherwise left as it was, so it stays well formed.
    pub fn all_bodies_mut(&mut self) -> (r: (&mut [S], &mut [R]))
        ensures
            r.0@ == old(self).soft_seq(),
            r.1@ == old(self).rigid_seq(),
            final(self).soft_seq() == final(r.0)@,
            final(self).rigid_seq() == final(r.1)@,
            final(self).next_handle() == old(self).next_handle(),
            forall|h: usize| #[trigger] final(self).slot_of(h) == old(self).slot_of(h),
            old(self).wf() && final(r.0)@.len() == r.0@.len() && final(r.1)@.len() == r.1@.len()
                ==> final(self).wf(),
    {
        (self.soft.as_mut_slice(), self.rigid.as_mut_slice())
    }

    /// Whether the table is well formed (see `wf`); a table made by `new`
    /// and changed only through its methods always is.
    pub fn is_well_formed(&self) -> (b: bool)
        ensures
            b == self.wf(),
    {
        let n = self.body_types.len();
        if n > self.next_handle {
            return false;
        }
        let ns = self.soft.len();
        let nr = self.rigid.len();
        let mut live: usize = 0;
        let mut j: usize = 0;
        while j < n
            invariant
                n == self.body_types@.len(),
                ns == self.soft@.len(),
                nr == self.rigid@.len(),
                n <= self.next_handle,
                j <= n,
                live == live_count(self.body_types@, j as int),
                live <= j,
                forall|h: int|
                    0 <= h < j ==> match #[trigger] self.body_types@[h] {
                        Some(BodySlot::Soft(i)) => i < ns,
                        Some(BodySlot::Rigid(i)) => i < nr,
                        None => true,
                    },
                forall|h1: int, h2: int|
                    0 <= h1 < j && 0 <= h2 < j && h1 != h2 && #[trigger] self.body_types@[h1] is Some
                        && #[trigger] self.body_types@[h2] is Some ==> self.body_types@[h1]
                        != self.body_types@[h2],
            decreases n - j,
        {
            let s = self.body_types[j];
            match s {
                Some(BodySlot::Soft(i)) => {
                    if i >= ns {
                        return false;
                    }
                },
                Some(BodySlot::Rigid(i)) => {
                    if i >= nr {
                        return false;
                    }
                },
                None => {},
            }
            if s.is_some() {
                let mut k: usize = 0;
                while k < j
                    invariant
                        n == self.body_types@.len(),
                        j < n,
                        k <= j,
                        s == self.body_types@[j as int],
                        s is Some,
                        forall|h: int| 0 <= h < k ==> #[trigger] self.body_types@[h] != s,
                    decreases j - k,
                {
                    if self.body_types[k] == s {
                        return false;
                    }
                    k = k + 1;
                }
                live = live + 1;
            }
            j = j + 1;
        }
        proof {
            lemma_live_below(self.body_types@, n as int);
            assert(self.bodies().dom() =~= live_below(self.body_types@, n as int));
        }
        if ns > self.next_handle || nr > self.next_handle - ns {
            return false;
        }
        live == ns + nr
    }
}

/// One step of a body table's life, seen through its live handles and its
/// next handle: an add makes the next handle live and moves the counter on
/// (`add_body`, `add_rigid_body`); a removal takes one handle out and keeps
/// the counter (`remove_body`); every other method keeps both.
pub open spec fn handle_step(live: Set<usize>, next: int, live2: Set<usize>, next2: int) -> bool {
    ||| (0 <= next < usize::MAX && next2 == next + 1 && live2 == live.insert(next as usize))
    ||| (next2 == next && exists|h: usize| live2 == live.remove(h))
    ||| (next2 == next && live2 == live)
}

/// Whether step `i` of a history of live-handle sets and counters is an add.
pub open spec fn is_add_step(next: Seq<int>, i: int) -> bool {
    next[i + 1] == next[i] + 1
}

/// How many of the first `j` steps are adds.
pub open spec fn adds_before(next: Seq<int>, j: int) -> nat
    decreases j,
{
    if j <= 0 {
        0
    } else {
        adds_before(next, j - 1) + if is_add_step(next, j - 1) {
            1nat
        } else {
            0nat
        }
    }
}

/// Handles are given out in order and never reused: along any history of a
/// table made by `new` (no live handle, counter 0), where each step is an
/// add, a removal or neither, the `k`-th add gives handle `k`, every live
/// handle is below the counter, and a handle once removed is never live
/// again.
pub proof fn lemma_handles_sequential(live: Seq<Set<usize>>, next: Seq<int>)
    requires
        live.len() == next.len(),
        live.len() >= 1,
        live[0] == Set::<usize>::empty(),
        next[0] == 0,
        forall|i: int|
            0 <= i < live.len() - 1 ==> #[trigger] handle_step(live[i], next[i], live[i + 1], next[i + 1]),
    ensures
        forall|j: int| 0 <= j < next.len() ==> #[trigger] next[j] == adds_before(next, j),
        forall|j: int, h: usize| 0 <= j < live.len() && #[trigger] live[j].contains(h) ==> h < next[j],
        forall|i: int, j: int, h: usize|
            0 <= i < j < live.len() && live[i].contains(h) && !#[trigger] live[i + 1].contains(h)
                ==> !#[trigger] live[j].contains(h),
{
    let n = live.len() as int;
    assert forall|j: int| 0 <= j < n implies #[trigger] next[j] == adds_before(next, j) && forall|
        h: usize,
    | #[trigger] live[j].contains(h) ==> h < next[j] by {
        lemma_handle_counter(live, next, j);
    }
    assert forall|i: int, j: int, h: usize|
        0 <= i < j < n && live[i].contains(h) && !#[trigger] live[i + 1].contains(h) implies !#[trigger] live[j].contains(
        h,
    ) by {
        lemma_handle_counter(live, next, i);
        lemma_removed_stays_out(live, next, i, j, h);
    }
}

proof fn lemma_handle_counter(live: Seq<Set<usize>>, next: Seq<int>, j: int)
    requires
        live.len() == next.len(),
        0 <= j < live.len(),
        live[0] == Set::<usize>::empty(),
        next[0] == 0,
        forall|i: int|
            0 <= i < live.len() - 1 ==> #[trigger] handle_step(live[i], next[i], live[i + 1], next[i + 1]),
    ensures
        next[j] == adds_before(next, j),
        forall|h: usize| #[trigger] live[j].contains(h) ==> h < next[j],
    decreases j,
{
    if j > 0 {
        let k = j - 1;
        lemma_handle_counter(live, next, k);
        assert(handle_step(live[k], next[k], live[k + 1], next[k + 1]));
    }
}

proof fn lemma_removed_stays_out(live: Seq<Set<usize>>, next: Seq<int>, i: int, j: int, h: usize)
    requires
        live.len() == next.len(),
        0 <= i < j < live.len(),
        h < next[i],
        !live[i + 1].contains(h),
        forall|k: int|
            0 <= k < live.len() - 1 ==> #[trigger] handle_step(live[k], next[k], live[k + 1], next[k + 1]),
    ensures
        !live[j].contains(h),
        h < next[j],
    decreases j - i,
{
    if j > i + 1 {
        let k = j - 1;
        lemma_removed_stays_out(live, next, i, k, h);
        assert(handle_step(live[k], next[k], live[k + 1], next[k + 1]));
    } else {
        assert(handle_step(live[i], next[i], live[i + 1], next[i + 1]));
    }
}

/// What `add_body`, `add_rigid_body` and `remove_body` promise of the
/// bodies and the next handle is one `handle_step` of the live handles, so
/// `lemma_handles_sequential` applies to any run of them.
pub proof fn lemma_table_ops_are_steps<S, R>(
    bodies: Map<usize, Body<S, R>>,
    next: usize,
    bodies2: Map<usize, Body<S, R>>,
    next2: usize,
    h: usize,
    body: Body<S, R>,
)
    ensures
        next < usize::MAX && next2 == next + 1 && bodies2 == bodies.insert(next, body) ==> handle_step(
            bodies.dom(),
            next as int,
            bodies2.dom(),
            next2 as int,
        ),
        next2 == next && bodies2 == bodies.remove(h) ==> handle_step(
            bodies.dom(),
            next as int,
            bodies2.dom(),
            next2 as int,
        ),
{
    if next < usize::MAX && next2 == next + 1 && bodies2 == bodies.insert(next, body) {
        assert(bodies2.dom() =~= bodies.dom().insert(next));
    }
    if next2 == next && bodies2 == bodies.remove(h) {
        assert(bodies2.dom() =~= bodies.dom().remove(h));
    }
}

} // verus!
