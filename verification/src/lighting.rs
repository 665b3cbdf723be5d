//! Lighting: shadow filter modes, occluder segment lists, light handles,
//! the null lighting renderer's id allocation, and occluder boundary edges.

use vstd::prelude::*;
use crate::mesh;

verus! {

/// Unique handle to a light in a lighting system.
#[derive(Clone, Copy, Debug, PartialEq, Eq, Structural, Hash)]
pub struct LightId(pub(crate) u32);

impl View for LightId {
    type V = u32;

    closed spec fn view(&self) -> u32 {
        self.0
    }
}

/// PCF (percentage closer filtering) mode for shadow edge softness.
#[derive(Clone, Copy, Debug, PartialEq, Eq, Structural)]
pub enum ShadowFilter {
    /// Hard shadows: a single sample, crisp edges.
    Hard,
    /// 5-tap PCF: cardinal directions and center.
    Pcf5,
    /// 13-tap PCF: 3x3 grid and 4 extended samples.
    Pcf13,
}

impl Default for ShadowFilter {
    /// Hard shadows.
    fn default() -> (f: Self)
        ensures
            f == ShadowFilter::Hard,
    {
        ShadowFilter::Hard
    }
}

impl ShadowFilter {
    /// The sample count passed to the shader uniform: 0, 5 or 13.
    pub fn as_uniform_value(&self) -> (v: u32)
        ensures
            v == match *self {
                ShadowFilter::Hard => 0u32,
                ShadowFilter::Pcf5 => 5u32,
                ShadowFilter::Pcf13 => 13u32,
            },
    {
        match self {
            ShadowFilter::Hard => 0,
            ShadowFilter::Pcf5 => 5,
            ShadowFilter::Pcf13 => 13,
        }
    }
}

/// The segments that close the polygon `v`: each vertex to the next, and
/// the last back to the first.
pub open spec fn polygon_segments<P>(v: Seq<P>) -> Seq<(P, P)> {
    Seq::new(v.len(), |i: int| (v[i], v[(i + 1) % (v.len() as int)]))
}

/// Line segments that block light, each `(start, end)`, over a point type `P`.
#[derive(Debug, Clone)]
pub struct OccluderData<P> {
    /// Line segments that block light.
    pub segments: Vec<(P, P)>,
}

impl<P> Default for OccluderData<P> {
    /// No segments.
    fn default() -> (d: Self)
        ensures
            d.segments@ == Seq::<(P, P)>::empty(),
    {
        OccluderData { segments: Vec::new() }
    }
}

impl<P: Copy> OccluderData<P> {
    /// Empty occluder data.
    pub fn new() -> (d: Self)
        ensures
            d.segments@ == Seq::<(P, P)>::empty(),
    {
        OccluderData { segments: Vec::new() }
    }

    /// Occluder data holding exactly `segments`.
    pub fn from_segments(segments: Vec<(P, P)>) -> (d: Self)
        ensures
            d.segments@ == segments@,
    {
        OccluderData { segments }
    }

    /// Appends the segment from `start` to `end`.
    pub fn add_segment(&mut self, start: P, end: P)
        ensures
            final(self).segments@ == old(self).segments@.push((start, end)),
    {
        self.segments.push((start, end));
    }

    /// Appends the closed outline of a polygon: a segment from each vertex to
    /// the next, and from the last back to the first. Fewer than two
    /// vertices add nothing.
    pub fn add_polygon(&mut self, vertices: &[P])
        ensures
            vertices@.len() < 2 ==> final(self).segments@ == old(self).segments@,
            vertices@.len() >= 2 ==> final(self).segments@ == old(self).segments@ + polygon_segments(
                vertices@,
            ),
    {
        let n = vertices.len();
        if n < 2 {
            return;
        }
        let ghost start = self.segments@;
        let mut i: usize = 0;
        while i < n
            invariant
                n == vertices@.len(),
                n >= 2,
                0 <= i <= n,
                self.segments@ == start + polygon_segments(vertices@).take(i as int),
            decreases n - i,
        {
            let next = (i + 1) % n;
            self.segments.push((vertices[i], vertices[next]));
            assert(polygon_segments(vertices@).take(i + 1) =~= polygon_segments(vertices@).take(
                i as int,
            ).push((vertices@[i as int], vertices@[next as int])));
            i = i + 1;
        }
        assert(polygon_segments(vertices@).take(n as int) =~= polygon_segments(vertices@));
    }
}

/// The outline that `add_polygon` appends is closed and chained: each
/// segment starts where the previous one ends, and the last ends where the
/// first starts.
pub proof fn lemma_polygon_closed<P>(v: Seq<P>)
    requires
        v.len() >= 2,
    ensures
        polygon_segments(v).len() == v.len(),
        forall|i: int|
            0 < i < v.len() ==> (#[trigger] polygon_segments(v)[i]).0 == polygon_segments(v)[i - 1].1,
        polygon_segments(v)[v.len() - 1].1 == polygon_segments(v)[0].0,
{
    assert forall|i: int| 0 < i < v.len() implies (#[trigger] polygon_segments(v)[i]).0
        == polygon_segments(v)[i - 1].1 by {
        vstd::arithmetic::div_mod::lemma_small_mod(i as nat, v.len());
    }
    vstd::arithmetic::div_mod::lemma_mod_self_0(v.len() as int);
}

/// The lighting renderer that draws nothing; it only hands out shadow map ids.
#[derive(Debug)]
pub struct NullLightingRenderer {
    next_id: u32,
}

impl NullLightingRenderer {
    /// The id that the next shadow map gets.
    pub closed spec fn next_id(&self) -> u32 {
        self.next_id
    }

    /// A renderer whose first shadow map gets id 0.
    pub fn new() -> (r: Self)
        ensures
            r.next_id() == 0,
    {
        NullLightingRenderer { next_id: 0 }
    }

    /// Hands out the id for a new shadow map: ids are given in order from 0.
    pub fn allocate_shadow_map_id(&mut self) -> (id: u32)
        requires
            old(self).next_id() < u32::MAX,
        ensures
            id == old(self).next_id(),
            final(self).next_id() == old(self).next_id() + 1,
    {
        let id = self.next_id;
        self.next_id = self.next_id + 1;
        id
    }
}

impl Default for NullLightingRenderer {
    /// A renderer whose first shadow map gets id 0.
    fn default() -> (r: Self)
        ensures
            r.next_id() == 0,
    {
        NullLightingRenderer { next_id: 0 }
    }
}

/// Shadows are cast unless a light config says otherwise.
pub fn default_shadows() -> (b: bool)
    ensures
        b,
{
    true
}

/// Lights are enabled unless a light config says otherwise.
pub fn default_enabled() -> (b: bool)
    ensures
        b,
{
    true
}

/// Occluder edges of a triangle mesh: the directed edges that belong to
/// exactly one triangle, with that triangle's winding, so that the
/// right-hand perpendicular of each points out of the mesh.
pub fn compute_boundary_edges(triangles: &[u32]) -> (edges: Vec<(u32, u32)>)
    ensures
        edges@ == mesh::boundary_edges(triangles@),
        forall|k: int|
            0 <= k < edges@.len() ==> mesh::tri_edges(triangles@).contains(#[trigger] edges@[k])
                && mesh::edge_multiplicity(mesh::tri_edges(triangles@), edges@[k]) == 1,
        forall|i: int|
            0 <= i < mesh::tri_edges(triangles@).len() && mesh::edge_multiplicity(
                mesh::tri_edges(triangles@),
                #[trigger] mesh::tri_edges(triangles@)[i],
            ) == 1 ==> edges@.contains(mesh::tri_edges(triangles@)[i]),
{
    mesh::compute_boundary_edges_from_triangles(triangles)
}

/// The lights of a lighting system: point lights and directional lights,
/// each under an id from one shared counter, and whether lighting is enabled.
pub struct LightRegistry<P, D> {
    lights: std::collections::HashMap<u32, P>,
    directional_lights: std::collections::HashMap<u32, D>,
    next_id: u32,
    enabled: bool,
}

impl<P, D> LightRegistry<P, D> {
    /// The point lights by id.
    pub closed spec fn points(&self) -> Map<u32, P> {
        self.lights@
    }

    /// The directional lights by id.
    pub closed spec fn directionals(&self) -> Map<u32, D> {
        self.directional_lights@
    }

    /// The id that the next added light gets.
    pub closed spec fn next_id(&self) -> u32 {
        self.next_id
    }

    /// Whether lighting is enabled.
    pub closed spec fn enabled(&self) -> bool {
        self.enabled
    }

    /// Every light's id is below the next id.
    pub closed spec fn wf(&self) -> bool {
        &&& forall|k: u32| #[trigger] self.lights@.contains_key(k) ==> k < self.next_id
        &&& forall|k: u32| #[trigger] self.directional_lights@.contains_key(k) ==> k < self.next_id
    }

    /// No lights, lighting disabled, first id 0.
    pub fn new() -> (r: Self)
        ensures
            r.wf(),
            r.points() == Map::<u32, P>::empty(),
            r.directionals() == Map::<u32, D>::empty(),
            r.next_id() == 0,
            !r.enabled(),
    {
        LightRegistry {
            lights: std::collections::HashMap::new(),
            directional_lights: std::collections::HashMap::new(),
            next_id: 0,
            enabled: false,
        }
    }

    /// Enables or disables lighting.
    pub fn set_enabled(&mut self, enabled: bool)
        ensures
            final(self).enabled() == enabled,
            final(self).points() == old(self).points(),
            final(self).directionals() == old(self).directionals(),
            final(self).next_id() == old(self).next_id(),
            old(self).wf() ==> final(self).wf(),
    {
        self.enabled = enabled;
    }

    /// Whether lighting is enabled.
    pub fn is_enabled(&self) -> (b: bool)
        ensures
            b == self.enabled(),
    {
        self.enabled
    }

    /// Adds a point light under a fresh id.
    pub fn add_light(&mut self, light: P) -> (id: LightId)
        requires
            old(self).wf(),
            old(self).next_id() < u32::MAX,
        ensures
            final(self).wf(),
            id@ == old(self).next_id(),
            !old(self).points().contains_key(id@),
            !old(self).directionals().contains_key(id@),
            final(self).points() == old(self).points().insert(id@, light),
            final(self).directionals() == old(self).directionals(),
            final(self).next_id() == old(self).next_id() + 1,
            final(self).enabled() == old(self).enabled(),
    {
        broadcast use vstd::std_specs::hash::group_hash_axioms;

        let id = self.next_id;
        self.next_id = self.next_id + 1;
        self.lights.insert(id, light);
        LightId(id)
    }

    /// Removes the point light with `id`, if there is one.
    pub fn remove_light(&mut self, id: LightId)
        requires
            old(self).wf(),
        ensures
            final(self).wf(),
            final(self).points() == old(self).points().remove(id@),
            final(self).directionals() == old(self).directionals(),
            final(self).next_id() == old(self).next_id(),
            final(self).enabled() == old(self).enabled(),
    {
        broadcast use vstd::std_specs::hash::group_hash_axioms;

        self.lights.remove(&id.0);
    }

    /// The point light with `id`, if there is one.
    pub fn get_light(&self, id: LightId) -> (r: Option<&P>)
        ensures
            match r {
                Some(p) => self.points().contains_key(id@) && self.points()[id@] == *p,
                None => !self.points().contains_key(id@),
            },
    {
        broadcast use vstd::std_specs::hash::group_hash_axioms;

        self.lights.get(&id.0)
    }

    /// The point light with id `id`, for change in place; the other lights
    /// and the counter stay as they were.
    pub fn get_light_mut(&mut self, id: LightId) -> (r: Option<&mut P>)
        ensures
            match r {
                Some(p) => old(self).points().contains_key(id@) && *p == old(self).points()[id@]
                    && final(self).points() == old(self).points().insert(id@, *final(p)),
                None => !old(self).points().contains_key(id@) && final(self).points() == old(
                    self,
                ).points(),
            },
            final(self).directionals() == old(self).directionals(),
            final(self).next_id() == old(self).next_id(),
            final(self).enabled() == old(self).enabled(),
            old(self).wf() ==> final(self).wf(),
    {
        broadcast use vstd::std_specs::hash::group_hash_axioms;

        match self.lights.entry(id.0) {
            std::collections::hash_map::Entry::Occupied(o) => Some(o.into_mut()),
            std::collections::hash_map::Entry::Vacant(_) => None,
        }
    }

    /// Number of point lights.
    pub fn light_count(&self) -> (n: usize)
        ensures
            n == self.points().len(),
    {
        broadcast use vstd::std_specs::hash::group_hash_axioms;

        self.lights.len()
    }

    /// Removes every point light.
    pub fn clear_lights(&mut self)
        requires
            old(self).wf(),
        ensures
            final(self).wf(),
            final(self).points() == Map::<u32, P>::empty(),
            final(self).directionals() == old(self).directionals(),
            final(self).next_id() == old(self).next_id(),
            final(self).enabled() == old(self).enabled(),
    {
        self.lights.clear();
    }

    /// Adds a directional light under a fresh id.
    pub fn add_directional_light(&mut self, light: D) -> (id: LightId)
        requires
            old(self).wf(),
            old(self).next_id() < u32::MAX,
        ensures
            final(self).wf(),
            id@ == old(self).next_id(),
            !old(self).points().contains_key(id@),
            !old(self).directionals().contains_key(id@),
            final(self).directionals() == old(self).directionals().insert(id@, light),
            final(self).points() == old(self).points(),
            final(self).next_id() == old(self).next_id() + 1,
            final(self).enabled() == old(self).enabled(),
    {
        broadcast use vstd::std_specs::hash::group_hash_axioms;

        let id = self.next_id;
        self.next_id = self.next_id + 1;
        self.directional_lights.insert(id, light);
        LightId(id)
    }

    /// Removes the directional light with `id`, if there is one.
    pub fn remove_directional_light(&mut self, id: LightId)
        requires
            old(self).wf(),
        ensures
            final(self).wf(),
            final(self).directionals() == old(self).directionals().remove(id@),
            final(self).points() == old(self).points(),
            final(self).next_id() == old(self).next_id(),
            final(self).enabled() == old(self).enabled(),
    {
        broadcast use vstd::std_specs::hash::group_hash_axioms;

        self.directional_lights.remove(&id.0);
    }

    /// The directional light with `id`, if there is one.
    pub fn get_directional_light(&self, id: LightId) -> (r: Option<&D>)
        ensures
            match r {
                Some(d) => self.directionals().contains_key(id@) && self.directionals()[id@] == *d,
                None => !self.directionals().contains_key(id@),
            },
    {
        broadcast use vstd::std_specs::hash::group_hash_axioms;

        self.directional_lights.get(&id.0)
    }

    /// The directional light with id `id`, for change in place; the other
    /// lights and the counter stay as they were.
    pub fn get_directional_light_mut(&mut self, id: LightId) -> (r: Option<&mut D>)
        ensures
            match r {
                Some(d) => old(self).directionals().contains_key(id@) && *d == old(
                    self,
                ).directionals()[id@] && final(self).directionals() == old(
                    self,
                ).directionals().insert(id@, *final(d)),
                None => !old(self).directionals().contains_key(id@) && final(self).directionals()
                    == old(self).directionals(),
            },
            final(self).points() == old(self).points(),
            final(self).next_id() == old(self).next_id(),
            final(self).enabled() == old(self).enabled(),
            old(self).wf() ==> final(self).wf(),
    {
        broadcast use vstd::std_specs::hash::group_hash_axioms;

        match self.directional_lights.entry(id.0) {
            std::collections::hash_map::Entry::Occupied(o) => Some(o.into_mut()),
            std::collections::hash_map::Entry::Vacant(_) => None,
        }
    }

    /// Number of directional lights.
    pub fn directional_light_count(&self) -> (n: usize)
        ensures
            n == self.directionals().len(),
    {
        broadcast use vstd::std_specs::hash::group_hash_axioms;

        self.directional_lights.len()
    }

    /// Removes every directional light.
    pub fn clear_directional_lights(&mut self)
        requires
            old(self).wf(),
        ensures
            final(self).wf(),
            final(self).directionals() == Map::<u32, D>::empty(),
            final(self).points() == old(self).points(),
            final(self).next_id() == old(self).next_id(),
            final(self).enabled() == old(self).enabled(),
    {
        self.directional_lights.clear();
    }

    /// Whether there is any light, point or directional.
    pub fn has_lights(&self) -> (b: bool)
        ensures
            b == (self.points().dom().len() > 0 || self.directionals().dom().len() > 0),
    {
        broadcast use vstd::std_specs::hash::group_hash_axioms;

        self.lights.len() != 0 || self.directional_lights.len() != 0
    }
}

/// Ids are shared between the two kinds of light: the id of a new light is
/// held by no light of either kind, so a point light and a directional light
/// never share an id.
pub proof fn lemma_fresh_id_unused<P, D>(r: LightRegistry<P, D>)
    requires
        r.wf(),
    ensures
        !r.points().contains_key(r.next_id()),
        !r.directionals().contains_key(r.next_id()),
{
}

/// The render resources a lighting system holds: the size of its lightmap
/// target and of its shadow-mask target, when it has them, and whether it
/// has its gradient texture.
#[derive(Clone, Copy, Debug)]
pub struct LightingResources {
    pub lightmap: Option<(u32, u32)>,
    pub shadow_mask: Option<(u32, u32)>,
    pub gradient: bool,
}

/// What a lighting system does to its resources before it renders: which
/// targets it (re)creates at the screen size, destroying the old one first
/// if there is one, and whether it creates the gradient texture.
#[derive(Clone, Copy, Debug, PartialEq, Eq, Structural)]
pub struct ResourcePlan {
    pub recreate_lightmap: bool,
    pub recreate_shadow_mask: bool,
    pub create_gradient: bool,
}

impl LightingResources {
    /// No resources yet.
    pub fn none() -> (r: Self)
        ensures
            r.lightmap is None,
            r.shadow_mask is None,
            !r.gradient,
    {
        LightingResources { lightmap: None, shadow_mask: None, gradient: false }
    }

    /// The step that runs before each frame is rendered at `width` by
    /// `height`: the lightmap is made anew unless it exists at that size;
    /// the shadow mask likewise, but only when some light casts shadows
    /// (otherwise it is left as it is); the gradient is made once. Gives
    /// the resources held afterwards and what to do to get there.
    pub fn plan(&self, width: u32, height: u32, has_shadow_casters: bool) -> (r: (Self, ResourcePlan))
        ensures
            r.1.recreate_lightmap == (self.lightmap != Some((width, height))),
            r.1.recreate_shadow_mask == (has_shadow_casters && self.shadow_mask != Some((width, height))),
            r.1.create_gradient == !self.gradient,
            r.0.lightmap == Some((width, height)),
            r.0.shadow_mask == if has_shadow_casters {
                Some((width, height))
            } else {
                self.shadow_mask
            },
            r.0.gradient,
    {
        let size = (width, height);
        let recreate_lightmap = match self.lightmap {
            Some(s) => !(s.0 == width && s.1 == height),
            None => true,
        };
        let recreate_shadow_mask = has_shadow_casters && match self.shadow_mask {
            Some(s) => !(s.0 == width && s.1 == height),
            None => true,
        };
        let shadow_mask = if has_shadow_casters {
            Some(size)
        } else {
            self.shadow_mask
        };
        (
            LightingResources { lightmap: Some(size), shadow_mask, gradient: true },
            ResourcePlan { recreate_lightmap, recreate_shadow_mask, create_gradient: !self.gradient },
        )
    }
}

/// Resources are made only when needed: planning again at the same size,
/// with the same shadow casting, right after a plan asks for nothing.
pub proof fn lemma_plan_settles(
    held: LightingResources,
    width: u32,
    height: u32,
    casters: bool,
    after: LightingResources,
    plan: ResourcePlan,
    again: LightingResources,
    plan2: ResourcePlan,
)
    requires
        plan.recreate_lightmap == (held.lightmap != Some((width, height))),
        after.lightmap == Some((width, height)),
        after.shadow_mask == if casters {
            Some((width, height))
        } else {
            held.shadow_mask
        },
        after.gradient,
        plan2.recreate_lightmap == (after.lightmap != Some((width, height))),
        plan2.recreate_shadow_mask == (casters && after.shadow_mask != Some((width, height))),
        plan2.create_gradient == !after.gradient,
        again.lightmap == Some((width, height)),
        again.shadow_mask == if casters {
            Some((width, height))
        } else {
            after.shadow_mask
        },
        again.gradient,
    ensures
        !plan2.recreate_lightmap,
        !plan2.recreate_shadow_mask,
        !plan2.create_gradient,
        again == after,
{
}

} // verus!
