use unison2d::world::{BodyHandle, BodySlot, BodyTable};

#[test]
fn add_and_get_bodies() {
    let mut t: BodyTable<&str, u32> = BodyTable::new();
    let a = t.add_body("ring");
    let b = t.add_rigid_body(7);
    let c = t.add_body("box");
    assert_eq!((a.index(), b.index(), c.index()), (0, 1, 2));
    assert_eq!(t.body_count(), 3);
    assert_eq!(t.get_body(a), Some(&"ring"));
    assert_eq!(t.get_body(c), Some(&"box"));
    assert_eq!(t.get_rigid_body(b), Some(&7));
    assert_eq!(t.get_body(b), None);
    assert_eq!(t.get_rigid_body(a), None);
    assert!(t.is_rigid(b));
    assert!(!t.is_rigid(a));
}

#[test]
fn test_add_remove_body_handles() {
    let mut t: BodyTable<u8, u8> = BodyTable::new();
    let h1 = t.add_body(1);
    let h2 = t.add_body(2);
    assert_eq!(t.body_count(), 2);
    assert!(t.contains(h1));
    assert!(t.contains(h2));
    assert!(t.remove_body(h1));
    assert_eq!(t.body_count(), 1);
    assert!(!t.contains(h1));
    assert!(t.contains(h2));
    // The remaining body moved down but its handle still finds it.
    assert_eq!(t.get_body(h2), Some(&2));
    // Removing twice does nothing.
    assert!(!t.remove_body(h1));
    assert_eq!(t.body_count(), 1);
}

#[test]
fn handles_are_not_reused() {
    let mut t: BodyTable<u8, u8> = BodyTable::new();
    let h0 = t.add_body(0);
    assert!(t.remove_body(h0));
    let h1 = t.add_body(1);
    assert_ne!(h0, h1);
    assert_eq!(h1.index(), 1);
    assert!(!t.contains(h0));
    assert_eq!(t.get_body(h1), Some(&1));
}

#[test]
fn removal_shifts_only_the_same_kind() {
    let mut t: BodyTable<char, char> = BodyTable::new();
    let s0 = t.add_body('a');
    let r0 = t.add_rigid_body('x');
    let s1 = t.add_body('b');
    let r1 = t.add_rigid_body('y');
    let s2 = t.add_body('c');
    assert!(t.remove_body(s1));
    assert!(t.remove_body(r0));
    assert_eq!(t.get_body(s0), Some(&'a'));
    assert_eq!(t.get_body(s2), Some(&'c'));
    assert_eq!(t.get_rigid_body(r1), Some(&'y'));
    assert_eq!(t.body_count(), 3);
    let live: Vec<usize> = t.handles().iter().map(|h| h.index()).collect();
    assert_eq!(live, vec![0, 3, 4]);
}

#[test]
fn unknown_handles_refer_to_nothing() {
    let mut t: BodyTable<u8, u8> = BodyTable::new();
    let h = t.add_body(5);
    let mut other: BodyTable<u8, u8> = BodyTable::new();
    other.add_body(1);
    let far = other.add_body(2);
    assert!(!t.contains(far));
    assert!(!t.remove_body(far));
    assert_eq!(t.get_body(far), None);
    assert!(t.contains(h));
    let empty: BodyTable<u8, u8> = BodyTable::new();
    assert!(empty.handles().is_empty());
    let _: Option<BodyHandle> = None;
}

#[test]
fn slots_follow_removals() {
    let mut t: BodyTable<&str, u8> = BodyTable::new();
    assert!(t.is_well_formed());
    let a = t.add_body("a");
    let r = t.add_rigid_body(7);
    let b = t.add_body("b");
    assert_eq!(t.peek_next_handle(), 3);
    assert_eq!(t.slot(a), Some(BodySlot::Soft(0)));
    assert_eq!(t.slot(r), Some(BodySlot::Rigid(0)));
    assert_eq!(t.slot(b), Some(BodySlot::Soft(1)));
    assert_eq!(t.soft_bodies(), &["a", "b"]);
    assert!(t.remove_body(a));
    assert_eq!(t.slot(a), None);
    assert_eq!(t.slot(b), Some(BodySlot::Soft(0)));
    assert_eq!(t.soft_bodies(), &["b"]);
    assert_eq!(t.rigid_bodies(), &[7]);
    assert!(t.is_well_formed());
}

#[test]
fn bodies_change_in_place() {
    let mut t: BodyTable<u32, u32> = BodyTable::new();
    let h = t.add_body(1);
    t.add_rigid_body(10);
    for b in t.soft_bodies_mut().iter_mut() {
        *b += 5;
    }
    t.rigid_bodies_mut()[0] = 11;
    assert_eq!(t.get_body(h), Some(&6));
    assert_eq!(t.rigid_bodies(), &[11]);
    assert!(t.is_well_formed());
}
