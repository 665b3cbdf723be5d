use unison2d::world::CollisionGroups;

#[test]
fn test_collision_groups() {
    let group_a = CollisionGroups::new(0b0001, 0b0010);
    let group_b = CollisionGroups::new(0b0010, 0b0001);
    let group_c = CollisionGroups::new(0b0100, 0b0100);

    assert!(group_a.can_collide(&group_b));
    assert!(group_b.can_collide(&group_a));
    assert!(!group_a.can_collide(&group_c));
    assert!(!group_c.can_collide(&group_a));
}

#[test]
fn default_groups_collide_with_everything() {
    let all = CollisionGroups::default();
    assert_eq!(all, CollisionGroups::all());
    assert_eq!(all.membership, 0xFFFF_FFFF);
    assert!(all.can_collide(&CollisionGroups::new(0b1000, 0b0001)));
    assert!(!all.can_collide(&CollisionGroups::new(0b1000, 0)));
}

#[test]
fn none_collides_with_nothing() {
    let none = CollisionGroups::none();
    assert!(!none.can_collide(&CollisionGroups::all()));
    assert!(!CollisionGroups::all().can_collide(&none));
    assert!(!none.can_collide(&none));
}

#[test]
fn one_way_filter_blocks_both() {
    // a accepts b, but b does not accept a.
    let a = CollisionGroups::new(0b01, 0b10);
    let b = CollisionGroups::new(0b10, 0b10);
    assert!(!a.can_collide(&b));
    assert!(!b.can_collide(&a));
}
