use unison2d::lighting::LightRegistry;

#[test]
fn lights_get_fresh_shared_ids() {
    let mut r: LightRegistry<&str, &str> = LightRegistry::new();
    assert!(!r.is_enabled());
    assert!(!r.has_lights());
    let a = r.add_light("lamp");
    let d = r.add_directional_light("sun");
    let b = r.add_light("torch");
    assert_ne!(a, d);
    assert_ne!(a, b);
    assert_ne!(b, d);
    assert_eq!(r.light_count(), 2);
    assert_eq!(r.directional_light_count(), 1);
    assert_eq!(r.get_light(a), Some(&"lamp"));
    assert_eq!(r.get_light(b), Some(&"torch"));
    assert_eq!(r.get_directional_light(d), Some(&"sun"));
    // An id of one kind finds nothing of the other kind.
    assert_eq!(r.get_light(d), None);
    assert_eq!(r.get_directional_light(a), None);
    assert!(r.has_lights());
}

#[test]
fn remove_and_clear_lights() {
    let mut r: LightRegistry<u8, u8> = LightRegistry::new();
    let a = r.add_light(1);
    let b = r.add_light(2);
    let d = r.add_directional_light(3);
    r.remove_light(a);
    assert_eq!(r.get_light(a), None);
    assert_eq!(r.get_light(b), Some(&2));
    assert_eq!(r.light_count(), 1);
    r.remove_light(a);
    assert_eq!(r.light_count(), 1);
    r.clear_lights();
    assert_eq!(r.light_count(), 0);
    assert!(r.has_lights());
    r.remove_directional_light(d);
    assert!(!r.has_lights());
    let e = r.add_light(9);
    assert_ne!(e, a);
    assert_ne!(e, b);
    r.clear_directional_lights();
    assert_eq!(r.directional_light_count(), 0);
}

#[test]
fn enable_toggle() {
    let mut r: LightRegistry<u8, u8> = LightRegistry::new();
    r.set_enabled(true);
    assert!(r.is_enabled());
    r.set_enabled(false);
    assert!(!r.is_enabled());
}

#[test]
fn lights_change_in_place() {
    let mut r: LightRegistry<u32, u32> = LightRegistry::new();
    let a = r.add_light(1);
    let d = r.add_directional_light(10);
    if let Some(p) = r.get_light_mut(a) {
        *p = 2;
    }
    if let Some(s) = r.get_directional_light_mut(d) {
        *s += 1;
    }
    assert_eq!(r.get_light(a), Some(&2));
    assert_eq!(r.get_directional_light(d), Some(&11));
    assert!(r.get_light_mut(d).is_none());
    assert!(r.get_directional_light_mut(a).is_none());
    assert_eq!(r.light_count(), 1);
}

#[test]
fn resources_are_made_once_per_size() {
    use_plan();
}

fn use_plan() {
    let none = unison2d::lighting::LightingResources::none();
    let (held, plan) = none.plan(800, 600, false);
    assert!(plan.recreate_lightmap && !plan.recreate_shadow_mask && plan.create_gradient);
    assert_eq!(held.lightmap, Some((800, 600)));
    assert_eq!(held.shadow_mask, None);
    let (held, plan) = held.plan(800, 600, false);
    assert!(!plan.recreate_lightmap && !plan.recreate_shadow_mask && !plan.create_gradient);
    let (held, plan) = held.plan(800, 600, true);
    assert!(!plan.recreate_lightmap && plan.recreate_shadow_mask && !plan.create_gradient);
    let (held, plan) = held.plan(1024, 768, false);
    assert!(plan.recreate_lightmap && !plan.recreate_shadow_mask);
    assert_eq!(held.shadow_mask, Some((800, 600)));
    let (_, plan) = held.plan(1024, 768, true);
    assert!(!plan.recreate_lightmap && plan.recreate_shadow_mask);
}
