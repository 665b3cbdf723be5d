use unison2d::lighting::{default_enabled, default_shadows, NullLightingRenderer, OccluderData, ShadowFilter};

#[test]
fn shadow_filter_uniform_values() {
    assert_eq!(ShadowFilter::Hard.as_uniform_value(), 0);
    assert_eq!(ShadowFilter::Pcf5.as_uniform_value(), 5);
    assert_eq!(ShadowFilter::Pcf13.as_uniform_value(), 13);
    assert_eq!(ShadowFilter::default(), ShadowFilter::Hard);
}

#[test]
fn occluder_segments_and_polygons() {
    let mut o: OccluderData<(f32, f32)> = OccluderData::new();
    assert!(o.segments.is_empty());
    o.add_segment((0.0, 0.0), (1.0, 0.0));
    assert_eq!(o.segments, vec![((0.0, 0.0), (1.0, 0.0))]);
    o.add_polygon(&[(0.0, 0.0), (2.0, 0.0), (2.0, 2.0)]);
    assert_eq!(
        o.segments,
        vec![
            ((0.0, 0.0), (1.0, 0.0)),
            ((0.0, 0.0), (2.0, 0.0)),
            ((2.0, 0.0), (2.0, 2.0)),
            ((2.0, 2.0), (0.0, 0.0)),
        ]
    );
}

#[test]
fn short_polygons_add_nothing() {
    let mut o = OccluderData::from_segments(vec![((1, 1), (2, 2))]);
    o.add_polygon(&[(5, 5)]);
    o.add_polygon(&[]);
    assert_eq!(o.segments, vec![((1, 1), (2, 2))]);
    o.add_polygon(&[(0, 0), (3, 0)]);
    assert_eq!(o.segments, vec![((1, 1), (2, 2)), ((0, 0), (3, 0)), ((3, 0), (0, 0))]);
    let d: OccluderData<(i32, i32)> = OccluderData::default();
    assert!(d.segments.is_empty());
}

#[test]
fn null_renderer_hands_out_ids_in_order() {
    let mut r = NullLightingRenderer::new();
    assert_eq!(r.allocate_shadow_map_id(), 0);
    assert_eq!(r.allocate_shadow_map_id(), 1);
    assert_eq!(r.allocate_shadow_map_id(), 2);
    let mut d = NullLightingRenderer::default();
    assert_eq!(d.allocate_shadow_map_id(), 0);
}

#[test]
fn light_config_defaults() {
    assert!(default_shadows());
    assert!(default_enabled());
}
