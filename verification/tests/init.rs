use unison2d::level::{Level, LevelFilter};
use unison2d::logging::{init, set_filter};

#[test]
fn init_is_idempotent() {
    let first = init();
    let second = init();
    for f in [&first, &second] {
        assert!(f.enabled("test::init", Level::Info));
        assert!(!f.enabled("test::init", Level::Debug));
        assert_eq!(f.max_level(), LevelFilter::Info);
    }
}

#[test]
fn set_filter_updates_max_level() {
    init();
    let (filter, max) = set_filter("error");
    assert_eq!(max, LevelFilter::Error);
    assert!(!filter.enabled("test::filter", Level::Info));
    let (filter, max) = set_filter("debug");
    assert_eq!(max, LevelFilter::Debug);
    assert!(filter.enabled("test::filter", Level::Debug));
    let (_, max) = set_filter("warn,game=trace");
    assert_eq!(max, LevelFilter::Trace);
}
