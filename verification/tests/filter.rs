use unison2d::filter::{parse_level_filter, Filter};
use unison2d::level::{Level, LevelFilter};

#[test]
fn parses_bare_level() {
    let f = Filter::parse("info");
    assert!(f.enabled("anything", Level::Info));
    assert!(f.enabled("anything", Level::Warn));
    assert!(f.enabled("anything", Level::Error));
    assert!(!f.enabled("anything", Level::Debug));
    assert!(!f.enabled("anything", Level::Trace));
}

#[test]
fn parses_off() {
    let f = Filter::parse("off");
    assert!(!f.enabled("anything", Level::Error));
    assert!(!f.enabled("anything", Level::Info));
}

#[test]
fn per_target_override_tightens_default() {
    let f = Filter::parse("info,unison::audio=warn");
    assert!(!f.enabled("unison::audio", Level::Info));
    assert!(f.enabled("unison::audio", Level::Warn));
    assert!(f.enabled("unison::audio", Level::Error));
    // Prefix match: the child is capped at warn too.
    assert!(!f.enabled("unison::audio::mixer", Level::Info));
    assert!(f.enabled("unison::audio::mixer", Level::Warn));
    // Other targets stay at the default.
    assert!(f.enabled("game", Level::Info));
    assert!(!f.enabled("game", Level::Debug));
}

#[test]
fn per_target_override_loosens_default() {
    let f = Filter::parse("warn,game=debug");
    assert!(f.enabled("game", Level::Debug));
    assert!(f.enabled("game", Level::Info));
    assert!(!f.enabled("other", Level::Info));
    assert!(f.enabled("other", Level::Warn));
}

#[test]
fn longest_prefix_wins() {
    let f = Filter::parse("info,unison=warn,unison::audio=debug");
    assert!(f.enabled("unison::audio::mixer", Level::Debug));
    assert!(!f.enabled("unison::physics", Level::Info));
    assert!(f.enabled("unison::physics", Level::Warn));
    assert!(f.enabled("game", Level::Info));
}

#[test]
fn malformed_does_not_panic() {
    let _ = Filter::parse("");
    let _ = Filter::parse("nonsense");
    let _ = Filter::parse("info,=warn");
    let _ = Filter::parse("info,foo=notalevel");
    let _ = Filter::parse("foo=bar=baz");
}

#[test]
fn whitespace_is_tolerated() {
    let f = Filter::parse(" info , unison::audio = warn ");
    assert!(!f.enabled("unison::audio", Level::Info));
    assert!(f.enabled("unison::audio", Level::Warn));
    assert!(f.enabled("other", Level::Info));
}

#[test]
fn case_insensitive_levels() {
    let f = Filter::parse("INFO,game=Debug");
    assert!(f.enabled("game", Level::Debug));
    assert!(f.enabled("other", Level::Info));
}

#[test]
fn unknown_level_token_falls_back_to_info() {
    let f = Filter::parse("bogus");
    assert!(f.enabled("anything", Level::Info));
    assert!(!f.enabled("anything", Level::Debug));
}

#[test]
fn default_on_empty_is_info() {
    let f = Filter::parse("");
    assert!(f.enabled("anything", Level::Info));
    assert!(!f.enabled("anything", Level::Debug));
}

#[test]
fn max_level_is_the_most_verbose_level() {
    assert_eq!(Filter::parse("warn,game=debug").max_level(), LevelFilter::Debug);
    assert_eq!(Filter::parse("trace,game=error").max_level(), LevelFilter::Trace);
    assert_eq!(Filter::parse("off").max_level(), LevelFilter::Off);
    assert_eq!(Filter::parse("").max_level(), LevelFilter::Info);
    assert_eq!(Filter::default().max_level(), LevelFilter::Info);
}

#[test]
fn max_level_bounds_every_target() {
    let f = Filter::parse("error,a=warn,a::b=trace");
    assert_eq!(f.max_level(), LevelFilter::Trace);
    assert!(f.enabled("a::b::c", Level::Trace));
    assert!(!f.enabled("a::c", Level::Info));
    assert!(!f.enabled("z", Level::Warn));
}

#[test]
fn default_filter_is_info_everywhere() {
    let f = Filter::default();
    assert!(f.enabled("x", Level::Info));
    assert!(!f.enabled("x", Level::Debug));
}

#[test]
fn prefix_needs_path_separator() {
    let f = Filter::parse("info,game=off");
    assert!(!f.enabled("game", Level::Error));
    assert!(!f.enabled("game::ai", Level::Error));
    // "gameplay" does not lie below "game".
    assert!(f.enabled("gameplay", Level::Info));
    // A single colon is not a path separator.
    assert!(f.enabled("game:ai", Level::Info));
}

#[test]
fn first_of_duplicate_targets_wins() {
    let f = Filter::parse("info,a=warn,a=debug");
    assert!(!f.enabled("a", Level::Info));
    assert!(f.enabled("a", Level::Warn));
}

#[test]
fn bare_level_after_first_token_is_ignored() {
    let f = Filter::parse("warn,debug");
    assert!(!f.enabled("x", Level::Info));
    let g = Filter::parse("a=debug,trace");
    assert!(f.enabled("x", Level::Warn));
    assert!(g.enabled("x", Level::Info));
    assert!(!g.enabled("x", Level::Debug));
    assert!(g.enabled("a", Level::Debug));
}

#[test]
fn malformed_overrides_are_skipped() {
    let f = Filter::parse("warn,=debug,x=y=z,q=nonsense");
    assert!(!f.enabled("", Level::Debug));
    assert!(!f.enabled("x", Level::Info));
    // An unknown level in an override falls back to info.
    assert!(f.enabled("q", Level::Info));
    assert!(!f.enabled("q", Level::Debug));
}

#[test]
fn unicode_whitespace_is_trimmed() {
    let f = Filter::parse("\u{3000}debug\u{a0},\tné=error\n");
    assert!(f.enabled("other", Level::Debug));
    assert!(!f.enabled("né", Level::Warn));
    assert!(f.enabled("né::x", Level::Error));
}

#[test]
fn level_names_parse_ignoring_case() {
    assert_eq!(parse_level_filter("off"), Some(LevelFilter::Off));
    assert_eq!(parse_level_filter("ERROR"), Some(LevelFilter::Error));
    assert_eq!(parse_level_filter("Warn"), Some(LevelFilter::Warn));
    assert_eq!(parse_level_filter("info"), Some(LevelFilter::Info));
    assert_eq!(parse_level_filter("dEbUg"), Some(LevelFilter::Debug));
    assert_eq!(parse_level_filter("TRACE"), Some(LevelFilter::Trace));
    assert_eq!(parse_level_filter("verbose"), None);
    assert_eq!(parse_level_filter(" info"), None);
    assert_eq!(parse_level_filter(""), None);
}

#[test]
fn level_filters_rank_like_the_log_facade() {
    assert_eq!(Level::Error.to_level_filter(), LevelFilter::Error);
    assert_eq!(Level::Trace.to_level_filter(), LevelFilter::Trace);
    assert!(LevelFilter::Warn.admits(Level::Error));
    assert!(!LevelFilter::Warn.admits(Level::Info));
    assert!(!LevelFilter::Off.admits(Level::Error));
    assert_eq!(LevelFilter::Off.rank(), 0);
    assert_eq!(Level::Debug.rank(), 4);
}

#[test]
fn parsed_filter_takes_the_longest_written_target() {
    let f = Filter::parse("warn,a=debug,a::b=error,a=trace,ab=off");
    // "a::b" is the longest target matching "a::b::c".
    assert!(f.enabled("a::b::c", Level::Error));
    assert!(!f.enabled("a::b::c", Level::Warn));
    // Of the two equally long "a" targets, the first written wins.
    assert!(f.enabled("a::x", Level::Debug));
    assert!(!f.enabled("a::x", Level::Trace));
    // "ab" is its own target, not a child of "a".
    assert!(!f.enabled("ab", Level::Error));
    // No override matches: the default applies.
    assert!(f.enabled("b", Level::Warn));
    assert!(!f.enabled("b", Level::Info));
}
