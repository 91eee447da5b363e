use log_viewer::level_filter::LevelFilter;
use log_viewer::proto::log_level::LogLevel;

fn key(s: &str) -> Option<String> {
    Some(s.to_string())
}

const ALL: [LogLevel; 6] =
    [LogLevel::Trace, LogLevel::Debug, LogLevel::Info, LogLevel::Warn, LogLevel::Error, LogLevel::Off];

#[test]
fn prefix_resolution_example() {
    let filter = LevelFilter::new(vec![(key("a"), LogLevel::Warn), (None, LogLevel::Trace)]);
    assert!(filter.show(key("a::b"), &LogLevel::Warn));
    assert!(filter.show(key("x"), &LogLevel::Info));
    assert!(!filter.show(key("a::b"), &LogLevel::Info));
}

#[test]
fn prefixes_are_matched_by_whole_components() {
    let filter = LevelFilter::new(vec![(key("a"), LogLevel::Error), (None, LogLevel::Trace)]);
    assert!(filter.show(key("ab"), &LogLevel::Debug));
    assert!(!filter.show(key("a"), &LogLevel::Warn));
    assert!(!filter.show(key("a::b::c"), &LogLevel::Warn));
    assert!(filter.show(key("a::b::c"), &LogLevel::Error));
}

#[test]
fn longest_matching_key_wins() {
    let filter = LevelFilter::new(vec![
        (key("a"), LogLevel::Error),
        (key("a::b"), LogLevel::Debug),
        (key("a::b::c::d"), LogLevel::Off),
    ]);
    assert!(filter.show(key("a::b::c"), &LogLevel::Debug));
    assert!(!filter.show(key("a::x"), &LogLevel::Debug));
    assert!(!filter.show(key("a::b::c::d"), &LogLevel::Error));
    assert!(filter.show(key("a::b::c::d"), &LogLevel::Off));
}

#[test]
fn no_applicable_key_hides() {
    let filter = LevelFilter::new(vec![(key("a"), LogLevel::Trace)]);
    assert!(!filter.show(key("b"), &LogLevel::Error));
    assert!(!filter.show(None, &LogLevel::Error));
    let empty = LevelFilter::new(vec![]);
    assert!(!empty.show(key("a"), &LogLevel::Error));
}

#[test]
fn missing_target_uses_default() {
    let filter = LevelFilter::new(vec![(key("a"), LogLevel::Error), (None, LogLevel::Info)]);
    assert!(filter.show(None, &LogLevel::Info));
    assert!(!filter.show(None, &LogLevel::Debug));
}

#[test]
fn show_is_monotonic_in_level() {
    let filter = LevelFilter::new(vec![(key("a"), LogLevel::Info), (None, LogLevel::Warn)]);
    for target in [key("a"), key("a::b"), key("b"), None] {
        for (i, low) in ALL.iter().enumerate() {
            if filter.show(target.clone(), low) {
                for high in &ALL[i..] {
                    assert!(filter.show(target.clone(), high));
                }
            }
        }
    }
}

#[test]
fn set_level_replaces_and_adds() {
    let filter = LevelFilter::new(vec![(None, LogLevel::Trace)]);
    let filter = filter.set_level(None, LogLevel::Off).set_level(key("a::b"), LogLevel::Info);
    assert_eq!(filter.matrix().len(), 2);
    assert!(!filter.show(key("c"), &LogLevel::Error));
    assert!(filter.show(key("a::b"), &LogLevel::Info));
    let filter = filter.set_level(key("a::b"), LogLevel::Error);
    assert_eq!(filter.matrix().len(), 2);
    assert!(!filter.show(key("a::b"), &LogLevel::Warn));
}

#[test]
fn new_keeps_last_entry_for_a_key() {
    let filter = LevelFilter::new(vec![(key("a"), LogLevel::Trace), (key("a"), LogLevel::Error)]);
    assert_eq!(filter.matrix().len(), 1);
    assert_eq!(filter.matrix()[0].1, LogLevel::Error);
}

#[test]
fn remove_drops_only_that_key() {
    let filter = LevelFilter::new(vec![(key("a"), LogLevel::Error), (None, LogLevel::Trace)]);
    let original = filter.clone();
    let filter = filter.remove(&key("a"));
    assert_eq!(filter.matrix().len(), 1);
    assert!(filter.show(key("a"), &LogLevel::Trace));
    let filter = filter.remove(&key("zzz")).remove(&None);
    assert!(filter.matrix().is_empty());
    assert!(!original.show(key("a"), &LogLevel::Trace));
    assert_eq!(original.matrix().len(), 2);
}

#[test]
fn only_hides_everything_else() {
    let filter = LevelFilter::new(vec![(None, LogLevel::Trace), (key("b"), LogLevel::Trace)]);
    let filter = filter.only("a::b".to_string(), LogLevel::Info);
    assert!(filter.show(key("a::b::c"), &LogLevel::Info));
    assert!(!filter.show(key("a::b::c"), &LogLevel::Debug));
    assert!(!filter.show(key("a"), &LogLevel::Error));
    assert!(!filter.show(key("c"), &LogLevel::Error));
    assert!(filter.show(key("b"), &LogLevel::Trace));
    assert_eq!(filter.matrix().len(), 3);
}
