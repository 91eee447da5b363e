use std::str::FromStr;

use log_viewer::gist::{Gist, GistFile};
use log_viewer::proto::log_level::{LogLevel, LogLevelLabelProps};

#[test]
fn names_parse_ignoring_case() {
    assert_eq!(LogLevel::from_name("INFO").unwrap(), LogLevel::Info);
    assert_eq!(LogLevel::from_name("warn").unwrap(), LogLevel::Warn);
    assert_eq!(LogLevel::from_name("TrAcE").unwrap(), LogLevel::Trace);
    assert_eq!(LogLevel::from_name("none").unwrap(), LogLevel::Off);
    assert_eq!(LogLevel::from_str("Error").unwrap(), LogLevel::Error);
    assert_eq!(LogLevel::from_str("DEBUG").unwrap(), LogLevel::Debug);
    let err = LogLevel::from_name("Verbose").unwrap_err();
    assert_eq!(err.name, "verbose");
    assert!(LogLevel::from_name("").is_err());
}

#[test]
fn names_labels_and_colors() {
    assert_eq!(LogLevel::Info.name(), "INFO");
    assert_eq!(LogLevel::Off.name(), "NONE");
    assert_eq!(LogLevel::Info.label(), "[INFO] ");
    assert_eq!(LogLevel::Error.label(), "[ERROR]");
    assert_eq!(LogLevel::Trace.color(), "gray-500");
    assert_eq!(LogLevel::Warn.color(), "orange-500");
    assert_eq!(LogLevel::Off.color(), "white");
}

#[test]
fn levels_are_ordered() {
    let all = [LogLevel::Trace, LogLevel::Debug, LogLevel::Info, LogLevel::Warn, LogLevel::Error, LogLevel::Off];
    for (i, a) in all.iter().enumerate() {
        assert_eq!(a.num(), i);
        for (j, b) in all.iter().enumerate() {
            assert_eq!(a.partial_cmp(b), i.partial_cmp(&j));
        }
    }
    assert!(LogLevel::Warn >= LogLevel::Info);
    assert!(LogLevel::Debug < LogLevel::Info);
    assert_eq!(LogLevel::default(), LogLevel::Off);
}

#[test]
fn current_file_is_the_first() {
    let file = |name: &str| GistFile {
        filename: name.to_string(),
        content: format!("content of {name}"),
        raw_url: format!("https://example.invalid/{name}"),
        truncated: false,
    };
    let gist = Gist {
        id: Some("abc".to_string()),
        public: true,
        files: vec![("a.json".to_string(), file("a.json")), ("b.json".to_string(), file("b.json"))],
        description: None,
    };
    assert_eq!(gist.current_file().unwrap().filename, "a.json");
    let empty = Gist { id: None, public: false, files: vec![], description: None };
    assert!(empty.current_file().is_none());
}

#[test]
fn label_props_text_and_background() {
    let props = LogLevelLabelProps { level: LogLevel::Info };
    assert_eq!(props.text(), "[INFO] ");
    assert_eq!(props.background(), "bg-green-500");
    let props = LogLevelLabelProps { level: LogLevel::Debug };
    assert_eq!(props.text(), "[DEBUG]");
    assert_eq!(props.background(), "bg-blue-500");
}
