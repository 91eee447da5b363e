use log_viewer::proto::log_level::LogLevel;
use log_viewer::proto::{Event, Fields, Span};
use log_viewer::state::{split_records, DecodePolicy, DecodedLine, EventType, State};

fn span(name: &str) -> Span {
    Span { name: name.to_string() }
}

fn event(message: &str, current: Option<&str>, open: Option<Vec<&str>>) -> Event {
    Event {
        fields: Fields { message: message.to_string() },
        level: LogLevel::Info,
        span: current.map(span),
        spans: open.map(|names| names.into_iter().map(span).collect()),
        target: "m".to_string(),
    }
}

fn decode(line: &str) -> Result<Event, serde_json::Error> {
    let value: serde_json::Value = serde_json::from_str(line)?;
    let name_of = |v: &serde_json::Value| span(v["name"].as_str().unwrap());
    Ok(Event {
        fields: Fields { message: value["fields"]["message"].as_str().unwrap().to_string() },
        level: LogLevel::from_name(value["level"].as_str().unwrap()).unwrap(),
        span: value.get("span").map(name_of),
        spans: value.get("spans").map(|s| s.as_array().unwrap().iter().map(name_of).collect()),
        target: value["target"].as_str().unwrap().to_string(),
    })
}

fn load(text: &str, policy: DecodePolicy) -> Result<State, log_viewer::state::ParseError> {
    let lines = split_records(text)
        .into_iter()
        .map(|l| DecodedLine { line_no: l.line_no, decoded: decode(&l.content), content: l.content })
        .collect();
    State::new(lines, policy)
}

fn depth(state: &State, node: usize) -> usize {
    state.nodes[node]
        .children
        .iter()
        .map(|c| match c {
            EventType::Node(n) => 1 + depth(state, *n),
            EventType::Message(_) => 0,
        })
        .max()
        .unwrap_or(0)
}

const SCENARIO: &str = "{\"fields\":{\"message\":\"enter\"},\"level\":\"INFO\",\"target\":\"m\",\"span\":{\"name\":\"s1\"},\"spans\":[]}
{\"fields\":{\"message\":\"hello\"},\"level\":\"INFO\",\"target\":\"m\",\"span\":{\"name\":\"s1\"}}
{\"fields\":{\"message\":\"exit\"},\"level\":\"INFO\",\"target\":\"m\",\"span\":{\"name\":\"s1\"}}
";

#[test]
fn end_to_end_single_span() {
    let state = load(SCENARIO, DecodePolicy::Strict).unwrap();
    assert_eq!(state.events.len(), 3);
    assert_eq!(state.nodes.len(), 2);
    assert_eq!(state.nodes[0].index, None);
    assert!(state.nodes[0].expanded);
    assert_eq!(state.nodes[0].children, vec![EventType::Node(1)]);
    assert_eq!(state.nodes[1].index, Some(0));
    assert!(!state.nodes[1].expanded);
    assert_eq!(state.nodes[1].children, vec![EventType::Message(1)]);
    assert_eq!(state.events[1].fields.message, "hello");
}

#[test]
fn reconstruction_is_deterministic() {
    let a = load(SCENARIO, DecodePolicy::Lenient).unwrap();
    let b = load(SCENARIO, DecodePolicy::Lenient).unwrap();
    assert_eq!(a.nodes.len(), b.nodes.len());
    for (x, y) in a.nodes.iter().zip(b.nodes.iter()) {
        assert_eq!(x.index, y.index);
        assert_eq!(x.children, y.children);
    }
}

#[test]
fn non_record_lines_are_skipped() {
    let text = format!("banner\n\nnot json at all\n{}", SCENARIO);
    let strict = load(&text, DecodePolicy::Strict).unwrap();
    assert_eq!(strict.events.len(), 3);
    assert_eq!(strict.nodes[1].children, vec![EventType::Message(1)]);
    let records = split_records(&text);
    assert_eq!(records.iter().map(|r| r.line_no).collect::<Vec<_>>(), vec![4, 5, 6]);
}

#[test]
fn malformed_record_line_lenient_and_strict() {
    let lines: Vec<&str> = SCENARIO.lines().collect();
    let text = format!("{}\n{}\n{{not json at all\n{}\n", lines[0], lines[1], lines[2]);
    let lenient = load(&text, DecodePolicy::Lenient).unwrap();
    assert_eq!(lenient.events.len(), 3);
    assert_eq!(lenient.nodes.len(), 2);
    assert_eq!(lenient.nodes[0].children, vec![EventType::Node(1)]);
    assert_eq!(lenient.nodes[1].children, vec![EventType::Message(1)]);
    let err = load(&text, DecodePolicy::Strict).unwrap_err();
    assert_eq!(err.line_no, 3);
    assert_eq!(err.content, "{not json at all");
}

#[test]
fn split_records_handles_crlf_and_numbers_from_one() {
    let records = split_records("{a}\r\nplain\n{b}\n\n{c}");
    let got: Vec<(usize, String)> = records.into_iter().map(|r| (r.line_no, r.content)).collect();
    assert_eq!(got, vec![(1, "{a}".to_string()), (3, "{b}".to_string()), (5, "{c}".to_string())]);
    assert!(split_records("").is_empty());
}

#[test]
fn unmatched_exit_changes_nothing() {
    let events = vec![
        event("enter", Some("a"), Some(vec!["a"])),
        event("exit", Some("b"), None),
        event("exit", None, None),
        event("inside", Some("a"), None),
        event("exit", Some("a"), None),
        event("exit", None, None),
        event("outside", None, None),
    ];
    let state = State::from_events(events);
    assert_eq!(state.nodes.len(), 2);
    assert_eq!(state.nodes[0].children, vec![EventType::Node(1), EventType::Message(6)]);
    assert_eq!(state.nodes[1].children, vec![EventType::Message(3)]);
}

#[test]
fn nested_spans_give_matching_depth() {
    let events = vec![
        event("enter", Some("a"), Some(vec!["a"])),
        event("m1", Some("a"), None),
        event("enter", Some("b"), Some(vec!["a", "b"])),
        event("new", Some("c"), None),
        event("enter", Some("c"), Some(vec!["a", "b", "c"])),
        event("m2", Some("c"), None),
        event("exit", Some("c"), None),
        event("close", Some("c"), None),
        event("m3", Some("b"), None),
        event("exit", Some("b"), None),
        event("exit", Some("a"), None),
        event("enter", Some("d"), Some(vec!["d"])),
        event("m4", Some("d"), None),
        event("exit", Some("d"), None),
        event("m5", None, None),
    ];
    let state = State::from_events(events);
    assert_eq!(state.nodes.len(), 5);
    assert_eq!(depth(&state, 0), 3);
    assert_eq!(state.nodes[0].children, vec![EventType::Node(1), EventType::Node(4), EventType::Message(14)]);
    assert_eq!(state.nodes[1].children, vec![EventType::Message(1), EventType::Node(2)]);
    assert_eq!(state.nodes[2].children, vec![EventType::Node(3), EventType::Message(8)]);
    assert_eq!(state.nodes[3].children, vec![EventType::Message(5)]);
    assert_eq!(state.nodes[4].children, vec![EventType::Message(12)]);
    assert_eq!(state.nodes[3].index, Some(4));
    assert_eq!(state.events.len(), 15);
}

#[test]
fn inconsistent_records_are_left_out() {
    let events = vec![
        event("enter", Some("a"), Some(vec!["a"])),
        event("enter", Some("x"), Some(vec!["y", "x"])),
        event("stray", Some("x"), None),
        event("kept", Some("a"), None),
        event("exit", Some("a"), None),
    ];
    let state = State::from_events(events);
    assert_eq!(state.nodes.len(), 2);
    assert_eq!(state.nodes[0].children, vec![EventType::Node(1)]);
    assert_eq!(state.nodes[1].children, vec![EventType::Message(3)]);
}

#[test]
fn enter_checks_second_to_last_span() {
    let events = vec![
        event("enter", Some("a"), Some(vec!["a"])),
        event("enter", Some("b"), Some(vec!["a", "b"])),
        event("deep", Some("b"), None),
    ];
    let state = State::from_events(events);
    assert_eq!(state.nodes.len(), 3);
    assert_eq!(state.nodes[1].children, vec![EventType::Node(2)]);
    assert_eq!(state.nodes[2].children, vec![EventType::Message(2)]);
}

#[test]
fn empty_input_gives_only_the_root() {
    let state = load("", DecodePolicy::Strict).unwrap();
    assert!(state.events.is_empty());
    assert_eq!(state.nodes.len(), 1);
    assert!(state.nodes[0].children.is_empty());
}

#[test]
fn record_lines_keeps_brace_lines_with_positions() {
    let lines = vec!["x".to_string(), "{1}".to_string(), " {2}".to_string(), "{3".to_string()];
    let got: Vec<(usize, String)> =
        log_viewer::state::record_lines(lines).into_iter().map(|r| (r.line_no, r.content)).collect();
    assert_eq!(got, vec![(2, "{1}".to_string()), (4, "{3".to_string())]);
}

#[test]
fn strict_load_reports_first_failure() {
    let bad = |text: &str| serde_json::from_str::<serde_json::Value>(text).unwrap_err();
    let lines = vec![
        DecodedLine { line_no: 1, content: "{".to_string(), decoded: Err(bad("{")) },
        DecodedLine { line_no: 2, content: "{\"x\"".to_string(), decoded: Err(bad("{\"x\"")) },
    ];
    let err = State::new(lines, DecodePolicy::Strict).unwrap_err();
    assert_eq!(err.line_no, 1);
    assert_eq!(err.content, "{");
    let lines = vec![
        DecodedLine { line_no: 1, content: "{".to_string(), decoded: Err(bad("{")) },
        DecodedLine { line_no: 2, content: "{}".to_string(), decoded: Ok(event("hi", None, None)) },
    ];
    let state = State::new(lines, DecodePolicy::Lenient).unwrap();
    assert_eq!(state.events.len(), 1);
    assert_eq!(state.nodes[0].children, vec![EventType::Message(0)]);
}
