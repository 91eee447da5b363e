//! Reconstruction of the span tree from an ordered sequence of records.
use vstd::prelude::*;

use crate::proto::{span_view, Event, EventView, Span};
use crate::text::{starts_with, str_eq};

verus! {

/// A child of a node: either a plain record, by its index among the
/// records, or a nested span, by its index among the nodes.
#[derive(Debug, Clone, Copy, PartialEq, Eq, Structural)]
pub enum EventType {
    Message(usize),
    Node(usize),
}

/// An element of the reconstructed tree.
#[derive(Debug, Clone)]
pub struct Node {
    /// The record that opened the span; `None` for the root.
    pub index: Option<usize>,
    /// The children, in the order of their records.
    pub children: Vec<EventType>,
    /// Whether a view shows the node open at first.
    pub expanded: bool,
}

/// What the contracts read of a node.
pub struct NodeView {
    pub index: Option<usize>,
    pub children: Seq<EventType>,
    pub expanded: bool,
}

impl View for Node {
    type V = NodeView;

    open spec fn view(&self) -> NodeView {
        NodeView { index: self.index, children: self.children@, expanded: self.expanded }
    }
}

/// The records of a log together with the span tree built over them. The
/// root of the tree is node 0.
#[derive(Debug, Clone)]
pub struct State {
    pub events: Vec<Event>,
    pub nodes: Vec<Node>,
}

/// Declares `serde_json::Error`, the error that decoding a line as a record
/// may give, so that a failed line can carry it.
#[verifier::external_type_specification]
#[verifier::external_body]
pub struct ExJsonError(serde_json::Error);

/// A line of the input that holds a record, with its 1-based line number.
#[derive(Debug, Clone)]
pub struct RecordLine {
    pub line_no: usize,
    pub content: String,
}

/// A record line and the outcome of decoding it.
#[derive(Debug)]
pub struct DecodedLine {
    pub line_no: usize,
    pub content: String,
    pub decoded: Result<Event, serde_json::Error>,
}

/// What loading does with a line that does not decode as a record.
#[derive(Debug, Clone, Copy, PartialEq, Eq, Structural)]
pub enum DecodePolicy {
    /// The whole load fails with the first such line.
    Strict,
    /// The line is dropped and loading goes on.
    Lenient,
}

/// The first line that did not decode, under the strict policy.
#[derive(Debug)]
pub struct ParseError {
    pub line_no: usize,
    pub content: String,
    pub error: serde_json::Error,
}

/// The state of the reconstruction after a prefix of the records: the
/// nodes built so far and the stack of open spans. Each entry of the stack
/// holds the node of an open span and the descriptor that its records carry.
pub struct Builder {
    pub nodes: Seq<NodeView>,
    pub stack: Seq<(usize, Option<Seq<char>>)>,
}

/// Before any record: the root, open, and a stack that holds only the root.
pub open spec fn initial_builder() -> Builder {
    Builder {
        nodes: seq![NodeView { index: Option::None, children: seq![], expanded: true }],
        stack: seq![(0usize, Option::None)],
    }
}

/// The span that was innermost before the span of an "enter" record
/// opened: the second-to-last of the spans it reports, if it reports two.
pub open spec fn previous_span(e: EventView) -> Option<Seq<char>> {
    match e.spans {
        Option::Some(s) => if s.len() >= 2 {
            Option::Some(s[s.len() - 2])
        } else {
            Option::None
        },
        Option::None => Option::None,
    }
}

/// `n` with one more child.
pub open spec fn with_child(n: NodeView, c: EventType) -> NodeView {
    NodeView { index: n.index, children: n.children.push(c), expanded: n.expanded }
}

/// A record that marks the opening of its span.
pub open spec fn is_enter(e: EventView) -> bool {
    e.message == "enter"@
}

/// A record that marks the closing of its span.
pub open spec fn is_exit(e: EventView) -> bool {
    e.message == "exit"@
}

/// A record that is neither of the four span lifecycle markers.
pub open spec fn is_message(e: EventView) -> bool {
    e.message != "enter"@ && e.message != "exit"@ && e.message != "new"@ && e.message
        != "close"@
}

/// The effect of record `i` on the reconstruction. A record whose span
/// context disagrees with the stack leaves everything as it was.
pub open spec fn step(b: Builder, i: usize, e: EventView) -> Builder {
    let top = b.stack.last();
    if is_enter(e) {
        if previous_span(e) == top.1 {
            let k = b.nodes.len() as usize;
            Builder {
                nodes: b.nodes.update(top.0 as int, with_child(b.nodes[top.0 as int], EventType::Node(k))).push(
                    NodeView { index: Option::Some(i), children: seq![], expanded: false },
                ),
                stack: b.stack.push((k, e.span)),
            }
        } else {
            b
        }
    } else if is_exit(e) {
        if b.stack.len() > 1 && e.span == top.1 {
            Builder { nodes: b.nodes, stack: b.stack.drop_last() }
        } else {
            b
        }
    } else if is_message(e) && e.span == top.1 {
        Builder {
            nodes: b.nodes.update(top.0 as int, with_child(b.nodes[top.0 as int], EventType::Message(i))),
            stack: b.stack,
        }
    } else {
        b
    }
}

/// The reconstruction after the records `events`, in order.
pub open spec fn build(events: Seq<EventView>) -> Builder
    decreases events.len(),
{
    if events.len() == 0 {
        initial_builder()
    } else {
        step(build(events.drop_last()), (events.len() - 1) as usize, events.last())
    }
}

/// The node forest reconstructed from `events`.
pub open spec fn tree_of(events: Seq<EventView>) -> Seq<NodeView> {
    build(events).nodes
}

/// The view of a borrowed optional span descriptor.
pub open spec fn span_ref_view(s: Option<&Span>) -> Option<Seq<char>> {
    match s {
        Option::Some(x) => Option::Some(x@),
        Option::None => Option::None,
    }
}

/// Whether two optional span descriptors stand for the same span.
fn same_span(a: Option<&Span>, b: Option<&Span>) -> (r: bool)
    ensures
        r == (span_ref_view(a) == span_ref_view(b)),
{
    match (a, b) {
        (Option::Some(x), Option::Some(y)) => x.name == y.name,
        (Option::None, Option::None) => true,
        _ => false,
    }
}

/// Reconstruction depends on the records alone: the same records give the
/// same nodes, with the same parent and child relations, every time.
pub proof fn lemma_reconstruction_deterministic(a: Seq<EventView>, b: Seq<EventView>)
    requires
        a == b,
    ensures
        tree_of(a) == tree_of(b),
        tree_of(a).len() == tree_of(b).len(),
        forall|n: int| 0 <= n < tree_of(a).len() ==> (#[trigger] tree_of(a)[n]).children == tree_of(b)[n].children,
{
}

/// An "exit" record that does not close the innermost open span (its span
/// differs from that span's, or only the root is open) changes neither the
/// nodes nor the stack; the next plain record whose span is that innermost
/// open span is still attached to its node.
pub proof fn lemma_unmatched_exit(events: Seq<EventView>, e: EventView, m: EventView)
    requires
        is_exit(e),
        build(events).stack.len() <= 1 || e.span != build(events).stack.last().1,
        is_message(m),
        m.span == build(events).stack.last().1,
    ensures
        build(events.push(e)) == build(events),
        build(events.push(e).push(m)).stack == build(events).stack,
        build(events.push(e).push(m)).nodes[build(events).stack.last().0 as int].children
            == build(events).nodes[build(events).stack.last().0 as int].children.push(
            EventType::Message((events.len() + 1) as usize),
        ),
{
    reveal_strlit("enter");
    reveal_strlit("exit");
    assert(events.push(e).drop_last() =~= events);
    assert(events.push(e).push(m).drop_last() =~= events.push(e));
    lemma_build_wf(events);
    assert("exit"@.len() != "enter"@.len());
    let b = build(events);
    assert(b.stack[b.stack.len() - 1].0 < b.nodes.len());
    assert(build(events.push(e)) == b);
    let em = events.push(e).push(m);
    assert(em.last() == m);
    assert(build(em) == step(b, (events.len() + 1) as usize, m));
    assert(!is_enter(m) && !is_exit(m));
}

/// The views of a sequence of records.
pub open spec fn events_view(events: Seq<Event>) -> Seq<EventView> {
    events.map_values(|e: Event| e@)
}

/// The views of a sequence of nodes.
pub open spec fn nodes_view(nodes: Seq<Node>) -> Seq<NodeView> {
    nodes.map_values(|n: Node| n@)
}

/// The descriptor carried by the stack entry whose span was opened by
/// record `d` (the root, for `None`).
spec fn entry_span(events: Seq<Event>, d: Option<usize>) -> Option<Seq<char>> {
    match d {
        Option::Some(j) => span_view(events[j as int].span),
        Option::None => Option::None,
    }
}

/// What every reconstruction state satisfies: the root stays at the bottom
/// of the stack, every entry names an existing node, and there is at most
/// one node per record besides the root.
pub open spec fn builder_wf(b: Builder, n: nat) -> bool {
    &&& b.stack.len() >= 1
    &&& b.stack[0] == (0usize, Option::<Seq<char>>::None)
    &&& 1 <= b.nodes.len() <= n + 1
    &&& forall|j: int| 0 <= j < b.stack.len() ==> (#[trigger] b.stack[j]).0 < b.nodes.len()
}

/// Every reconstruction state is well formed.
pub proof fn lemma_build_wf(events: Seq<EventView>)
    ensures
        builder_wf(build(events), events.len()),
    decreases events.len(),
{
    if events.len() > 0 {
        lemma_build_wf(events.drop_last());
    }
}

/// The span that was active before the span of an "enter" record opened.
fn get_previous_span(event: &Event) -> (r: Option<&Span>)
    ensures
        span_ref_view(r) == previous_span(event@),
{
    match &event.spans {
        Option::Some(spans) => {
            if spans.len() > 1 {
                Option::Some(&spans[spans.len() - 2])
            } else {
                Option::None
            }
        },
        Option::None => Option::None,
    }
}

impl State {
    /// The reconstructed tree, node by node.
    pub open spec fn tree(&self) -> Seq<NodeView> {
        nodes_view(self.nodes@)
    }

    /// Builds the span tree over `events`, in their order. Records whose span
    /// context disagrees with the spans open at that point are left out of
    /// the tree; they stay among the records.
    pub fn from_events(events: Vec<Event>) -> (s: State)
        ensures
            s.events@ == events@,
            s.tree() == tree_of(events_view(events@)),
    {
        let ghost ev = events_view(events@);
        let mut nodes: Vec<Node> = vec![Node { index: Option::None, children: Vec::new(), expanded: true }];
        let mut stack: Vec<(usize, Option<usize>)> = vec![(0usize, Option::None)];
        let n = events.len();
        let mut i: usize = 0;
        proof {
            assert(ev.take(0) =~= Seq::<EventView>::empty());
            assert(nodes_view(nodes@) =~= initial_builder().nodes);
        }
        while i < n
            invariant
                n == events.len(),
                ev == events_view(events@),
                i <= n,
                builder_wf(build(ev.take(i as int)), i as nat),
                nodes_view(nodes@) == build(ev.take(i as int)).nodes,
                stack.len() == build(ev.take(i as int)).stack.len(),
                forall|j: int|
                    0 <= j < stack.len() ==> {
                        &&& (#[trigger] stack[j]).0 == build(ev.take(i as int)).stack[j].0
                        &&& entry_span(events@, stack[j].1) == build(ev.take(i as int)).stack[j].1
                        &&& (stack[j].1 matches Option::Some(x) ==> x < n)
                    },
            decreases n - i,
        {
            let ghost b = build(ev.take(i as int));
            proof {
                lemma_build_wf(ev.take(i as int));
                assert(ev.take(i + 1).drop_last() =~= ev.take(i as int));
                assert(ev.take(i + 1).last() == events@[i as int]@);
            }
            let event = &events[i];
            let top = stack[stack.len() - 1];
            let current_node = top.0;
            let current_span: Option<&Span> = match top.1 {
                Option::Some(j) => events[j].span.as_ref(),
                Option::None => Option::None,
            };
            let message = event.fields.message.as_str();
            if str_eq(message, "enter") {
                let previous = get_previous_span(event);
                if same_span(previous, current_span) {
                    let node_index = nodes.len();
                    nodes[current_node].children.push(EventType::Node(node_index));
                    nodes.push(Node { index: Option::Some(i), children: Vec::new(), expanded: false });
                    stack.push((node_index, Option::Some(i)));
                }
            } else if str_eq(message, "exit") {
                if stack.len() > 1 && same_span(event.span.as_ref(), current_span) {
                    stack.pop();
                }
            } else if str_eq(message, "new") || str_eq(message, "close") {
            } else if same_span(event.span.as_ref(), current_span) {
                nodes[current_node].children.push(EventType::Message(i));
            }
            proof {
                assert(nodes_view(nodes@) =~= build(ev.take(i + 1)).nodes);
            }
            i += 1;
        }
        proof {
            assert(ev.take(n as int) =~= ev);
        }
        State { events, nodes }
    }
}

/// The records of the lines that decoded, in order.
pub open spec fn decoded_events(lines: Seq<DecodedLine>) -> Seq<Event>
    decreases lines.len(),
{
    if lines.len() == 0 {
        seq![]
    } else {
        let p = decoded_events(lines.drop_last());
        match lines.last().decoded {
            Result::Ok(e) => p.push(e),
            Result::Err(_) => p,
        }
    }
}

/// Line `i` is the first of `lines` that did not decode.
pub open spec fn is_first_failure(lines: Seq<DecodedLine>, i: int) -> bool {
    &&& 0 <= i < lines.len()
    &&& lines[i].decoded is Err
    &&& forall|j: int| 0 <= j < i ==> (#[trigger] lines[j]).decoded is Ok
}

impl State {
    /// Builds the records and the span tree from the decoded record lines.
    /// Under the strict policy the first line that did not decode fails
    /// the load; under the lenient one such lines are dropped.
    pub fn new(lines: Vec<DecodedLine>, policy: DecodePolicy) -> (r: Result<State, ParseError>)
        ensures
            match r {
                Result::Ok(s) => {
                    &&& (policy == DecodePolicy::Lenient || forall|i: int|
                        0 <= i < lines@.len() ==> (#[trigger] lines@[i]).decoded is Ok)
                    &&& s.events@ == decoded_events(lines@)
                    &&& s.tree() == tree_of(events_view(decoded_events(lines@)))
                },
                Result::Err(e) => {
                    &&& policy == DecodePolicy::Strict
                    &&& exists|i: int|
                        {
                            &&& is_first_failure(lines@, i)
                            &&& e.line_no == lines@[i].line_no
                            &&& e.content == lines@[i].content
                            &&& lines@[i].decoded == Result::<Event, serde_json::Error>::Err(e.error)
                        }
                },
            },
    {
        let ghost lv = lines@;
        let mut events: Vec<Event> = Vec::new();
        proof {
            assert(lv.take(0) =~= Seq::<DecodedLine>::empty());
        }
        for line in it: lines.into_iter()
            invariant
                lv == it.seq(),
                events@ == decoded_events(lv.take(it.index() as int)),
                policy == DecodePolicy::Strict ==> forall|j: int|
                    0 <= j < it.index() ==> (#[trigger] lv[j]).decoded is Ok,
        {
            let ghost k = it.index() as int;
            proof {
                assert(lv.take(k + 1).drop_last() =~= lv.take(k));
                assert(lv.take(k + 1).last() == line);
            }
            let DecodedLine { line_no, content, decoded } = line;
            match decoded {
                Result::Ok(e) => {
                    events.push(e);
                },
                Result::Err(error) => {
                    if policy == DecodePolicy::Strict {
                        let e = ParseError { line_no, content, error };
                        proof {
                            assert(is_first_failure(lv, k));
                        }
                        return Result::Err(e);
                    }
                },
            }
        }
        proof {
            assert(lv.take(lv.len() as int) =~= lv);
        }
        Result::Ok(State::from_events(events))
    }
}

/// The lines of a text as `str::lines` splits it.
pub uninterp spec fn lines_of(s: Seq<char>) -> Seq<Seq<char>>;

/// Relies on `str::lines`: the lines of `s`, split at each `\n` or `\r\n`,
/// without their line endings; the result depends on `s` alone.
#[verifier::external_body]
fn split_lines(s: &str) -> (r: Vec<String>)
    ensures
        r@.map_values(|l: String| l@) == lines_of(s@),
{
    s.lines().map(|l| l.to_string()).collect()
}

/// Whether a line holds a record: it starts with `{`.
pub open spec fn is_record_line(l: Seq<char>) -> bool {
    l.len() > 0 && l[0] == '{'
}

/// The lines among `lines` that hold a record, each with its 1-based
/// position in `lines`.
pub open spec fn record_lines_of(lines: Seq<Seq<char>>) -> Seq<(nat, Seq<char>)>
    decreases lines.len(),
{
    if lines.len() == 0 {
        seq![]
    } else {
        let p = record_lines_of(lines.drop_last());
        if is_record_line(lines.last()) {
            p.push((lines.len(), lines.last()))
        } else {
            p
        }
    }
}

impl View for RecordLine {
    type V = (nat, Seq<char>);

    open spec fn view(&self) -> (nat, Seq<char>) {
        (self.line_no as nat, self.content@)
    }
}

/// Keeps the lines that hold a record, numbering them from 1 by their
/// position among all lines.
pub fn record_lines(lines: Vec<String>) -> (r: Vec<RecordLine>)
    ensures
        r@.map_values(|l: RecordLine| l@) == record_lines_of(lines@.map_values(|l: String| l@)),
{
    let ghost lv = lines@.map_values(|l: String| l@);
    let mut r: Vec<RecordLine> = Vec::new();
    let mut i: usize = 0;
    let n = lines.len();
    proof {
        assert(lv.take(0) =~= Seq::<Seq<char>>::empty());
        assert(r@.map_values(|l: RecordLine| l@) =~= record_lines_of(lv.take(0)));
    }
    for line in it: lines.into_iter()
        invariant
            lv == it.seq().map_values(|l: String| l@),
            lv.len() == n,
            i == it.index(),
            r@.map_values(|l: RecordLine| l@) == record_lines_of(lv.take(i as int)),
    {
        proof {
            assert(lv.take(i + 1).drop_last() =~= lv.take(i as int));
            assert(lv.take(i + 1).last() == line@);
        }
        let holds_record = starts_with(line.as_str(), "{");
        proof {
            reveal_strlit("{");
            if holds_record {
                assert(line@.subrange(0, 1)[0] == line@[0]);
            }
            if is_record_line(line@) {
                assert(line@.subrange(0, 1) =~= "{"@);
            }
        }
        if holds_record {
            r.push(RecordLine { line_no: i + 1, content: line });
        }
        proof {
            assert(r@.map_values(|l: RecordLine| l@) =~= record_lines_of(lv.take(i + 1)));
        }
        i += 1;
    }
    proof {
        assert(lv.take(i as int) =~= lv);
    }
    r
}

/// The lines of `data` that hold a record, numbered from 1 among all lines.
pub fn split_records(data: &str) -> (r: Vec<RecordLine>)
    ensures
        r@.map_values(|l: RecordLine| l@) == record_lines_of(lines_of(data@)),
{
    record_lines(split_lines(data))
}

} // verus!
