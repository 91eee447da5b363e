//! What the reconstruction gives on well-nested logs: every span that opens
//! becomes a node at its nesting depth, and every plain record hangs under
//! the span innermost when it was emitted.
use vstd::prelude::*;

use crate::proto::EventView;
use crate::state::{
    build, builder_wf, is_enter, is_exit, is_message, lemma_build_wf, previous_span, step,
    tree_of, with_child, Builder, EventType, NodeView,
};

verus! {

/// The records that opened the spans still open after `events`, outermost
/// first. An "exit" closes the innermost one.
pub open spec fn open_spans(events: Seq<EventView>) -> Seq<int>
    decreases events.len(),
{
    if events.len() == 0 {
        seq![]
    } else {
        let p = open_spans(events.drop_last());
        let e = events.last();
        if is_enter(e) {
            p.push(events.len() - 1)
        } else if is_exit(e) && p.len() > 0 {
            p.drop_last()
        } else {
            p
        }
    }
}

/// The descriptor of the innermost open span; `None` when no span is open.
pub open spec fn innermost(events: Seq<EventView>, open: Seq<int>) -> Option<Seq<char>> {
    if open.len() == 0 {
        Option::None
    } else {
        events[open.last()].span
    }
}

/// Record `e`, coming after `pre`, agrees with the spans open at that point:
/// an "enter" names the innermost open span as the one before it, an "exit"
/// closes the innermost open span, and a plain record belongs to it.
pub open spec fn consistent_next(pre: Seq<EventView>, e: EventView) -> bool {
    let open = open_spans(pre);
    let top = innermost(pre, open);
    &&& is_enter(e) ==> previous_span(e) == top
    &&& is_exit(e) ==> open.len() > 0 && e.span == top
    &&& is_message(e) ==> e.span == top
}

/// Every record agrees with the spans open when it was emitted: spans open
/// and close in LIFO order and each record reports its context truthfully.
pub open spec fn well_nested(events: Seq<EventView>) -> bool
    decreases events.len(),
{
    if events.len() == 0 {
        true
    } else {
        well_nested(events.drop_last()) && consistent_next(events.drop_last(), events.last())
    }
}

/// The largest number of spans open at once, over every prefix of `events`.
pub open spec fn max_nesting(events: Seq<EventView>) -> nat
    decreases events.len(),
{
    if events.len() == 0 {
        0
    } else {
        let a = max_nesting(events.drop_last());
        let b = open_spans(events).len();
        if a >= b {
            a
        } else {
            b
        }
    }
}

/// `p` is a path of nodes from the root downwards, each a nested span of
/// the one before.
pub open spec fn is_path(nodes: Seq<NodeView>, p: Seq<int>) -> bool {
    &&& p.len() >= 1
    &&& p[0] == 0
    &&& forall|j: int| 0 <= j < p.len() ==> 0 <= #[trigger] p[j] < nodes.len()
    &&& forall|j: int|
        1 <= j < p.len() ==> nodes[p[j - 1]].children.contains(EventType::Node(#[trigger] p[j] as usize))
}

/// The tree has depth `d`: some path from the root passes `d` spans, and
/// none passes more.
pub open spec fn has_depth(nodes: Seq<NodeView>, d: nat) -> bool {
    &&& exists|p: Seq<int>| is_path(nodes, p) && p.len() == d + 1
    &&& forall|p: Seq<int>| is_path(nodes, p) ==> p.len() <= d + 1
}

/// Record `k` is a child of the node of the span that was innermost when it
/// was emitted, or of the root when no span was open.
pub open spec fn attached(nodes: Seq<NodeView>, events: Seq<EventView>, k: int) -> bool {
    let open = open_spans(events.take(k));
    if open.len() == 0 {
        nodes[0].children.contains(EventType::Message(k as usize))
    } else {
        exists|n: int|
            0 < n < nodes.len() && nodes[n].index == Option::Some(open.last() as usize)
                && #[trigger] nodes[n].children.contains(EventType::Message(k as usize))
    }
}

/// The nesting depth of each node: 0 for the root, and for a span node the
/// number of entries on the stack when it was opened.
pub open spec fn depths(events: Seq<EventView>) -> Seq<nat>
    decreases events.len(),
{
    if events.len() == 0 {
        seq![0]
    } else {
        let pre = events.drop_last();
        let b = build(pre);
        let e = events.last();
        if is_enter(e) && previous_span(e) == b.stack.last().1 {
            depths(pre).push(b.stack.len())
        } else {
            depths(pre)
        }
    }
}

/// `new` has every node of `old`, with the same record and at least its
/// children.
pub open spec fn extends(old: Seq<NodeView>, new: Seq<NodeView>) -> bool {
    &&& old.len() <= new.len()
    &&& forall|n: int|
        0 <= n < old.len() ==> {
            &&& (#[trigger] new[n]).index == old[n].index
            &&& forall|x: EventType| old[n].children.contains(x) ==> #[trigger] new[n].children.contains(x)
        }
}

/// What holds after each prefix of a well-nested log.
pub open spec fn nest_inv(events: Seq<EventView>) -> bool {
    let b = build(events);
    let o = open_spans(events);
    let d = depths(events);
    &&& builder_wf(b, events.len())
    &&& b.stack.len() == o.len() + 1
    &&& forall|j: int|
        0 <= j < o.len() ==> {
            &&& 0 <= #[trigger] o[j] < events.len()
            &&& b.stack[j + 1].1 == events[o[j]].span
            &&& b.stack[j + 1].0 > 0
            &&& b.nodes[b.stack[j + 1].0 as int].index == Option::Some(o[j] as usize)
        }
    &&& d.len() == b.nodes.len()
    &&& d[0] == 0
    &&& forall|j: int| 0 <= j < b.stack.len() ==> d[(#[trigger] b.stack[j]).0 as int] == j
    &&& forall|j: int|
        1 <= j < b.stack.len() ==> b.nodes[b.stack[j - 1].0 as int].children.contains(
            EventType::Node((#[trigger] b.stack[j]).0),
        )
    &&& forall|n: int, c: usize|
        0 <= n < b.nodes.len() && #[trigger] b.nodes[n].children.contains(EventType::Node(c)) ==> {
            &&& (c as int) < b.nodes.len()
            &&& d[c as int] == d[n] + 1
        }
    &&& forall|n: int| 0 <= n < b.nodes.len() ==> #[trigger] d[n] <= max_nesting(events)
    &&& exists|p: Seq<int>| is_path(b.nodes, p) && p.len() == max_nesting(events) + 1
    &&& forall|k: int| 0 <= k < events.len() && #[trigger] is_message(events[k]) ==> attached(b.nodes, events, k)
}

proof fn lemma_markers_distinct()
    ensures
        "enter"@ != "exit"@,
        "enter"@ != "new"@,
        "enter"@ != "close"@,
        "exit"@ != "new"@,
        "exit"@ != "close"@,
{
    reveal_strlit("enter");
    reveal_strlit("exit");
    reveal_strlit("new");
    reveal_strlit("close");
    assert("enter"@.len() == 5 && "exit"@.len() == 4 && "new"@.len() == 3 && "close"@.len() == 5);
    assert("enter"@[0] != "close"@[0]);
}

proof fn lemma_step_extends(b: Builder, i: usize, e: EventView, n: nat)
    requires
        builder_wf(b, n),
    ensures
        extends(b.nodes, step(b, i, e).nodes),
{
    let b2 = step(b, i, e);
    let top = b.stack.last();
    assert(top == b.stack[b.stack.len() - 1]);
    assert forall|m: int| 0 <= m < b.nodes.len() implies {
        &&& (#[trigger] b2.nodes[m]).index == b.nodes[m].index
        &&& forall|x: EventType| b.nodes[m].children.contains(x) ==> #[trigger] b2.nodes[m].children.contains(x)
    } by {
        assert forall|x: EventType| b.nodes[m].children.contains(x) implies #[trigger] b2.nodes[m].children.contains(x) by {
            let w = choose|w: int| 0 <= w < b.nodes[m].children.len() && b.nodes[m].children[w] == x;
            if m == top.0 as int && b2.nodes[m].children.len() == b.nodes[m].children.len() + 1 {
                assert(b2.nodes[m].children[w] == x);
            } else {
                assert(b2.nodes[m].children[w] == x);
            }
        }
    }
}

proof fn lemma_path_extends(old: Seq<NodeView>, new: Seq<NodeView>, p: Seq<int>)
    requires
        is_path(old, p),
        extends(old, new),
    ensures
        is_path(new, p),
{
    assert forall|j: int| 1 <= j < p.len() implies new[p[j - 1]].children.contains(EventType::Node(#[trigger] p[j] as usize)) by {
        assert(0 <= p[j - 1] < old.len());
        assert(old[p[j - 1]].children.contains(EventType::Node(p[j] as usize)));
    }
}

proof fn lemma_open_bounded(events: Seq<EventView>)
    ensures
        open_spans(events).len() <= max_nesting(events),
{
}

/// Facts about one step of a well-nested log that hold whatever the record is.
proof fn lemma_step_common(events: Seq<EventView>)
    requires
        events.len() > 0,
        events.len() < usize::MAX,
        nest_inv(events.drop_last()),
        consistent_next(events.drop_last(), events.last()),
    ensures
        build(events) == step(build(events.drop_last()), (events.len() - 1) as usize, events.last()),
        extends(build(events.drop_last()).nodes, build(events).nodes),
        build(events.drop_last()).stack.last() == build(events.drop_last()).stack[build(events.drop_last()).stack.len() - 1],
        build(events.drop_last()).stack.last().1 == innermost(events.drop_last(), open_spans(events.drop_last())),
        builder_wf(build(events), events.len()),
        open_spans(events.drop_last()).len() <= max_nesting(events.drop_last()),
        forall|k: int| 0 <= k < events.len() - 1 ==> #[trigger] events[k] == events.drop_last()[k],
        events.take(events.len() - 1) == events.drop_last(),
        exists|p: Seq<int>| is_path(build(events).nodes, p) && p.len() == max_nesting(events.drop_last()) + 1,
        forall|k: int|
            0 <= k < events.len() - 1 && #[trigger] is_message(events[k]) ==> attached(build(events).nodes, events, k),
{
    let pre = events.drop_last();
    let e = events.last();
    let b = build(pre);
    let o = open_spans(pre);
    let b2 = build(events);
    let i = (events.len() - 1) as usize;
    let top = b.stack.last();
    lemma_build_wf(events);
    lemma_step_extends(b, i, e, pre.len());
    lemma_open_bounded(pre);
    assert(top == b.stack[b.stack.len() - 1]);
    assert(top.1 == innermost(pre, o)) by {
        if o.len() > 0 {
            assert(b.stack[o.len() as int].1 == pre[o[o.len() - 1]].span);
        }
    }
    assert(events.take(pre.len() as int) =~= pre);
    let pw = choose|p: Seq<int>| is_path(b.nodes, p) && p.len() == max_nesting(pre) + 1;
    lemma_path_extends(b.nodes, b2.nodes, pw);
    assert forall|k: int| 0 <= k < pre.len() && #[trigger] is_message(events[k]) implies attached(b2.nodes, events, k) by {
        assert(events.take(k) =~= pre.take(k));
        assert(events[k] == pre[k]);
        assert(attached(b.nodes, pre, k));
        let ok = open_spans(pre.take(k));
        if ok.len() == 0 {
            assert(b.nodes[0].children.contains(EventType::Message(k as usize)));
        } else {
            let n = choose|n: int|
                0 < n < b.nodes.len() && b.nodes[n].index == Option::Some(ok.last() as usize)
                    && #[trigger] b.nodes[n].children.contains(EventType::Message(k as usize));
            assert(b2.nodes[n].children.contains(EventType::Message(k as usize)));
        }
    }
}

#[verifier::rlimit(40)]
proof fn lemma_nest_step_enter(events: Seq<EventView>)
    requires
        events.len() > 0,
        events.len() < usize::MAX,
        nest_inv(events.drop_last()),
        consistent_next(events.drop_last(), events.last()),
        is_enter(events.last()),
    ensures
        nest_inv(events),
{
    let pre = events.drop_last();
    let e = events.last();
    let b = build(pre);
    let o = open_spans(pre);
    let d = depths(pre);
    let b2 = build(events);
    let o2 = open_spans(events);
    let d2 = depths(events);
    let i = (events.len() - 1) as usize;
    let top = b.stack.last();
    lemma_markers_distinct();
    lemma_step_common(events);
    let pw = choose|p: Seq<int>| is_path(b2.nodes, p) && p.len() == max_nesting(pre) + 1;
    let k = b.nodes.len() as usize;
    assert(o2 == o.push(i as int));
    assert(d2 == d.push(b.stack.len()));
    assert(b2.stack == b.stack.push((k, e.span)));
    assert(b2.nodes[k as int].index == Option::Some(i));
    assert forall|j: int| 0 <= j < o2.len() implies {
        &&& 0 <= #[trigger] o2[j] < events.len()
        &&& b2.stack[j + 1].1 == events[o2[j]].span
        &&& b2.stack[j + 1].0 > 0
        &&& b2.nodes[b2.stack[j + 1].0 as int].index == Option::Some(o2[j] as usize)
    } by {
        if j < o.len() {
            assert(o2[j] == o[j]);
            assert(b2.stack[j + 1] == b.stack[j + 1]);
            assert(b2.nodes[b.stack[j + 1].0 as int] == b2.nodes[b.stack[j + 1].0 as int]);
            assert(b.stack[j + 1].0 < b.nodes.len());
        }
    }
    assert forall|j: int| 0 <= j < b2.stack.len() implies d2[(#[trigger] b2.stack[j]).0 as int] == j by {
        if j < b.stack.len() {
            assert(b2.stack[j] == b.stack[j]);
            assert(b.stack[j].0 < b.nodes.len());
        }
    }
    assert forall|j: int|
        1 <= j < b2.stack.len() implies b2.nodes[b2.stack[j - 1].0 as int].children.contains(
        EventType::Node((#[trigger] b2.stack[j]).0),
    ) by {
        if j < b.stack.len() {
            assert(b2.stack[j] == b.stack[j]);
            assert(b2.stack[j - 1] == b.stack[j - 1]);
            assert(b.stack[j - 1].0 < b.nodes.len());
            assert(b.nodes[b.stack[j - 1].0 as int].children.contains(EventType::Node(b.stack[j].0)));
        } else {
            assert(b2.stack[j - 1] == top);
            let ch = b2.nodes[top.0 as int].children;
            assert(ch[ch.len() - 1] == EventType::Node(k));
        }
    }
    assert forall|n: int, c: usize|
        0 <= n < b2.nodes.len() && #[trigger] b2.nodes[n].children.contains(EventType::Node(c)) implies {
        &&& (c as int) < b2.nodes.len()
        &&& d2[c as int] == d2[n] + 1
    } by {
        let w = choose|w: int|
            0 <= w < b2.nodes[n].children.len() && b2.nodes[n].children[w] == EventType::Node(c);
        if n == top.0 as int && w == b2.nodes[n].children.len() - 1 {
            assert(c == k);
            assert(d[top.0 as int] == b.stack.len() - 1);
        } else if n < b.nodes.len() {
            assert(b.nodes[n].children[w] == EventType::Node(c));
            assert(b.nodes[n].children.contains(EventType::Node(c)));
        } else {
            assert(b2.nodes[n].children.len() == 0);
        }
    }
    assert forall|n: int| 0 <= n < b2.nodes.len() implies #[trigger] d2[n] <= max_nesting(events) by {
        if n < b.nodes.len() {
            assert(d2[n] == d[n]);
        }
    }
    if o2.len() > max_nesting(pre) {
        let sp = Seq::new(b2.stack.len(), |j: int| b2.stack[j].0 as int);
        assert forall|j: int| 0 <= j < sp.len() implies 0 <= #[trigger] sp[j] < b2.nodes.len() by {
            assert(b2.stack[j].0 < b2.nodes.len());
        }
        assert forall|j: int| 1 <= j < sp.len() implies b2.nodes[sp[j - 1]].children.contains(EventType::Node(#[trigger] sp[j] as usize)) by {
            assert(b2.nodes[b2.stack[j - 1].0 as int].children.contains(EventType::Node(b2.stack[j].0)));
        }
        assert(is_path(b2.nodes, sp));
    } else {
        assert(is_path(b2.nodes, pw));
    }
    assert(!is_message(e));
}

#[verifier::rlimit(40)]
proof fn lemma_nest_step_exit(events: Seq<EventView>)
    requires
        events.len() > 0,
        events.len() < usize::MAX,
        nest_inv(events.drop_last()),
        consistent_next(events.drop_last(), events.last()),
        !is_enter(events.last()) && is_exit(events.last()),
    ensures
        nest_inv(events),
{
    let pre = events.drop_last();
    let b = build(pre);
    let o = open_spans(pre);
    let d = depths(pre);
    let b2 = build(events);
    let o2 = open_spans(events);
    let d2 = depths(events);
    lemma_markers_distinct();
    lemma_step_common(events);
    let pw = choose|p: Seq<int>| is_path(b2.nodes, p) && p.len() == max_nesting(pre) + 1;
    assert(o2 == o.drop_last());
    assert(d2 == d);
    assert(b2.stack == b.stack.drop_last());
    assert(b2.nodes == b.nodes);
    assert forall|j: int| 0 <= j < o2.len() implies {
        &&& 0 <= #[trigger] o2[j] < events.len()
        &&& b2.stack[j + 1].1 == events[o2[j]].span
        &&& b2.stack[j + 1].0 > 0
        &&& b2.nodes[b2.stack[j + 1].0 as int].index == Option::Some(o2[j] as usize)
    } by {
        assert(o2[j] == o[j]);
        assert(b2.stack[j + 1] == b.stack[j + 1]);
    }
    assert forall|j: int| 0 <= j < b2.stack.len() implies d2[(#[trigger] b2.stack[j]).0 as int] == j by {
        assert(b2.stack[j] == b.stack[j]);
    }
    assert forall|j: int|
        1 <= j < b2.stack.len() implies b2.nodes[b2.stack[j - 1].0 as int].children.contains(
        EventType::Node((#[trigger] b2.stack[j]).0),
    ) by {
        assert(b2.stack[j] == b.stack[j]);
        assert(b2.stack[j - 1] == b.stack[j - 1]);
    }
    assert(is_path(b2.nodes, pw));
}

#[verifier::rlimit(40)]
proof fn lemma_nest_step_message(events: Seq<EventView>)
    requires
        events.len() > 0,
        events.len() < usize::MAX,
        nest_inv(events.drop_last()),
        consistent_next(events.drop_last(), events.last()),
        is_message(events.last()),
    ensures
        nest_inv(events),
{
    let pre = events.drop_last();
    let e = events.last();
    let b = build(pre);
    let o = open_spans(pre);
    let d = depths(pre);
    let b2 = build(events);
    let o2 = open_spans(events);
    let d2 = depths(events);
    let i = (events.len() - 1) as usize;
    let top = b.stack.last();
    lemma_markers_distinct();
    lemma_step_common(events);
    let pw = choose|p: Seq<int>| is_path(b2.nodes, p) && p.len() == max_nesting(pre) + 1;
    assert(o2 == o);
    assert(d2 == d);
    assert(b2.stack == b.stack);
    assert(b2.nodes == b.nodes.update(top.0 as int, with_child(b.nodes[top.0 as int], EventType::Message(i))));
    assert forall|j: int| 0 <= j < o2.len() implies {
        &&& 0 <= #[trigger] o2[j] < events.len()
        &&& b2.stack[j + 1].1 == events[o2[j]].span
        &&& b2.stack[j + 1].0 > 0
        &&& b2.nodes[b2.stack[j + 1].0 as int].index == Option::Some(o2[j] as usize)
    } by {
        assert(b.stack[j + 1].0 < b.nodes.len());
    }
    assert forall|j: int|
        1 <= j < b2.stack.len() implies b2.nodes[b2.stack[j - 1].0 as int].children.contains(
        EventType::Node((#[trigger] b2.stack[j]).0),
    ) by {
        assert(b.stack[j - 1].0 < b.nodes.len());
        assert(b.nodes[b.stack[j - 1].0 as int].children.contains(EventType::Node(b.stack[j].0)));
    }
    assert forall|n: int, c: usize|
        0 <= n < b2.nodes.len() && #[trigger] b2.nodes[n].children.contains(EventType::Node(c)) implies {
        &&& (c as int) < b2.nodes.len()
        &&& d2[c as int] == d2[n] + 1
    } by {
        let w = choose|w: int|
            0 <= w < b2.nodes[n].children.len() && b2.nodes[n].children[w] == EventType::Node(c);
        if n == top.0 as int && w == b2.nodes[n].children.len() - 1 {
            assert(false);
        } else {
            assert(b.nodes[n].children[w] == EventType::Node(c));
            assert(b.nodes[n].children.contains(EventType::Node(c)));
        }
    }
    lemma_message_attached(events);
    assert forall|k: int| 0 <= k < events.len() && #[trigger] is_message(events[k]) implies attached(b2.nodes, events, k) by {
        if k == events.len() - 1 {
            assert(events[k] == e);
        }
    }
    assert(is_path(b2.nodes, pw));
}

/// A plain record that agrees with the open spans is attached where it belongs.
proof fn lemma_message_attached(events: Seq<EventView>)
    requires
        events.len() > 0,
        events.len() < usize::MAX,
        nest_inv(events.drop_last()),
        consistent_next(events.drop_last(), events.last()),
        is_message(events.last()),
    ensures
        attached(build(events).nodes, events, events.len() - 1),
{
    let pre = events.drop_last();
    let e = events.last();
    let b = build(pre);
    let o = open_spans(pre);
    let b2 = build(events);
    let i = (events.len() - 1) as usize;
    let top = b.stack.last();
    lemma_markers_distinct();
    lemma_step_common(events);
    assert(events.take(i as int) =~= pre);
    assert(b2.nodes == b.nodes.update(top.0 as int, with_child(b.nodes[top.0 as int], EventType::Message(i))));
    let ch = b2.nodes[top.0 as int].children;
    assert(ch[ch.len() - 1] == EventType::Message(i));
    assert(ch.contains(EventType::Message(i)));
    if o.len() == 0 {
        assert(top == b.stack[0]);
    } else {
        let n = top.0 as int;
        assert(top == b.stack[o.len() as int]);
        assert(o[o.len() - 1] == o.last());
        assert(b.nodes[n].index == Option::Some(o.last() as usize));
        assert(b2.nodes[n].index == b.nodes[n].index);
        assert(0 < n < b2.nodes.len());
        assert(b2.nodes[n].children.contains(EventType::Message(i)));
    }
}

#[verifier::rlimit(40)]
proof fn lemma_nest_step_marker(events: Seq<EventView>)
    requires
        events.len() > 0,
        events.len() < usize::MAX,
        nest_inv(events.drop_last()),
        consistent_next(events.drop_last(), events.last()),
        !is_enter(events.last()) && !is_exit(events.last()) && !is_message(events.last()),
    ensures
        nest_inv(events),
{
    let pre = events.drop_last();
    let b = build(pre);
    let o = open_spans(pre);
    let d = depths(pre);
    let b2 = build(events);
    let o2 = open_spans(events);
    let d2 = depths(events);
    lemma_markers_distinct();
    lemma_step_common(events);
    let pw = choose|p: Seq<int>| is_path(b2.nodes, p) && p.len() == max_nesting(pre) + 1;
    assert(o2 == o);
    assert(d2 == d);
    assert(b2 == b);
    assert(is_path(b2.nodes, pw));
}

proof fn lemma_nest_inv_step(events: Seq<EventView>)
    requires
        events.len() > 0,
        events.len() < usize::MAX,
        nest_inv(events.drop_last()),
        consistent_next(events.drop_last(), events.last()),
    ensures
        nest_inv(events),
{
    let e = events.last();
    if is_enter(e) {
        lemma_nest_step_enter(events);
    } else if is_exit(e) {
        lemma_nest_step_exit(events);
    } else if is_message(e) {
        lemma_nest_step_message(events);
    } else {
        lemma_nest_step_marker(events);
    }
}

proof fn lemma_nest_inv(events: Seq<EventView>)
    requires
        well_nested(events),
        events.len() < usize::MAX,
    ensures
        nest_inv(events),
    decreases events.len(),
{
    if events.len() == 0 {
        let p = seq![0int];
        assert(is_path(build(events).nodes, p));
        assert(build(events).stack[0].0 == 0);
    } else {
        lemma_nest_inv(events.drop_last());
        lemma_nest_inv_step(events);
    }
}

proof fn lemma_path_depth(nodes: Seq<NodeView>, d: Seq<nat>, p: Seq<int>, j: int)
    requires
        is_path(nodes, p),
        0 <= j < p.len(),
        d.len() == nodes.len(),
        d[0] == 0,
        nodes.len() <= usize::MAX,
        forall|n: int, c: usize|
            0 <= n < nodes.len() && #[trigger] nodes[n].children.contains(EventType::Node(c)) ==> {
                &&& (c as int) < nodes.len()
                &&& d[c as int] == d[n] + 1
            },
    ensures
        d[p[j]] == j,
    decreases j,
{
    if j > 0 {
        lemma_path_depth(nodes, d, p, j - 1);
        assert(nodes[p[j - 1]].children.contains(EventType::Node(p[j] as usize)));
        assert(0 <= p[j - 1] < nodes.len());
        assert(0 <= p[j] < nodes.len());
    }
}

/// On a well-nested log, the tree is as deep as spans were ever nested, and
/// every plain record is a child of the node of the span that was innermost
/// when it was emitted (of the root, when none was open).
pub proof fn lemma_well_nested_tree(events: Seq<EventView>)
    requires
        well_nested(events),
        events.len() < usize::MAX,
    ensures
        has_depth(tree_of(events), max_nesting(events)),
        forall|k: int| 0 <= k < events.len() && #[trigger] is_message(events[k]) ==> attached(tree_of(events), events, k),
{
    lemma_nest_inv(events);
    let b = build(events);
    let d = depths(events);
    assert forall|p: Seq<int>| is_path(b.nodes, p) implies p.len() <= max_nesting(events) + 1 by {
        lemma_path_depth(b.nodes, d, p, p.len() - 1);
        assert(0 <= p[p.len() - 1] < b.nodes.len());
    }
}

} // verus!
