//! What holds of the parser and the renderer together: the shape of every
//! parsed path, and what reading a rendered path gives.

use vstd::prelude::*;
use crate::errors::ParseError;
use crate::node::{
    render_node, render_path, render_predicate, render_predicates, NodeView, OperatorView,
    PredicateView, ValueView,
};
use crate::parser::{
    buffered, identifier_part, identifier_start, initial, name_step, open_attribute, parse_spec,
    plain, run, step, with_value, MachineView, ParseState,
};
use crate::text::join;

verus! {

/// Reading one character is one step.
pub proof fn lemma_run_one(st: MachineView, c: char)
    ensures
        run(st, seq![c]) == step(st, c),
{
    let one = seq![c];
    assert(one.drop_last() =~= Seq::<char>::empty());
    assert(run(st, one.drop_last()) == Ok::<MachineView, ParseError>(st));
}

/// Reading `head + tail` is reading `head` and then, from where that ends, `tail`.
pub proof fn lemma_run_concat(st: MachineView, head: Seq<char>, tail: Seq<char>)
    ensures
        run(st, head + tail) == match run(st, head) {
            Ok(mid) => run(mid, tail),
            Err(e) => Err(e),
        },
    decreases tail.len(),
{
    if tail.len() == 0 {
        assert(head + tail =~= head);
    } else {
        assert((head + tail).drop_last() =~= head + tail.drop_last());
        assert((head + tail).last() == tail.last());
        lemma_run_concat(st, head, tail.drop_last());
    }
}

/// Between segments a separator that is written twice reads as one: where
/// `head` ends while a segment name is read, `head//tail` and `head/tail` parse
/// alike.
pub proof fn lemma_repeated_separator(head: Seq<char>, tail: Seq<char>)
    requires
        run(initial(), head) is Ok ==> run(initial(), head).unwrap().mode == ParseState::Node,
    ensures
        parse_spec(head.push('/').push('/') + tail) == parse_spec(head.push('/') + tail),
{
    let once = head.push('/');
    let twice = once.push('/');
    assert(once.drop_last() =~= head);
    assert(twice.drop_last() =~= once);
    lemma_run_concat(initial(), once, tail);
    lemma_run_concat(initial(), twice, tail);
}

/// No input that is read stops with the error for an empty path.
proof fn lemma_run_never_empty_path(st: MachineView, input: Seq<char>)
    ensures
        run(st, input) != Err::<MachineView, ParseError>(ParseError::EmptyPathError),
    decreases input.len(),
{
    if input.len() > 0 {
        lemma_run_never_empty_path(st, input.drop_last());
    }
}

/// No input is rejected as an empty path: the empty path is a path.
pub proof fn lemma_never_empty_path(input: Seq<char>)
    ensures
        parse_spec(input) != Err::<Seq<NodeView>, ParseError>(ParseError::EmptyPathError),
{
    lemma_run_never_empty_path(initial(), input);
}

/// A separator before the input changes nothing.
pub proof fn lemma_leading_separator(input: Seq<char>)
    ensures
        parse_spec(seq!['/'] + input) == parse_spec(input),
{
    lemma_run_one(initial(), '/');
    lemma_run_concat(initial(), seq!['/'], input);
}

/// No character of `s` ends a name inside a filter or a value: none is `=`, `]` or `,`.
pub open spec fn free_of_delimiters(s: Seq<char>) -> bool {
    forall|i: int| 0 <= i < s.len() ==> s[i] != '=' && s[i] != ']' && s[i] != ','
}

/// `s` follows the identifier grammar as far as it goes: a start character,
/// then continuing characters. The empty text does.
pub open spec fn identifier_prefix(s: Seq<char>) -> bool {
    &&& s.len() > 0 ==> identifier_start(s[0])
    &&& forall|i: int| 1 <= i < s.len() ==> identifier_part(s[i])
}

/// The name of a parsed segment: an identifier without `/` and `[`.
pub open spec fn segment_name(s: Seq<char>) -> bool {
    &&& s.len() > 0
    &&& identifier_prefix(s)
    &&& forall|i: int| 0 <= i < s.len() ==> s[i] != '/' && s[i] != '['
}

/// The name of the first attribute of a parsed segment: empty or an identifier,
/// without `=`, `]` and `,`.
pub open spec fn first_name(s: Seq<char>) -> bool {
    identifier_prefix(s) && free_of_delimiters(s)
}

/// The name of a later attribute of a parsed segment: any text without `=`.
pub open spec fn later_name(s: Seq<char>) -> bool {
    forall|i: int| 0 <= i < s.len() ==> s[i] != '='
}

/// The name of the attribute at place `i` of a parsed segment.
pub open spec fn attribute_name(s: Seq<char>, i: int) -> bool {
    if i == 0 {
        first_name(s)
    } else {
        later_name(s)
    }
}

/// The value of an attribute of a parsed segment: a text that is not empty,
/// without `=`, `]` and `,`.
pub open spec fn value_text(s: Seq<char>) -> bool {
    s.len() > 0 && free_of_delimiters(s)
}

/// The filter at place `i` of a parsed segment: an attribute with `=`, a name
/// for that place and a text value.
pub open spec fn parsed_predicate(p: PredicateView, i: int) -> bool {
    match p {
        PredicateView::Attribute(a) => {
            &&& attribute_name(a.name, i)
            &&& a.op == OperatorView::Equal(seq!['='])
            &&& match a.value {
                Some(ValueView::Text(t)) => value_text(t),
                _ => false,
            }
        },
        PredicateView::Function(_) => false,
    }
}

/// A segment as the parser makes it.
pub open spec fn parsed_node(n: NodeView) -> bool {
    &&& segment_name(n.name)
    &&& forall|i: int| 0 <= i < n.predicates.len() ==> parsed_predicate(#[trigger] n.predicates[i], i)
}

/// A path as the parser makes it.
pub open spec fn parsed_path(nodes: Seq<NodeView>) -> bool {
    forall|i: int| 0 <= i < nodes.len() ==> parsed_node(#[trigger] nodes[i])
}

/// The pending segment while a value is read: its last filter is an attribute
/// that waits for its value, the others are complete.
pub open spec fn awaiting_value(n: NodeView) -> bool {
    &&& segment_name(n.name)
    &&& n.predicates.len() > 0
    &&& forall|i: int| 0 <= i < n.predicates.len() - 1 ==> parsed_predicate(#[trigger] n.predicates[i], i)
    &&& match n.predicates.last() {
        PredicateView::Attribute(a) => {
            &&& attribute_name(a.name, n.predicates.len() - 1)
            &&& a.op == OperatorView::Equal(seq!['='])
            &&& a.value is None
        },
        PredicateView::Function(_) => false,
    }
}

/// What holds of the parser after any input that it has accepted so far.
pub open spec fn consistent(st: MachineView) -> bool {
    &&& parsed_path(st.path)
    &&& match st.mode {
        ParseState::Node => {
            &&& st.buffer.len() > 0 ==> segment_name(st.buffer)
            &&& match st.pending {
                Some(n) => parsed_node(n) && n.predicates.len() > 0,
                None => true,
            }
        },
        ParseState::Predicate => {
            &&& first_name(st.buffer)
            &&& match st.pending {
                Some(n) => parsed_node(n),
                None => true,
            }
        },
        ParseState::Attribute => {
            &&& later_name(st.buffer)
            &&& match st.pending {
                Some(n) => parsed_node(n) && n.predicates.len() > 0,
                None => true,
            }
        },
        ParseState::Value => {
            &&& free_of_delimiters(st.buffer)
            &&& match st.pending {
                Some(n) => awaiting_value(n),
                None => true,
            }
        },
    }
}

/// A step keeps the parser consistent.
pub proof fn lemma_step_consistent(st: MachineView, c: char)
    requires
        consistent(st),
        step(st, c) is Ok,
    ensures
        consistent(step(st, c).unwrap()),
{
    let next = step(st, c).unwrap();
    match st.mode {
        ParseState::Node => {
            if c == '/' {
                if st.buffer.len() > 0 && st.pending is None {
                    assert(parsed_node(plain(st.buffer)));
                }
            } else if c == '[' {
                if st.pending is None && st.buffer.len() > 0 {
                    assert(parsed_node(plain(st.buffer)));
                }
            } else {
            }
        },
        ParseState::Predicate => {
            if c == '=' {
                lemma_name_step_consistent(st);
            }
        },
        ParseState::Attribute => {
            if c == '=' {
                lemma_name_step_consistent(st);
            }
        },
        ParseState::Value => {
            if c == ']' || c == ',' {
                match st.pending {
                    Some(n) => {
                        let m = with_value(st.pending, st.buffer).unwrap();
                        assert forall|i: int| 0 <= i < m.predicates.len() implies parsed_predicate(
                            #[trigger] m.predicates[i],
                            i,
                        ) by {
                            if i < n.predicates.len() - 1 {
                                assert(m.predicates[i] == n.predicates[i]);
                            }
                        }
                    },
                    None => {},
                }
            }
        },
    }
}

/// Opening an attribute keeps the parser consistent.
proof fn lemma_name_step_consistent(st: MachineView)
    requires
        consistent(st),
        st.mode == ParseState::Predicate || st.mode == ParseState::Attribute,
    ensures
        consistent(name_step(st)),
{
    match st.pending {
        Some(n) => {
            let m = name_step(st).pending.unwrap();
            assert(m.predicates.last() == open_attribute(st.buffer));
            assert forall|i: int| 0 <= i < m.predicates.len() - 1 implies parsed_predicate(
                #[trigger] m.predicates[i],
                i,
            ) by {
                assert(m.predicates[i] == n.predicates[i]);
            }
        },
        None => {},
    }
}

/// Accepted input leaves the parser consistent.
pub proof fn lemma_run_consistent(st: MachineView, input: Seq<char>)
    requires
        consistent(st),
        run(st, input) is Ok,
    ensures
        consistent(run(st, input).unwrap()),
    decreases input.len(),
{
    if input.len() > 0 {
        lemma_run_consistent(st, input.drop_last());
        lemma_step_consistent(run(st, input.drop_last()).unwrap(), input.last());
    }
}

/// Every segment of a path that the parser returns has an identifier as its
/// name, and each of its filters is an attribute with `=` and a text value.
pub proof fn lemma_parse_well_formed(input: Seq<char>)
    requires
        parse_spec(input) is Ok,
    ensures
        parsed_path(parse_spec(input).unwrap()),
{
    lemma_run_consistent(initial(), input);
    let st = run(initial(), input).unwrap();
    if st.buffer.len() > 0 {
        assert(parsed_node(plain(st.buffer)));
    }
}

/// `st` with `text` in the buffer.
pub open spec fn holding(st: MachineView, text: Seq<char>) -> MachineView {
    MachineView { buffer: text, ..st }
}

/// Whether the parser, reading in `mode` from an empty buffer, takes all of
/// `text` into the buffer.
pub open spec fn readable(mode: ParseState, text: Seq<char>) -> bool {
    match mode {
        ParseState::Node => text.len() == 0 || segment_name(text),
        ParseState::Predicate => first_name(text),
        ParseState::Attribute => later_name(text),
        ParseState::Value => free_of_delimiters(text),
    }
}

/// Reading `c` after `head` is one more step.
proof fn lemma_run_push(st: MachineView, head: Seq<char>, c: char)
    requires
        run(st, head) is Ok,
    ensures
        run(st, head.push(c)) == step(run(st, head).unwrap(), c),
{
    assert(head.push(c).drop_last() =~= head);
}

/// Reading `tail` after `head` goes on from where `head` ended.
proof fn lemma_run_then(st: MachineView, head: Seq<char>, tail: Seq<char>)
    requires
        run(st, head) is Ok,
    ensures
        run(st, head + tail) == run(run(st, head).unwrap(), tail),
{
    lemma_run_concat(st, head, tail);
}

/// The first `k` characters of a readable text are read into the buffer.
proof fn lemma_read_prefix(st: MachineView, text: Seq<char>, k: int)
    requires
        st.buffer.len() == 0,
        readable(st.mode, text),
        0 <= k <= text.len(),
    ensures
        run(st, text.take(k)) == Ok::<MachineView, ParseError>(holding(st, text.take(k))),
    decreases k,
{
    if k == 0 {
        assert(text.take(0) =~= Seq::<char>::empty());
        assert(st.buffer =~= Seq::<char>::empty());
        assert(holding(st, text.take(0)) == st);
    } else {
        lemma_read_prefix(st, text, k - 1);
        let before = holding(st, text.take(k - 1));
        let c = text[k - 1];
        assert(text.take(k).drop_last() =~= text.take(k - 1));
        assert(text.take(k).last() == c);
        assert(text.take(k - 1).push(c) =~= text.take(k));
        assert(buffered(before, c) == holding(st, text.take(k)));
        assert(step(before, c) == Ok::<MachineView, ParseError>(buffered(before, c)));
    }
}

/// A readable text is read into the buffer.
proof fn lemma_read_text(st: MachineView, text: Seq<char>)
    requires
        st.buffer.len() == 0,
        readable(st.mode, text),
    ensures
        run(st, text) == Ok::<MachineView, ParseError>(holding(st, text)),
{
    lemma_read_prefix(st, text, text.len() as int);
    assert(text.take(text.len() as int) =~= text);
}

/// The name of an attribute; of a function, its name.
pub open spec fn name_of(p: PredicateView) -> Seq<char> {
    match p {
        PredicateView::Attribute(a) => a.name,
        PredicateView::Function(f) => f.name,
    }
}

/// The text value of an attribute; empty where there is none.
pub open spec fn text_of(p: PredicateView) -> Seq<char> {
    match p {
        PredicateView::Attribute(a) => match a.value {
            Some(ValueView::Text(t)) => t,
            _ => Seq::empty(),
        },
        PredicateView::Function(_) => Seq::empty(),
    }
}

/// The parser between two segments, with `nodes` complete and nothing begun.
pub open spec fn fresh(nodes: Seq<NodeView>) -> MachineView {
    MachineView { path: nodes, pending: None, mode: ParseState::Node, buffer: Seq::empty() }
}

/// The parser after the text of `nodes`: the last segment is still in the
/// buffer, or pending if it has filters.
pub open spec fn resting(nodes: Seq<NodeView>) -> MachineView {
    if nodes.len() == 0 {
        initial()
    } else if nodes.last().predicates.len() == 0 {
        holding(fresh(nodes.drop_last()), nodes.last().name)
    } else {
        MachineView { pending: Some(nodes.last()), ..fresh(nodes.drop_last()) }
    }
}

/// The parser after `[` behind the name of a new segment.
pub open spec fn opened(nodes: Seq<NodeView>, name: Seq<char>) -> MachineView {
    MachineView {
        path: nodes,
        pending: Some(plain(name)),
        mode: ParseState::Predicate,
        buffer: Seq::empty(),
    }
}

/// The parser inside the filters of `n`, after the value of the `k`-th.
pub open spec fn reading(nodes: Seq<NodeView>, n: NodeView, k: int) -> MachineView {
    MachineView {
        path: nodes,
        pending: Some(
            NodeView {
                name: n.name,
                predicates: n.predicates.take(k - 1).push(open_attribute(name_of(n.predicates[k - 1]))),
            },
        ),
        mode: ParseState::Value,
        buffer: text_of(n.predicates[k - 1]),
    }
}

/// The text of the first `k` filters is the text of those before the last, a
/// comma, and the last one's name, `=` and value.
proof fn lemma_render_predicates_take(n: NodeView, k: int)
    requires
        parsed_node(n),
        1 <= k <= n.predicates.len(),
    ensures
        render_predicate(n.predicates[k - 1]) == name_of(n.predicates[k - 1]).push('=') + text_of(
            n.predicates[k - 1],
        ),
        k == 1 ==> render_predicates(n.predicates.take(k)) == render_predicate(n.predicates[k - 1]),
        k > 1 ==> render_predicates(n.predicates.take(k)) == render_predicates(
            n.predicates.take(k - 1),
        ).push(',') + render_predicate(n.predicates[k - 1]),
{
    let ps = n.predicates;
    let last = ps[k - 1];
    assert(parsed_predicate(last, k - 1));
    assert(render_predicate(last) =~= name_of(last).push('=') + text_of(last));
    let parts = ps.take(k).map_values(|p: PredicateView| render_predicate(p));
    assert(parts.last() == render_predicate(last));
    if k > 1 {
        let shorter = ps.take(k - 1).map_values(|p: PredicateView| render_predicate(p));
        assert(parts.drop_last() =~= shorter);
        assert(join(parts, seq![',']) == join(parts.drop_last(), seq![',']) + seq![','] + parts.last());
        assert(join(shorter, seq![',']) + seq![','] =~= join(shorter, seq![',']).push(','));
    } else {
        assert(parts[0] == render_predicate(last));
    }
}

/// From the name and `=`, a filter's name and value are read into a new
/// attribute that waits for its value.
proof fn lemma_read_attribute(st: MachineView, n: NodeView, k: int, head: Seq<char>)
    requires
        parsed_node(n),
        1 <= k <= n.predicates.len(),
        run(st, head) == Ok::<MachineView, ParseError>(
            MachineView {
                path: st.path,
                pending: Some(NodeView { name: n.name, predicates: n.predicates.take(k - 1) }),
                mode: if k == 1 {
                    ParseState::Predicate
                } else {
                    ParseState::Attribute
                },
                buffer: Seq::empty(),
            },
        ),
    ensures
        run(st, head + render_predicate(n.predicates[k - 1])) == Ok::<MachineView, ParseError>(
            reading(st.path, n, k),
        ),
{
    let p = n.predicates[k - 1];
    let name = name_of(p);
    let text = text_of(p);
    assert(parsed_predicate(p, k - 1));
    lemma_render_predicates_take(n, k);
    let s0 = run(st, head).unwrap();
    lemma_read_text(s0, name);
    lemma_run_then(st, head, name);
    let s1 = holding(s0, name);
    lemma_run_push(st, head + name, '=');
    let s2 = name_step(s1);
    assert(step(s1, '=') == Ok::<MachineView, ParseError>(s2));
    lemma_read_text(s2, text);
    lemma_run_then(st, (head + name).push('='), text);
    assert((head + name).push('=') + text =~= head + (name.push('=') + text));
    assert(holding(s2, text) == reading(st.path, n, k));
}

/// From `[` on, the text of the first `k` filters of a parsed segment is read
/// up to the value of the `k`-th.
proof fn lemma_read_predicates(nodes: Seq<NodeView>, n: NodeView, k: int)
    requires
        parsed_node(n),
        1 <= k <= n.predicates.len(),
    ensures
        run(opened(nodes, n.name), render_predicates(n.predicates.take(k))) == Ok::<
            MachineView,
            ParseError,
        >(reading(nodes, n, k)),
    decreases k,
{
    let start = opened(nodes, n.name);
    let ps = n.predicates;
    lemma_render_predicates_take(n, k);
    if k == 1 {
        let head = Seq::<char>::empty();
        assert(ps.take(0) =~= Seq::<PredicateView>::empty());
        assert(run(start, head) == Ok::<MachineView, ParseError>(start));
        lemma_read_attribute(start, n, 1, head);
        assert(head + render_predicate(ps[0]) =~= render_predicate(ps[0]));
    } else {
        lemma_read_predicates(nodes, n, k - 1);
        let head = render_predicates(ps.take(k - 1));
        let before = reading(nodes, n, k - 1);
        let closed = ps[k - 2];
        assert(parsed_predicate(closed, k - 2));
        let filled = with_value(before.pending, before.buffer).unwrap();
        assert(filled.predicates =~= ps.take(k - 1)) by {
            assert(ps.take(k - 2).push(open_attribute(name_of(closed))).last() == open_attribute(
                name_of(closed),
            ));
        }
        lemma_run_push(start, head, ',');
        lemma_read_attribute(start, n, k, head.push(','));
    }
}

/// After the text of complete segments, the text of one more parsed segment
/// is read to where that segment rests.
proof fn lemma_read_node(nodes: Seq<NodeView>, n: NodeView)
    requires
        parsed_path(nodes),
        parsed_node(n),
    ensures
        run(resting(nodes), render_node(n)) == Ok::<MachineView, ParseError>(resting(nodes.push(n))),
{
    let start = resting(nodes);
    let all = nodes.push(n);
    assert(all.drop_last() =~= nodes);
    assert(all.last() == n);
    assert(step(start, '/') == Ok::<MachineView, ParseError>(fresh(nodes))) by {
        if nodes.len() > 0 {
            let last = nodes.last();
            assert(parsed_node(last));
            assert(nodes.drop_last().push(last) =~= nodes);
            if last.predicates.len() == 0 {
                assert(plain(last.name) == last) by {
                    assert(last.predicates =~= Seq::<PredicateView>::empty());
                }
            }
        } else {
            assert(nodes =~= Seq::<NodeView>::empty());
        }
    }
    lemma_run_one(start, '/');
    let slash = seq!['/'];
    lemma_read_text(fresh(nodes), n.name);
    lemma_run_then(start, slash, n.name);
    let named = holding(fresh(nodes), n.name);
    let count = n.predicates.len() as int;
    if count == 0 {
        assert(render_node(n) =~= slash + n.name);
    } else {
        lemma_run_push(start, slash + n.name, '[');
        assert(step(named, '[') == Ok::<MachineView, ParseError>(opened(nodes, n.name)));
        let head = (slash + n.name).push('[');
        lemma_read_predicates(nodes, n, count);
        assert(n.predicates.take(count) =~= n.predicates);
        let body = render_predicates(n.predicates);
        lemma_run_then(start, head, body);
        let inside = reading(nodes, n, count);
        let closed = n.predicates[count - 1];
        assert(parsed_predicate(closed, count - 1));
        let filled = with_value(inside.pending, inside.buffer).unwrap();
        assert(filled.predicates =~= n.predicates) by {
            assert(n.predicates.take(count - 1).push(open_attribute(name_of(closed))).last()
                == open_attribute(name_of(closed)));
        }
        assert(filled == n);
        lemma_run_push(start, head + body, ']');
        assert(step(inside, ']') == Ok::<MachineView, ParseError>(resting(all)));
        assert(render_node(n) =~= (head + body).push(']'));
    }
}

/// The text of a path with one more segment is the text of the path, then
/// that of the segment.
pub proof fn lemma_render_path_push(nodes: Seq<NodeView>, n: NodeView)
    ensures
        render_path(nodes.push(n)) == render_path(nodes) + render_node(n),
    decreases nodes.len(),
{
    let all = nodes.push(n);
    if nodes.len() == 0 {
        assert(all.drop_first() =~= Seq::<NodeView>::empty());
        assert(render_path(all.drop_first()) =~= Seq::<char>::empty());
        assert(render_path(nodes) =~= Seq::<char>::empty());
        assert(render_path(all) =~= render_node(n));
        assert(render_path(nodes) + render_node(n) =~= render_node(n));
    } else {
        assert(all.drop_first() =~= nodes.drop_first().push(n));
        lemma_render_path_push(nodes.drop_first(), n);
        assert(render_path(all) =~= render_path(nodes) + render_node(n));
    }
}

/// The text of a parsed path is read to where its last segment rests.
proof fn lemma_read_path(nodes: Seq<NodeView>)
    requires
        parsed_path(nodes),
    ensures
        run(initial(), render_path(nodes)) == Ok::<MachineView, ParseError>(resting(nodes)),
    decreases nodes.len(),
{
    if nodes.len() > 0 {
        let before = nodes.drop_last();
        let n = nodes.last();
        assert(before.push(n) =~= nodes);
        assert(parsed_path(before)) by {
            assert forall|i: int| 0 <= i < before.len() implies parsed_node(#[trigger] before[i]) by {
                assert(before[i] == nodes[i]);
            }
        }
        lemma_read_path(before);
        lemma_read_node(before, n);
        lemma_render_path_push(before, n);
        lemma_run_then(initial(), render_path(before), render_node(n));
    }
}

/// What reading the text of a parsed path gives: the path itself, or, where
/// its last segment has filters, the path without that segment, which stays
/// pending when the input ends.
pub open spec fn reread(nodes: Seq<NodeView>) -> Seq<NodeView> {
    if nodes.len() > 0 && nodes.last().predicates.len() > 0 {
        nodes.drop_last()
    } else {
        nodes
    }
}

/// The text of a parsed path is accepted, and parsing it gives the path
/// again, but for a last segment with filters, which is left out.
pub proof fn lemma_reparse(input: Seq<char>)
    requires
        parse_spec(input) is Ok,
    ensures
        parse_spec(render_path(parse_spec(input).unwrap())) == Ok::<Seq<NodeView>, ParseError>(
            reread(parse_spec(input).unwrap()),
        ),
{
    let nodes = parse_spec(input).unwrap();
    lemma_parse_well_formed(input);
    lemma_read_path(nodes);
    if nodes.len() > 0 {
        let last = nodes.last();
        assert(parsed_node(last));
        if last.predicates.len() == 0 {
            assert(plain(last.name) == last) by {
                assert(last.predicates =~= Seq::<PredicateView>::empty());
            }
            assert(nodes.drop_last().push(last) =~= nodes);
        }
    } else {
        assert(nodes =~= Seq::<NodeView>::empty());
    }
}

/// Parsing, rendering and parsing again gives the same path, and so the same
/// text, whenever the path does not end in a segment with filters.
pub proof fn lemma_round_trip(input: Seq<char>)
    requires
        parse_spec(input) is Ok,
        reread(parse_spec(input).unwrap()) == parse_spec(input).unwrap(),
    ensures
        parse_spec(render_path(parse_spec(input).unwrap())) == parse_spec(input),
        render_path(parse_spec(render_path(parse_spec(input).unwrap())).unwrap()) == render_path(
            parse_spec(input).unwrap(),
        ),
{
    lemma_reparse(input);
}

} // verus!
