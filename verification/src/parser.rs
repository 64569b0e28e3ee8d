//! The parser: a state machine that reads a path expression one character at
//! a time.

use vstd::prelude::*;
use crate::errors::ParseError;
use crate::laws::{lemma_parse_well_formed, parsed_path};
use crate::node::{
    Attribute, AttributeValue, AttributeView, Node, NodeView, Operator, OperatorView, Predicate,
    PredicateView, ValueView,
};
use crate::text::{alphabetic, alphanumeric, push_char};
use crate::xpath::XPath;

verus! {

/// What the parser is reading.
#[derive(Debug, Clone, Copy, PartialEq, Eq, Structural)]
pub enum ParseState {
    /// A segment name, or the separator before one.
    Node,
    /// The name of the first attribute after `[`.
    Predicate,
    /// The name of an attribute after `,`.
    Attribute,
    /// The value of an attribute after `=`.
    Value,
}

/// The parser between two characters.
pub struct MachineView {
    /// The segments that are complete.
    pub path: Seq<NodeView>,
    /// A segment with filters that is not in the path yet.
    pub pending: Option<NodeView>,
    /// What is being read.
    pub mode: ParseState,
    /// The characters of the name or value that is being read.
    pub buffer: Seq<char>,
}

/// A character that may start an identifier: a letter or `_`.
pub open spec fn identifier_start(c: char) -> bool {
    alphabetic(c) || c == '_'
}

/// A character that may continue an identifier: a letter, a digit, `-`, `.` or `_`.
pub open spec fn identifier_part(c: char) -> bool {
    alphanumeric(c) || c == '-' || c == '.' || c == '_'
}

/// A segment with the given name and no filters.
pub open spec fn plain(name: Seq<char>) -> NodeView {
    NodeView { name, predicates: Seq::empty() }
}

/// An attribute with the given name that waits for its value.
pub open spec fn open_attribute(name: Seq<char>) -> PredicateView {
    PredicateView::Attribute(
        AttributeView { name, op: OperatorView::Equal(seq!['=']), value: None },
    )
}

/// The parser before the first character.
pub open spec fn initial() -> MachineView {
    MachineView { path: Seq::empty(), pending: None, mode: ParseState::Node, buffer: Seq::empty() }
}

/// `st` with `c` added to the buffer.
pub open spec fn buffered(st: MachineView, c: char) -> MachineView {
    MachineView { buffer: st.buffer.push(c), ..st }
}

/// `c` as the next character of an identifier: added to the buffer if the
/// identifier grammar allows it there, a syntax error if not.
pub open spec fn identifier_step(st: MachineView, c: char) -> Result<MachineView, ParseError> {
    if st.buffer.len() == 0 && identifier_start(c) || st.buffer.len() > 0 && identifier_part(c) {
        Ok(buffered(st, c))
    } else {
        Err(ParseError::SyntaxError)
    }
}

/// `=` after an attribute's name: the pending segment, if there is one, gets an
/// attribute named by the buffer, and the value follows.
pub open spec fn name_step(st: MachineView) -> MachineView {
    MachineView {
        path: st.path,
        pending: match st.pending {
            Some(n) => Some(
                NodeView { name: n.name, predicates: n.predicates.push(open_attribute(st.buffer)) },
            ),
            None => None,
        },
        mode: ParseState::Value,
        buffer: Seq::empty(),
    }
}

/// The pending segment with `text` as the value of its last filter, if that is
/// an attribute; unchanged if not.
pub open spec fn with_value(pending: Option<NodeView>, text: Seq<char>) -> Option<NodeView> {
    match pending {
        Some(n) => if n.predicates.len() > 0 {
            match n.predicates.last() {
                PredicateView::Attribute(a) => Some(
                    NodeView {
                        name: n.name,
                        predicates: n.predicates.update(
                            n.predicates.len() - 1,
                            PredicateView::Attribute(
                                AttributeView {
                                    name: a.name,
                                    op: a.op,
                                    value: Some(ValueView::Text(text)),
                                },
                            ),
                        ),
                    },
                ),
                PredicateView::Function(_) => Some(n),
            }
        } else {
            Some(n)
        },
        None => None,
    }
}

/// One character while a segment name is read.
pub open spec fn node_step(st: MachineView, c: char) -> Result<MachineView, ParseError> {
    if c == '/' {
        if st.buffer.len() == 0 {
            match st.pending {
                Some(n) => Ok(MachineView { path: st.path.push(n), pending: None, ..st }),
                None => Ok(st),
            }
        } else {
            match st.pending {
                Some(_) => Ok(st),
                None => Ok(
                    MachineView {
                        path: st.path.push(plain(st.buffer)),
                        buffer: Seq::empty(),
                        ..st
                    },
                ),
            }
        }
    } else if c == '[' {
        Ok(
            MachineView {
                path: st.path,
                pending: if st.pending is None && st.buffer.len() > 0 {
                    Some(plain(st.buffer))
                } else {
                    st.pending
                },
                mode: ParseState::Predicate,
                buffer: Seq::empty(),
            },
        )
    } else {
        identifier_step(st, c)
    }
}

/// One character while the name of the first attribute is read.
pub open spec fn predicate_step(st: MachineView, c: char) -> Result<MachineView, ParseError> {
    if c == '=' {
        Ok(name_step(st))
    } else if c == ']' || c == ',' {
        Err(ParseError::EmptyAttributeError)
    } else {
        identifier_step(st, c)
    }
}

/// One character while the name of a later attribute is read.
pub open spec fn attribute_step(st: MachineView, c: char) -> Result<MachineView, ParseError> {
    if c == '=' {
        Ok(name_step(st))
    } else {
        Ok(buffered(st, c))
    }
}

/// One character while a value is read.
pub open spec fn value_step(st: MachineView, c: char) -> Result<MachineView, ParseError> {
    if c == '=' {
        Err(ParseError::SyntaxError)
    } else if c == ']' || c == ',' {
        if st.buffer.len() == 0 {
            Err(ParseError::EmptyAttributeError)
        } else {
            Ok(
                MachineView {
                    path: st.path,
                    pending: with_value(st.pending, st.buffer),
                    mode: if c == ']' {
                        ParseState::Node
                    } else {
                        ParseState::Attribute
                    },
                    buffer: Seq::empty(),
                },
            )
        }
    } else {
        Ok(buffered(st, c))
    }
}

/// The parser after `c`, or the error that `c` causes.
pub open spec fn step(st: MachineView, c: char) -> Result<MachineView, ParseError> {
    match st.mode {
        ParseState::Node => node_step(st, c),
        ParseState::Predicate => predicate_step(st, c),
        ParseState::Attribute => attribute_step(st, c),
        ParseState::Value => value_step(st, c),
    }
}

/// The parser after the characters of `input`, read from `st` on, or the first error.
pub open spec fn run(st: MachineView, input: Seq<char>) -> Result<MachineView, ParseError>
    decreases input.len(),
{
    if input.len() == 0 {
        Ok(st)
    } else {
        match run(st, input.drop_last()) {
            Ok(before) => step(before, input.last()),
            Err(e) => Err(e),
        }
    }
}

/// What the parser returns when the input ends in `st`: a name in the buffer
/// becomes the last segment; a buffer left inside a filter is an error. A pending
/// segment is not added.
pub open spec fn finish(st: MachineView) -> Result<Seq<NodeView>, ParseError> {
    if st.buffer.len() == 0 {
        Ok(st.path)
    } else if st.mode == ParseState::Node {
        Ok(st.path.push(plain(st.buffer)))
    } else {
        Err(ParseError::StateError)
    }
}

/// The segments that `input` denotes, or why it is rejected.
pub open spec fn parse_spec(input: Seq<char>) -> Result<Seq<NodeView>, ParseError> {
    match run(initial(), input) {
        Ok(st) => finish(st),
        Err(e) => Err(e),
    }
}

/// An error, once met, is the result for every longer input.
pub proof fn lemma_run_error_stays(st: MachineView, input: Seq<char>, k: int)
    requires
        0 <= k <= input.len(),
        run(st, input.take(k)) is Err,
    ensures
        run(st, input) == run(st, input.take(k)),
    decreases input.len(),
{
    if k < input.len() {
        assert(input.drop_last().take(k) =~= input.take(k));
        lemma_run_error_stays(st, input.drop_last(), k);
    } else {
        assert(input.take(k) =~= input);
    }
}

/// The parser as a value: it takes the characters one by one and gives the path
/// at the end.
#[derive(Debug)]
pub struct Parser {
    path: XPath,
    pending: Option<Node>,
    mode: ParseState,
    buffer: String,
}

impl View for Parser {
    type V = MachineView;

    closed spec fn view(&self) -> MachineView {
        MachineView {
            path: self.path@,
            pending: match self.pending {
                Some(node) => Some(node@),
                None => None,
            },
            mode: self.mode,
            buffer: self.buffer@,
        }
    }
}

impl Parser {
    /// The pending segment, if there is one, has no segment after it.
    pub closed spec fn wf(&self) -> bool {
        match self.pending {
            Some(node) => node.next is None,
            None => true,
        }
    }

    /// The parser before the first character.
    pub fn new() -> (parser: Parser)
        ensures
            parser.wf(),
            parser@ == initial(),
    {
        Parser { path: XPath::new(), pending: None, mode: ParseState::Node, buffer: String::new() }
    }

    /// What the parser is reading.
    pub fn mode(&self) -> (mode: ParseState)
        ensures
            mode == self@.mode,
    {
        self.mode
    }

    fn identifier(&mut self, c: char) -> (r: Result<(), ParseError>)
        requires
            old(self).wf(),
        ensures
            final(self).wf(),
            match identifier_step(old(self)@, c) {
                Ok(next) => r is Ok && final(self)@ == next,
                Err(e) => r == Err::<(), ParseError>(e) && final(self)@ == old(self)@,
            },
    {
        let allowed = if self.buffer.as_str().is_empty() {
            c.is_alphabetic() || c == '_'
        } else {
            c.is_alphanumeric() || c == '-' || c == '.' || c == '_'
        };
        if allowed {
            push_char(&mut self.buffer, c);
            Ok(())
        } else {
            Err(ParseError::SyntaxError)
        }
    }

    fn name(&mut self)
        requires
            old(self).wf(),
        ensures
            final(self).wf(),
            final(self)@ == name_step(old(self)@),
    {
        match self.pending.take() {
            Some(mut node) => {
                let attribute = Attribute {
                    name: self.buffer.clone(),
                    op: Operator::Equal("="),
                    value: None,
                };
                proof {
                    reveal_strlit("=");
                    assert("="@ =~= seq!['=']);
                }
                node.add_predicate(Predicate::Attribute(attribute));
                self.pending = Some(node);
            },
            None => {},
        }
        self.mode = ParseState::Value;
        self.buffer = String::new();
    }

    fn value(&mut self, next: ParseState)
        requires
            old(self).wf(),
        ensures
            final(self).wf(),
            final(self)@ == (MachineView {
                path: old(self)@.path,
                pending: with_value(old(self)@.pending, old(self)@.buffer),
                mode: next,
                buffer: Seq::empty(),
            }),
    {
        match self.pending.take() {
            Some(mut node) => {
                let ghost before = node@;
                match node.predicates.pop() {
                    Some(Predicate::Attribute(mut attribute)) => {
                        let ghost open = attribute@;
                        attribute.value = Some(AttributeValue::Text(self.buffer.clone()));
                        node.predicates.push(Predicate::Attribute(attribute));
                        assert(before.predicates.last() == PredicateView::Attribute(open));
                        assert(node@.predicates =~= before.predicates.update(
                            before.predicates.len() - 1,
                            PredicateView::Attribute(
                                AttributeView {
                                    name: open.name,
                                    op: open.op,
                                    value: Some(ValueView::Text(self.buffer@)),
                                },
                            ),
                        ));
                    },
                    Some(other) => {
                        node.predicates.push(other);
                        assert(node@.predicates =~= before.predicates);
                    },
                    None => {
                        assert(node@.predicates =~= before.predicates);
                    },
                }
                self.pending = Some(node);
            },
            None => {},
        }
        self.mode = next;
        self.buffer = String::new();
    }

    /// Takes one character: the parser moves on to the state that `step` gives,
    /// or stays as it was and reports the error.
    pub fn step(&mut self, c: char) -> (r: Result<(), ParseError>)
        requires
            old(self).wf(),
        ensures
            final(self).wf(),
            match step(old(self)@, c) {
                Ok(next) => r is Ok && final(self)@ == next,
                Err(e) => r == Err::<(), ParseError>(e) && final(self)@ == old(self)@,
            },
    {
        match self.mode {
            ParseState::Node => {
                if c == '/' {
                    if self.buffer.as_str().is_empty() {
                        match self.pending.take() {
                            Some(node) => {
                                self.path.append_node(node);
                                assert(self.path@ =~= old(self).path@.push(node@));
                            },
                            None => {},
                        }
                    } else if self.pending.is_none() {
                        let node = Node::new(self.buffer.clone());
                        self.path.append_node(node);
                        assert(self.path@ =~= old(self).path@.push(plain(old(self).buffer@)));
                        self.buffer = String::new();
                    }
                    Ok(())
                } else if c == '[' {
                    if self.pending.is_none() && !self.buffer.as_str().is_empty() {
                        self.pending = Some(Node::new(self.buffer.clone()));
                    }
                    self.mode = ParseState::Predicate;
                    self.buffer = String::new();
                    Ok(())
                } else {
                    self.identifier(c)
                }
            },
            ParseState::Predicate => {
                if c == '=' {
                    self.name();
                    Ok(())
                } else if c == ']' || c == ',' {
                    Err(ParseError::EmptyAttributeError)
                } else {
                    self.identifier(c)
                }
            },
            ParseState::Attribute => {
                if c == '=' {
                    self.name();
                } else {
                    push_char(&mut self.buffer, c);
                }
                Ok(())
            },
            ParseState::Value => {
                if c == '=' {
                    Err(ParseError::SyntaxError)
                } else if c == ']' || c == ',' {
                    if self.buffer.as_str().is_empty() {
                        Err(ParseError::EmptyAttributeError)
                    } else {
                        self.value(if c == ']' { ParseState::Node } else { ParseState::Attribute });
                        Ok(())
                    }
                } else {
                    push_char(&mut self.buffer, c);
                    Ok(())
                }
            },
        }
    }

    /// Ends the input: the path, with a name left in the buffer as its last
    /// segment, or the error for a buffer left inside a filter.
    pub fn finish(self) -> (r: Result<XPath, ParseError>)
        ensures
            match finish(self@) {
                Ok(nodes) => r is Ok && r.unwrap()@ == nodes,
                Err(e) => r is Err && r.unwrap_err() == e,
            },
    {
        let Parser { path, pending: _, mode, buffer } = self;
        let mut path = path;
        if buffer.as_str().is_empty() {
            Ok(path)
        } else if mode == ParseState::Node {
            let node = Node::new(buffer);
            path.append_node(node);
            assert(path@ =~= self@.path.push(plain(self@.buffer)));
            Ok(path)
        } else {
            Err(ParseError::StateError)
        }
    }
}

impl XPath {
    /// Parses a path expression: the segments that the state machine has
    /// collected when the input ends, or the first error it meets. Every segment
    /// of a path that is returned has an identifier as its name and complete
    /// attributes as its filters.
    pub fn parse(input: &str) -> (r: Result<XPath, ParseError>)
        ensures
            match parse_spec(input@) {
                Ok(nodes) => r is Ok && r.unwrap()@ == nodes,
                Err(e) => r is Err && r.unwrap_err() == e,
            },
            r is Ok ==> parsed_path(r.unwrap()@),
    {
        let mut parser = Parser::new();
        for c in it: input.chars()
            invariant
                parser.wf(),
                it.seq() == input@,
                run(initial(), input@.take(it.index() as int)) == Ok::<MachineView, ParseError>(parser@),
        {
            proof {
                let k = it.index() as int;
                assert(input@.take(k + 1).drop_last() =~= input@.take(k));
                assert(input@.take(k + 1).last() == c);
            }
            match parser.step(c) {
                Ok(()) => {},
                Err(e) => {
                    proof {
                        lemma_run_error_stays(initial(), input@, it.index() as int + 1);
                    }
                    return Err(e);
                },
            }
        }
        proof {
            assert(input@.take(input@.len() as int) =~= input@);
            if parse_spec(input@) is Ok {
                lemma_parse_well_formed(input@);
            }
        }
        parser.finish()
    }
}

} // verus!
