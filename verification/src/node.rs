//! The data model of a parsed path: segments, their filters, and how each is
//! written out.

use vstd::prelude::*;
use vstd::string::StringExecFns;
use crate::text::{decimal, join, push_char, push_decimal};

verus! {

/// What an [`Operator`] stands for in contracts.
pub enum OperatorView {
    Equal(Seq<char>),
}

/// What an [`AttributeValue`] stands for in contracts.
pub enum ValueView {
    Text(Seq<char>),
    Number(int),
    Boolean(bool),
}

/// What an [`Attribute`] stands for in contracts.
pub struct AttributeView {
    pub name: Seq<char>,
    pub op: OperatorView,
    pub value: Option<ValueView>,
}

/// What a [`Function`] stands for in contracts.
pub struct FunctionView {
    pub name: Seq<char>,
    pub arguments: Seq<Seq<char>>,
}

/// What a [`Predicate`] stands for in contracts.
pub enum PredicateView {
    Attribute(AttributeView),
    Function(FunctionView),
}

/// One segment of a path in contracts: its name and its filters, without what follows it.
pub struct NodeView {
    pub name: Seq<char>,
    pub predicates: Seq<PredicateView>,
}

/// The text of a value.
pub open spec fn render_value(v: ValueView) -> Seq<char> {
    match v {
        ValueView::Text(t) => t,
        ValueView::Number(n) => decimal(n),
        ValueView::Boolean(b) => if b {
            seq!['t', 'r', 'u', 'e']
        } else {
            seq!['f', 'a', 'l', 's', 'e']
        },
    }
}

/// The symbol of an operator.
pub open spec fn render_operator(op: OperatorView) -> Seq<char> {
    seq!['=']
}

/// The text of an attribute: name, operator symbol, then the value if it has one.
pub open spec fn render_attribute(a: AttributeView) -> Seq<char> {
    a.name + render_operator(a.op) + match a.value {
        Some(v) => render_value(v),
        None => Seq::empty(),
    }
}

/// The text of a function: name, then the arguments in round brackets, separated by `, `.
pub open spec fn render_function(f: FunctionView) -> Seq<char> {
    f.name + seq!['('] + join(f.arguments, seq![',', ' ']) + seq![')']
}

/// The text of a filter.
pub open spec fn render_predicate(p: PredicateView) -> Seq<char> {
    match p {
        PredicateView::Attribute(a) => render_attribute(a),
        PredicateView::Function(f) => render_function(f),
    }
}

/// The texts of the filters, joined by commas.
pub open spec fn render_predicates(ps: Seq<PredicateView>) -> Seq<char> {
    join(ps.map_values(|p: PredicateView| render_predicate(p)), seq![','])
}

/// The text of one segment: `/`, the name, and the filters in square brackets if there are any.
pub open spec fn render_node(n: NodeView) -> Seq<char> {
    seq!['/'] + n.name + if n.predicates.len() > 0 {
        seq!['['] + render_predicates(n.predicates) + seq![']']
    } else {
        Seq::empty()
    }
}

/// The text of a chain of segments: each segment's text, one after the other.
pub open spec fn render_path(nodes: Seq<NodeView>) -> Seq<char>
    decreases nodes.len(),
{
    if nodes.len() == 0 {
        Seq::empty()
    } else {
        render_node(nodes[0]) + render_path(nodes.drop_first())
    }
}

/// The operator between an attribute's name and its value.
#[derive(Debug, PartialEq)]
pub enum Operator {
    /// `=`; the field holds the symbol.
    Equal(&'static str),
}

/// The value of an attribute.
#[derive(Debug)]
pub enum AttributeValue {
    Text(String),
    Number(i64),
    Boolean(bool),
}

/// A `name=value` filter.
#[derive(Debug)]
pub struct Attribute {
    pub name: String,
    pub op: Operator,
    pub value: Option<AttributeValue>,
}

/// A function call as a filter. The grammar has no production for it yet.
#[derive(Debug)]
pub struct Function {
    _name: String,
    _arguments: Vec<String>,
}

/// A filter inside the square brackets of a segment.
#[derive(Debug)]
pub enum Predicate {
    Attribute(Attribute),
    Function(Function),
}

/// One segment of a path, which owns the segment that follows it.
#[derive(Debug)]
pub struct Node {
    pub name: String,
    pub predicates: Vec<Predicate>,
    pub next: Option<Box<Node>>,
}

impl View for Operator {
    type V = OperatorView;

    open spec fn view(&self) -> OperatorView {
        match *self {
            Operator::Equal(symbol) => OperatorView::Equal(symbol@),
        }
    }
}

impl View for AttributeValue {
    type V = ValueView;

    open spec fn view(&self) -> ValueView {
        match *self {
            AttributeValue::Text(t) => ValueView::Text(t@),
            AttributeValue::Number(n) => ValueView::Number(n as int),
            AttributeValue::Boolean(b) => ValueView::Boolean(b),
        }
    }
}

impl View for Attribute {
    type V = AttributeView;

    open spec fn view(&self) -> AttributeView {
        AttributeView {
            name: self.name@,
            op: self.op@,
            value: match self.value {
                Some(v) => Some(v@),
                None => None,
            },
        }
    }
}

impl View for Function {
    type V = FunctionView;

    closed spec fn view(&self) -> FunctionView {
        FunctionView {
            name: self._name@,
            arguments: self._arguments@.map_values(|s: String| s@),
        }
    }
}

impl View for Predicate {
    type V = PredicateView;

    open spec fn view(&self) -> PredicateView {
        match *self {
            Predicate::Attribute(a) => PredicateView::Attribute(a@),
            Predicate::Function(f) => PredicateView::Function(f@),
        }
    }
}

impl View for Node {
    type V = NodeView;

    open spec fn view(&self) -> NodeView {
        NodeView {
            name: self.name@,
            predicates: self.predicates@.map_values(|p: Predicate| p@),
        }
    }
}

impl Operator {
    /// The operator's symbol.
    pub fn to_string(&self) -> (out: String)
        ensures
            out@ == render_operator(self@),
    {
        let mut out = String::new();
        match self {
            Operator::Equal(_) => {
                push_char(&mut out, '=');
            },
        }
        out
    }
}

impl AttributeValue {
    /// The value as text: a text as it is, a number in decimal, a boolean as `true` or `false`.
    pub fn to_string(&self) -> (out: String)
        ensures
            out@ == render_value(self@),
    {
        let mut out = String::new();
        match self {
            AttributeValue::Text(t) => {
                out.append(t.as_str());
            },
            AttributeValue::Number(n) => {
                push_decimal(&mut out, *n);
            },
            AttributeValue::Boolean(b) => {
                proof {
                    reveal_strlit("true");
                    reveal_strlit("false");
                }
                if *b {
                    out.append("true");
                } else {
                    out.append("false");
                }
                assert(out@ =~= render_value(self@));
            },
        }
        out
    }
}

impl Attribute {
    /// The attribute as text: name, operator symbol, then the value if it has one.
    pub fn to_string(&self) -> (out: String)
        ensures
            out@ == render_attribute(self@),
    {
        let mut out = self.name.clone();
        let op = self.op.to_string();
        out.append(op.as_str());
        match &self.value {
            Some(v) => {
                let value = v.to_string();
                out.append(value.as_str());
            },
            None => {},
        }
        assert(out@ =~= render_attribute(self@));
        out
    }
}

impl Function {
    /// A function filter with the given name and arguments.
    pub fn new(name: String, arguments: Vec<String>) -> (f: Function)
        ensures
            f@ == (FunctionView { name: name@, arguments: arguments@.map_values(|s: String| s@) }),
    {
        Function { _name: name, _arguments: arguments }
    }

    /// The function as text: name, then the arguments in round brackets, separated by `, `.
    pub fn to_string(&self) -> (out: String)
        ensures
            out@ == render_function(self@),
    {
        let mut out = self._name.clone();
        push_char(&mut out, '(');
        let ghost parts = self@.arguments;
        let ghost sep = seq![',', ' '];
        let n: usize = self._arguments.len();
        let mut i: usize = 0;
        while i < n
            invariant
                i <= n,
                n == self._arguments.len(),
                parts == self@.arguments,
                parts.len() == n,
                sep == seq![',', ' '],
                out@ == self@.name + seq!['('] + join(parts.take(i as int), sep),
            decreases n - i,
        {
            if i > 0 {
                push_char(&mut out, ',');
                push_char(&mut out, ' ');
            }
            out.append(self._arguments[i].as_str());
            proof {
                let before = parts.take(i as int);
                let now = parts.take(i + 1);
                assert(now.drop_last() =~= before);
                assert(now.last() == self._arguments[i as int]@);
                assert(out@ =~= self@.name + seq!['('] + join(now, sep));
            }
            i = i + 1;
        }
        assert(parts.take(n as int) =~= parts);
        push_char(&mut out, ')');
        out
    }
}

impl Predicate {
    /// The filter as text.
    pub fn to_string(&self) -> (out: String)
        ensures
            out@ == render_predicate(self@),
    {
        match self {
            Predicate::Attribute(a) => a.to_string(),
            Predicate::Function(f) => f.to_string(),
        }
    }
}

impl Node {
    /// This segment and those that follow it, in order.
    pub open spec fn chain(&self) -> Seq<NodeView>
        decreases self,
    {
        match self.next {
            None => seq![self@],
            Some(rest) => seq![self@] + rest.chain(),
        }
    }

    /// A segment with the given name, without filters and with nothing after it.
    pub fn new(name: String) -> (node: Node)
        ensures
            node@ == (NodeView { name: name@, predicates: Seq::empty() }),
            node.next is None,
            node.chain() == seq![node@],
    {
        let node = Node { name, predicates: Vec::new(), next: None };
        assert(node@.predicates =~= Seq::empty());
        node
    }

    /// Adds a filter after those that the segment has.
    pub fn add_predicate(&mut self, predicate: Predicate)
        ensures
            final(self)@ == (NodeView {
                name: old(self)@.name,
                predicates: old(self)@.predicates.push(predicate@),
            }),
            final(self).next == old(self).next,
    {
        self.predicates.push(predicate);
        assert(self@.predicates =~= old(self)@.predicates.push(predicate@));
    }

    /// Attaches `node`, with what follows it, behind the last segment of this chain.
    pub fn append(&mut self, node: Node)
        ensures
            final(self).chain() == old(self).chain() + node.chain(),
        decreases *old(self),
    {
        match &mut self.next {
            Some(rest) => {
                rest.append(node);
            },
            None => {
                self.next = Some(Box::new(node));
            },
        }
    }

    /// The text of this segment alone: `/`, the name, and the filters in square
    /// brackets if there are any.
    pub fn segment(&self) -> (out: String)
        ensures
            out@ == render_node(self@),
    {
        let mut out = String::new();
        push_char(&mut out, '/');
        out.append(self.name.as_str());
        let n: usize = self.predicates.len();
        if n > 0 {
            push_char(&mut out, '[');
            let ghost head = seq!['/'] + self@.name + seq!['['];
            let ghost parts = self@.predicates.map_values(|p: PredicateView| render_predicate(p));
            let ghost sep = seq![','];
            let mut i: usize = 0;
            while i < n
                invariant
                    i <= n,
                    n == self.predicates.len(),
                    head == seq!['/'] + self@.name + seq!['['],
                    parts == self@.predicates.map_values(|p: PredicateView| render_predicate(p)),
                    sep == seq![','],
                    out@ == head + join(parts.take(i as int), sep),
                decreases n - i,
            {
                if i > 0 {
                    push_char(&mut out, ',');
                }
                let part = self.predicates[i].to_string();
                out.append(part.as_str());
                proof {
                    let now = parts.take(i + 1);
                    assert(now.drop_last() =~= parts.take(i as int));
                    assert(now.last() == part@);
                    assert(out@ =~= head + join(now, sep));
                }
                i = i + 1;
            }
            assert(parts.take(n as int) =~= parts);
            push_char(&mut out, ']');
            assert(out@ =~= render_node(self@));
        } else {
            assert(out@ =~= render_node(self@));
        }
        out
    }

    /// The text of this segment and of those that follow it.
    pub fn to_string(&self) -> (out: String)
        ensures
            out@ == render_path(self.chain()),
    {
        let mut out = String::new();
        let mut cur: &Node = self;
        loop
            invariant
                out@ + render_path(cur.chain()) == render_path(self.chain()),
            decreases *cur,
        {
            let part = cur.segment();
            out.append(part.as_str());
            proof {
                let tail = cur.chain();
                assert(tail[0] == cur@);
                assert(render_path(tail) == render_node(cur@) + render_path(tail.drop_first()));
            }
            match &cur.next {
                Some(rest) => {
                    proof {
                        assert(cur.chain().drop_first() =~= rest.chain());
                        assert(out@ + render_path(rest.chain()) =~= render_path(self.chain()));
                    }
                    cur = rest;
                },
                None => {
                    proof {
                        assert(cur.chain().drop_first() =~= Seq::<NodeView>::empty());
                        assert(out@ =~= render_path(self.chain()));
                    }
                    return out;
                },
            }
        }
    }
}

} // verus!
