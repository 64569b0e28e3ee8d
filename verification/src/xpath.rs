//! The path as a whole: a chain of segments behind one head.

use vstd::prelude::*;
use crate::node::{render_path, Node, NodeView};

verus! {

/// A parsed path expression: its segments in order.
#[derive(Debug)]
pub struct XPath {
    root: Option<Box<Node>>,
}

impl View for XPath {
    type V = Seq<NodeView>;

    closed spec fn view(&self) -> Seq<NodeView> {
        match self.root {
            None => Seq::empty(),
            Some(head) => head.chain(),
        }
    }
}

impl XPath {
    /// The path without segments.
    pub fn new() -> (path: XPath)
        ensures
            path@ == Seq::<NodeView>::empty(),
    {
        XPath { root: None }
    }

    /// Puts `node`, with what follows it, behind the last segment of the path.
    pub fn append_node(&mut self, node: Node)
        ensures
            final(self)@ == old(self)@ + node.chain(),
    {
        match &mut self.root {
            Some(head) => {
                head.append(node);
            },
            None => {
                self.root = Some(Box::new(node));
                assert(self@ =~= old(self)@ + node.chain());
            },
        }
    }

    /// The first segment, through which the others are reached; `None` for the
    /// path without segments.
    pub fn root(&self) -> (head: Option<&Node>)
        ensures
            match head {
                Some(node) => self@ == node.chain(),
                None => self@ == Seq::<NodeView>::empty(),
            },
    {
        match &self.root {
            Some(head) => Some(&**head),
            None => None,
        }
    }

    /// The canonical text of the path: the text of each segment, one after the other.
    pub fn to_string(&self) -> (out: String)
        ensures
            out@ == render_path(self@),
    {
        match &self.root {
            Some(head) => head.to_string(),
            None => String::new(),
        }
    }
}

} // verus!
