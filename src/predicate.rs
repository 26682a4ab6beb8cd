use vstd::prelude::*;

use crate::node::{comment_payload, name_of, text_payload, Node, Raw};

verus! {

/// A boolean test on one node of a document.
///
/// `spec_matches` says what the test decides, as a function of the arena and
/// the node's position in it; `matches` computes it.
pub trait Predicate {
    spec fn spec_matches(&self, arena: Seq<Raw>, index: int) -> bool;

    fn matches(&self, node: &Node) -> (r: bool)
        ensures
            r == self.spec_matches(node.arena(), node.pos()),
    ;
}

/// Matches every node.
pub struct Any;

/// Matches text nodes.
pub struct Text;

/// Matches element nodes.
pub struct Element;

/// Matches comment nodes.
pub struct Comment;

/// Matches elements whose tag name is exactly the given one.
pub struct Name<'n>(pub &'n str);

impl Predicate for Any {
    open spec fn spec_matches(&self, arena: Seq<Raw>, index: int) -> bool {
        true
    }

    fn matches(&self, node: &Node) -> (r: bool) {
        true
    }
}

impl Predicate for Text {
    open spec fn spec_matches(&self, arena: Seq<Raw>, index: int) -> bool {
        text_payload(arena[index].data) is Some
    }

    fn matches(&self, node: &Node) -> (r: bool) {
        node.as_text().is_some()
    }
}

impl Predicate for Element {
    open spec fn spec_matches(&self, arena: Seq<Raw>, index: int) -> bool {
        name_of(arena[index].data) is Some
    }

    fn matches(&self, node: &Node) -> (r: bool) {
        node.name().is_some()
    }
}

impl Predicate for Comment {
    open spec fn spec_matches(&self, arena: Seq<Raw>, index: int) -> bool {
        comment_payload(arena[index].data) is Some
    }

    fn matches(&self, node: &Node) -> (r: bool) {
        node.as_comment().is_some()
    }
}

impl<'n> Predicate for Name<'n> {
    open spec fn spec_matches(&self, arena: Seq<Raw>, index: int) -> bool {
        name_of(arena[index].data) == Some(self.0@)
    }

    fn matches(&self, node: &Node) -> (r: bool) {
        match node.name() {
            Some(name) => {
                let found = name.to_owned();
                let wanted = self.0.to_owned();
                found == wanted
            },
            None => false,
        }
    }
}

} // verus!
