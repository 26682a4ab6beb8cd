use vstd::prelude::*;
use vstd::string::StringExecFns;

use crate::document::{keys_distinct, lemma_links_in_range, wf_arena, Document};
use crate::predicate::Predicate;
use crate::selection::{found, Selection};

verus! {

/// What a node holds.
///
/// An element keeps its attributes as `(key, value)` pairs whose keys are
/// pairwise distinct, and its children as arena indices in document order.
#[derive(Clone, Debug, PartialEq)]
pub enum Data {
    Text(String),
    Element(String, Vec<(String, String)>, Vec<usize>),
    Comment(String),
}

/// One arena slot: the node's payload and its structural links.
#[derive(Clone, Debug, PartialEq)]
pub struct Raw {
    pub index: usize,
    pub parent: Option<usize>,
    pub prev: Option<usize>,
    pub next: Option<usize>,
    pub data: Data,
}

/// The child indices of a payload: empty for every leaf.
pub open spec fn children_of(d: Data) -> Seq<usize> {
    match d {
        Data::Element(_, _, ch) => ch@,
        _ => Seq::empty(),
    }
}

/// The attribute list of a payload: empty for every leaf.
pub open spec fn attrs_of(d: Data) -> Seq<(String, String)> {
    match d {
        Data::Element(_, attrs, _) => attrs@,
        _ => Seq::empty(),
    }
}

/// The tag name of an element; absent for text and comments.
pub open spec fn name_of(d: Data) -> Option<Seq<char>> {
    match d {
        Data::Element(name, _, _) => Some(name@),
        _ => None,
    }
}

/// The content of a text node; absent otherwise.
pub open spec fn text_payload(d: Data) -> Option<Seq<char>> {
    match d {
        Data::Text(t) => Some(t@),
        _ => None,
    }
}

/// The content of a comment node; absent otherwise.
pub open spec fn comment_payload(d: Data) -> Option<Seq<char>> {
    match d {
        Data::Comment(c) => Some(c@),
        _ => None,
    }
}

/// Every payload is of exactly one kind: it has a name, a text content or a
/// comment content, and no two of them.
pub proof fn lemma_one_kind(d: Data)
    ensures
        name_of(d) is Some <==> d is Element,
        text_payload(d) is Some <==> d is Text,
        comment_payload(d) is Some <==> d is Comment,
        name_of(d) is Some ==> text_payload(d) is None && comment_payload(d) is None,
        text_payload(d) is Some ==> comment_payload(d) is None,
        name_of(d) is Some || text_payload(d) is Some || comment_payload(d) is Some,
{
}

/// The value paired with key `k` in an attribute list, if any pair has it.
pub open spec fn lookup(attrs: Seq<(String, String)>, k: Seq<char>) -> Option<Seq<char>> {
    if exists|j: int| 0 <= j < attrs.len() && (#[trigger] attrs[j]).0@ == k {
        let j = choose|j: int| 0 <= j < attrs.len() && (#[trigger] attrs[j]).0@ == k;
        Some(attrs[j].1@)
    } else {
        None
    }
}

/// The value stored under key `k` on an element; absent for leaves and for
/// keys the element does not carry.
pub open spec fn attr_of(d: Data, k: Seq<char>) -> Option<Seq<char>> {
    match d {
        Data::Element(_, attrs, _) => lookup(attrs@, k),
        _ => None,
    }
}

/// Finds the value stored under `name` by exact comparison of keys.
fn find_attr<'b>(attrs: &'b Vec<(String, String)>, name: &str) -> (r: Option<&'b str>)
    requires
        keys_distinct(attrs@),
    ensures
        r.deep_view() == lookup(attrs@, name@),
{
    let key = name.to_owned();
    let mut j: usize = 0;
    while j < attrs.len()
        invariant
            j <= attrs@.len(),
            key@ == name@,
            keys_distinct(attrs@),
            forall|m: int| 0 <= m < j ==> (#[trigger] attrs@[m]).0@ != name@,
        decreases attrs.len() - j,
    {
        if attrs[j].0 == key {
            let ghost w = choose|w: int| 0 <= w < attrs@.len() && (#[trigger] attrs@[w]).0@ == name@;
            assert(attrs@[j as int].0@ == name@);
            assert(w == j) by {
                if w > j {
                    assert(attrs@[j as int].0@ != attrs@[w].0@);
                }
            }
            return Some(attrs[j].1.as_str());
        }
        j += 1;
    }
    None
}

/// The text under node `i`: its own content for a text node, nothing for a
/// comment, and the text of each child in order for an element.
pub open spec fn text_of(nodes: Seq<Raw>, i: int) -> Seq<char>
    decreases nodes.len() - i, 1int, 0int,
{
    if 0 <= i < nodes.len() {
        match nodes[i].data {
            Data::Text(t) => t@,
            Data::Element(_, _, ch) => children_text(nodes, i, ch@.len() as int),
            Data::Comment(_) => Seq::empty(),
        }
    } else {
        Seq::empty()
    }
}

/// The text of the first `n` children of node `i`, concatenated in order.
pub open spec fn children_text(nodes: Seq<Raw>, i: int, n: int) -> Seq<char>
    decreases nodes.len() - i, 0int, n,
{
    if n <= 0 || !(0 <= i < nodes.len()) || n > children_of(nodes[i].data).len() {
        Seq::empty()
    } else {
        let c = children_of(nodes[i].data)[n - 1] as int;
        children_text(nodes, i, n - 1) + if i < c < nodes.len() {
            text_of(nodes, c)
        } else {
            Seq::empty()
        }
    }
}

/// `r` is the cursor that `link` leads to in `arena`, or absent with it.
pub open spec fn follows_link(r: Option<Node>, arena: Seq<Raw>, link: Option<usize>) -> bool {
    match link {
        Some(j) => r is Some && r->0.arena() == arena && r->0.pos() == j,
        None => r is None,
    }
}

/// Appends the text under node `index` to `out`.
fn collect_text(document: &Document, index: usize, out: &mut String)
    requires
        document.wf(),
        index < document.nodes@.len(),
    ensures
        final(out)@ == old(out)@ + text_of(document.nodes@, index as int),
    decreases document.nodes@.len() - index,
{
    let ghost nodes = document.nodes@;
    match &document.nodes[index].data {
        Data::Text(text) => out.append(text.as_str()),
        Data::Element(_, _, children) => {
            let ghost start = out@;
            let mut k: usize = 0;
            while k < children.len()
                invariant
                    document.wf(),
                    nodes == document.nodes@,
                    index < nodes.len(),
                    children@ == children_of(nodes[index as int].data),
                    k <= children@.len(),
                    out@ == start + children_text(nodes, index as int, k as int),
                decreases children.len() - k,
            {
                let c = children[k];
                assert(children_of(nodes[index as int].data)[k as int] == c);
                collect_text(document, c, out);
                k += 1;
            }
            assert(start + children_text(nodes, index as int, k as int) == start + text_of(nodes, index as int));
        }
        Data::Comment(_) => {},
    }
}

/// A cursor: one node of a document, seen through a shared borrow of the arena.
#[derive(Copy, Clone, Debug, PartialEq)]
pub struct Node<'a> {
    document: &'a Document,
    index: usize,
}

impl<'a> Node<'a> {
    #[verifier::type_invariant]
    spec fn valid(&self) -> bool {
        wf_arena(self.document.nodes@) && self.index < self.document.nodes@.len()
    }

    /// The arena this cursor reads.
    pub closed spec fn arena(&self) -> Seq<Raw> {
        self.document.nodes@
    }

    /// The position of this cursor in its arena.
    pub closed spec fn pos(&self) -> int {
        self.index as int
    }

    /// The record this cursor stands on.
    pub open spec fn raw(&self) -> Raw {
        self.arena()[self.pos()]
    }

    /// The cursor on node `index` of `document`.
    ///
    /// The document must be well formed (see `Document::wf`). Acyclicity is
    /// asked for in the strong form that every parent is stored before its
    /// children, as an arena filled in document order is; an acyclic arena
    /// that stores a child before its parent is refused.
    pub fn new(document: &'a Document, index: usize) -> (r: Node<'a>)
        requires
            document.wf(),
            index < document.nodes@.len(),
        ensures
            r.arena() == document.nodes@,
            r.pos() == index,
    {
        Node { document: document, index: index }
    }

    /// This node's position in the arena, which is well formed and holds it.
    pub fn index(&self) -> (r: usize)
        ensures
            r == self.pos(),
            wf_arena(self.arena()),
            r < self.arena().len(),
    {
        proof {
            use_type_invariant(self);
        }
        self.index
    }

    /// This node's payload, borrowed from the arena.
    pub fn data(&self) -> (r: &'a Data)
        ensures
            *r == self.raw().data,
    {
        proof {
            use_type_invariant(self);
        }
        &self.document.nodes[self.index].data
    }

    /// The tag name of an element; absent for text and comments.
    pub fn name(&self) -> (r: Option<&'a str>)
        ensures
            r.deep_view() == name_of(self.raw().data),
    {
        match self.data() {
            Data::Element(name, _, _) => Some(name.as_str()),
            _ => None,
        }
    }

    /// The value stored under exactly the key `name`; absent for text,
    /// comments and keys the element does not carry.
    pub fn attr(&self, name: &str) -> (r: Option<&'a str>)
        ensures
            r.deep_view() == attr_of(self.raw().data, name@),
    {
        proof {
            use_type_invariant(self);
            assert(keys_distinct(attrs_of(self.raw().data)));
        }
        match self.data() {
            Data::Element(_, attrs, _) => find_attr(attrs, name),
            _ => None,
        }
    }

    /// The cursor on the parent; absent for a root.
    pub fn parent(&self) -> (r: Option<Node<'a>>)
        ensures
            follows_link(r, self.arena(), self.raw().parent),
    {
        proof {
            use_type_invariant(self);
            lemma_links_in_range(self.arena(), self.pos());
        }
        match self.document.nodes[self.index].parent {
            Some(p) => Some(self.document.nth(p)),
            None => None,
        }
    }

    /// The cursor on the previous sibling; absent for a first child or a root.
    pub fn prev(&self) -> (r: Option<Node<'a>>)
        ensures
            follows_link(r, self.arena(), self.raw().prev),
    {
        proof {
            use_type_invariant(self);
            lemma_links_in_range(self.arena(), self.pos());
        }
        match self.document.nodes[self.index].prev {
            Some(p) => Some(self.document.nth(p)),
            None => None,
        }
    }

    /// The cursor on the next sibling; absent for a last child or a root.
    pub fn next(&self) -> (r: Option<Node<'a>>)
        ensures
            follows_link(r, self.arena(), self.raw().next),
    {
        proof {
            use_type_invariant(self);
            lemma_links_in_range(self.arena(), self.pos());
        }
        match self.document.nodes[self.index].next {
            Some(p) => Some(self.document.nth(p)),
            None => None,
        }
    }

    /// The text under this node: the content of every text node reached in
    /// depth-first order, comments left out.
    pub fn text(&self) -> (r: String)
        ensures
            r@ == text_of(self.arena(), self.pos()),
    {
        proof {
            use_type_invariant(self);
        }
        let mut string = String::new();
        collect_text(self.document, self.index, &mut string);
        string
    }

    /// The nodes strictly below this one on which `p` holds, in arena order:
    /// the search starts from this node alone.
    pub fn find<P: Predicate>(&self, p: P) -> (r: Selection<'a>)
        ensures
            r.arena() == self.arena(),
            r@ == found(self.arena(), seq![self.pos() as usize], p),
    {
        proof {
            use_type_invariant(self);
        }
        Selection::single(self.document, self.index).find(p)
    }

    /// Whether `p` holds of this node.
    pub fn is<P: Predicate>(&self, p: P) -> (r: bool)
        ensures
            r == p.spec_matches(self.arena(), self.pos()),
    {
        p.matches(self)
    }

    /// The content of a text node; absent otherwise.
    pub fn as_text(&self) -> (r: Option<&'a str>)
        ensures
            r.deep_view() == text_payload(self.raw().data),
    {
        match self.data() {
            Data::Text(text) => Some(text.as_str()),
            _ => None,
        }
    }

    /// The content of a comment node; absent otherwise.
    pub fn as_comment(&self) -> (r: Option<&'a str>)
        ensures
            r.deep_view() == comment_payload(self.raw().data),
    {
        match self.data() {
            Data::Comment(comment) => Some(comment.as_str()),
            _ => None,
        }
    }
}

} // verus!
