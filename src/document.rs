use vstd::prelude::*;

use crate::node::{attrs_of, children_of, Data, Node, Raw};

verus! {

/// `x` stands in `s` at exactly one position.
pub open spec fn occurs_once(s: Seq<usize>, x: usize) -> bool {
    exists|k: int|
        0 <= k < s.len() && s[k] == x && forall|m: int| 0 <= m < s.len() && s[m] == x ==> m == k
}

/// The link a child at position `k` of `ch` has to its previous sibling.
#[verifier::opaque]
pub open spec fn prev_in(ch: Seq<usize>, k: int) -> Option<usize> {
    if k == 0 {
        None
    } else {
        Some(ch[k - 1])
    }
}

/// The link a child at position `k` of `ch` has to its next sibling.
#[verifier::opaque]
pub open spec fn next_in(ch: Seq<usize>, k: int) -> Option<usize> {
    if k + 1 < ch.len() {
        Some(ch[k + 1])
    } else {
        None
    }
}

/// The keys of an attribute list are pairwise distinct.
pub open spec fn keys_distinct(attrs: Seq<(String, String)>) -> bool {
    forall|a: int, b: int| 0 <= a < b < attrs.len() ==> attrs[a].0@ != attrs[b].0@
}

/// Node `i` and its parent agree: a parent stands before the node, is an
/// element and lists it.
pub open spec fn parent_ok(nodes: Seq<Raw>, i: int) -> bool {
    match nodes[i].parent {
        Some(p) => p < i && nodes[p as int].data is Element && children_of(
            nodes[p as int].data,
        ).contains(i as usize),
        None => true,
    }
}

/// The sibling links of a root lead to roots that link back to it: the
/// previous one stands before it in the arena and the next one after it, so
/// the list of roots has two ends and no node is its own sibling.
pub open spec fn root_ok(nodes: Seq<Raw>, i: int) -> bool {
    nodes[i].parent is None ==> {
        &&& match nodes[i].prev {
            Some(q) => q < i && nodes[q as int].parent is None && nodes[q as int].next == Some(
                i as usize,
            ),
            None => true,
        }
        &&& match nodes[i].next {
            Some(q) => i < q < nodes.len() && nodes[q as int].parent is None && nodes[q as int].prev
                == Some(i as usize),
            None => true,
        }
    }
}

/// The child at position `k` of node `i` stands after it in the arena, names
/// it as parent, and has the sibling links that the child order gives.
pub open spec fn child_ok(nodes: Seq<Raw>, i: int, k: int) -> bool {
    let ch = children_of(nodes[i].data);
    let c = ch[k] as int;
    &&& i < c < nodes.len()
    &&& nodes[c].parent == Some(i as usize)
    &&& nodes[c].prev == prev_in(ch, k)
    &&& nodes[c].next == next_in(ch, k)
}

/// Well-formedness of an arena.
///
/// Every slot records its own position; a parent stands before its children
/// (so the tree is acyclic) and lists each of them exactly once; sibling links
/// follow the parent's child order; sibling links between roots agree both
/// ways; attribute keys of each element are distinct.
pub open spec fn wf_arena(nodes: Seq<Raw>) -> bool {
    &&& forall|i: int| 0 <= i < nodes.len() ==> #[trigger] nodes[i].index == i
    &&& forall|i: int| #![trigger nodes[i].parent] 0 <= i < nodes.len() ==> parent_ok(nodes, i)
    &&& forall|i: int|
        #![trigger nodes[i].prev]
        #![trigger nodes[i].next]
        0 <= i < nodes.len() ==> root_ok(nodes, i)
    &&& forall|i: int, k: int|
        #![trigger children_of(nodes[i].data)[k]]
        0 <= i < nodes.len() && 0 <= k < children_of(nodes[i].data).len() ==> child_ok(nodes, i, k)
    &&& forall|i: int|
        0 <= i < nodes.len() ==> (#[trigger] children_of(nodes[i].data)).no_duplicates()
    &&& forall|i: int| 0 <= i < nodes.len() ==> keys_distinct(#[trigger] attrs_of(nodes[i].data))
}

/// Within a well-formed arena every link of a node leads to a node of it.
pub proof fn lemma_links_in_range(nodes: Seq<Raw>, i: int)
    requires
        wf_arena(nodes),
        0 <= i < nodes.len(),
    ensures
        nodes[i].parent matches Some(p) ==> p < nodes.len(),
        nodes[i].prev matches Some(p) ==> p < nodes.len(),
        nodes[i].next matches Some(p) ==> p < nodes.len(),
{
    if let Some(p) = nodes[i].parent {
        let ch = children_of(nodes[p as int].data);
        assert(ch.contains(i as usize));
        let k = choose|k: int| 0 <= k < ch.len() && ch[k] == i as usize;
        assert(nodes[ch[k] as int].prev == prev_in(ch, k));
        assert(nodes[ch[k] as int].next == next_in(ch, k));
        reveal(prev_in);
        reveal(next_in);
        if k > 0 {
            assert(children_of(nodes[p as int].data)[k - 1] < nodes.len());
        }
        if k + 1 < ch.len() {
            assert(children_of(nodes[p as int].data)[k + 1] < nodes.len());
        }
    } else {
        assert(root_ok(nodes, i));
    }
}

/// The parent of a node lists that node among its children exactly once.
pub proof fn lemma_parent_lists_child_once(nodes: Seq<Raw>, i: int)
    requires
        wf_arena(nodes),
        0 <= i < nodes.len(),
        nodes[i].parent is Some,
    ensures
        occurs_once(children_of(nodes[nodes[i].parent->0 as int].data), i as usize),
{
    assert(nodes[i].index == i);
    let p = nodes[i].parent->0 as int;
    let ch = children_of(nodes[p].data);
    assert(ch.contains(i as usize));
    let k = choose|k: int| 0 <= k < ch.len() && ch[k] == i as usize;
    assert(ch.no_duplicates());
    assert forall|m: int| 0 <= m < ch.len() && ch[m] == i as usize implies m == k by {}
}

/// Sibling links agree: the next sibling of `a` is `b` exactly when the
/// previous sibling of `b` is `a`; and then `b` is another node than `a`,
/// with the same parent.
pub proof fn lemma_siblings_agree(nodes: Seq<Raw>, a: int, b: int)
    requires
        wf_arena(nodes),
        0 <= a < nodes.len(),
        0 <= b < nodes.len(),
    ensures
        nodes[a].next == Some(b as usize) <==> nodes[b].prev == Some(a as usize),
        nodes[a].next == Some(b as usize) ==> a != b && nodes[a].parent == nodes[b].parent,
{
    assert(nodes[a].index == a && nodes[b].index == b);
    assert(root_ok(nodes, a) && root_ok(nodes, b));
    if nodes[a].next == Some(b as usize) && nodes[a].parent is Some {
        let p = nodes[a].parent->0 as int;
        let ch = children_of(nodes[p].data);
        assert(ch.contains(a as usize));
        let k = choose|k: int| 0 <= k < ch.len() && ch[k] == a as usize;
        assert(nodes[ch[k] as int].next == next_in(ch, k));
        assert(k + 1 < ch.len() && ch[k + 1] == b as usize) by {
            reveal(next_in);
        }
        assert(nodes[ch[k + 1] as int].prev == prev_in(ch, k + 1));
        assert(prev_in(ch, k + 1) == Some(ch[k])) by {
            reveal(prev_in);
        }
        assert(ch.no_duplicates());
        assert(ch[k] != ch[k + 1]);
    }
    if nodes[b].prev == Some(a as usize) && nodes[b].parent is Some {
        let p = nodes[b].parent->0 as int;
        let ch = children_of(nodes[p].data);
        assert(ch.contains(b as usize));
        let k = choose|k: int| 0 <= k < ch.len() && ch[k] == b as usize;
        assert(nodes[ch[k] as int].prev == prev_in(ch, k));
        assert(k > 0 && ch[k - 1] == a as usize) by {
            reveal(prev_in);
        }
        assert(nodes[ch[k - 1] as int].next == next_in(ch, k - 1));
        assert(next_in(ch, k - 1) == Some(ch[k])) by {
            reveal(next_in);
        }
    }
}

/// Whether two optional links are the same.
fn same_link(a: Option<usize>, b: Option<usize>) -> (r: bool)
    ensures
        r == (a == b),
{
    match (a, b) {
        (Some(x), Some(y)) => x == y,
        (None, None) => true,
        _ => false,
    }
}

/// Whether the keys of `attrs` are pairwise distinct.
fn check_keys(attrs: &Vec<(String, String)>) -> (r: bool)
    ensures
        r == keys_distinct(attrs@),
{
    let mut b: usize = 0;
    while b < attrs.len()
        invariant
            b <= attrs@.len(),
            forall|x: int, y: int| 0 <= x < y < b ==> attrs@[x].0@ != attrs@[y].0@,
        decreases attrs.len() - b,
    {
        let mut a: usize = 0;
        while a < b
            invariant
                a <= b < attrs@.len(),
                forall|x: int, y: int| 0 <= x < y < b ==> attrs@[x].0@ != attrs@[y].0@,
                forall|x: int| 0 <= x < a ==> attrs@[x].0@ != attrs@[b as int].0@,
            decreases b - a,
        {
            if attrs[a].0 == attrs[b].0 {
                return false;
            }
            a += 1;
        }
        b += 1;
    }
    true
}

/// Whether no index appears twice in `ch`.
fn check_distinct(ch: &Vec<usize>) -> (r: bool)
    ensures
        r == ch@.no_duplicates(),
{
    let mut b: usize = 0;
    while b < ch.len()
        invariant
            b <= ch@.len(),
            forall|x: int, y: int| 0 <= x < y < b ==> ch@[x] != ch@[y],
        decreases ch.len() - b,
    {
        let mut a: usize = 0;
        while a < b
            invariant
                a <= b < ch@.len(),
                forall|x: int, y: int| 0 <= x < y < b ==> ch@[x] != ch@[y],
                forall|x: int| 0 <= x < a ==> ch@[x] != ch@[b as int],
            decreases b - a,
        {
            if ch[a] == ch[b] {
                return false;
            }
            a += 1;
        }
        b += 1;
    }
    assert forall|x: int, y: int| 0 <= x < ch@.len() && 0 <= y < ch@.len() && x != y implies ch@[x]
        != ch@[y] by {
        if y < x {
            assert(ch@[y] != ch@[x]);
        }
    }
    true
}

/// Whether node `i` and its parent agree.
fn check_parent(nodes: &Vec<Raw>, i: usize) -> (r: bool)
    requires
        i < nodes@.len(),
    ensures
        r == parent_ok(nodes@, i as int),
{
    match nodes[i].parent {
        Some(p) => {
            if p >= i {
                return false;
            }
            match &nodes[p].data {
                Data::Element(_, _, ch) => {
                    let mut k: usize = 0;
                    while k < ch.len()
                        invariant
                            k <= ch@.len(),
                            i < nodes@.len(),
                            p < i,
                            nodes@[i as int].parent == Some(p),
                            nodes@[p as int].data is Element,
                            ch@ == children_of(nodes@[p as int].data),
                            forall|m: int| 0 <= m < k ==> ch@[m] != i,
                        decreases ch.len() - k,
                    {
                        if ch[k] == i {
                            assert(ch@[k as int] == i);
                            return true;
                        }
                        k += 1;
                    }
                    false
                },
                _ => false,
            }
        },
        None => true,
    }
}

/// Whether the sibling links of node `i`, if it is a root, lead to roots that
/// link back.
fn check_root(nodes: &Vec<Raw>, i: usize) -> (r: bool)
    requires
        i < nodes@.len(),
    ensures
        r == root_ok(nodes@, i as int),
{
    if nodes[i].parent.is_some() {
        return true;
    }
    let back = match nodes[i].prev {
        Some(q) => q < i && nodes[q].parent.is_none() && same_link(nodes[q].next, Some(i)),
        None => true,
    };
    let ahead = match nodes[i].next {
        Some(q) => i < q && q < nodes.len() && nodes[q].parent.is_none() && same_link(
            nodes[q].prev,
            Some(i),
        ),
        None => true,
    };
    back && ahead
}

/// Whether every child of node `i` agrees with it and with the child order.
fn check_children(nodes: &Vec<Raw>, i: usize) -> (r: bool)
    requires
        i < nodes@.len(),
    ensures
        r == forall|k: int|
            0 <= k < children_of(nodes@[i as int].data).len() ==> child_ok(nodes@, i as int, k),
{
    match &nodes[i].data {
        Data::Element(_, _, ch) => {
            let mut k: usize = 0;
            while k < ch.len()
                invariant
                    i < nodes@.len(),
                    ch@ == children_of(nodes@[i as int].data),
                    k <= ch@.len(),
                    forall|m: int| 0 <= m < k ==> child_ok(nodes@, i as int, m),
                decreases ch.len() - k,
            {
                let c = ch[k];
                if c <= i || c >= nodes.len() {
                    assert(!child_ok(nodes@, i as int, k as int));
                    return false;
                }
                let prev = if k == 0 {
                    None
                } else {
                    Some(ch[k - 1])
                };
                let next = if k + 1 < ch.len() {
                    Some(ch[k + 1])
                } else {
                    None
                };
                proof {
                    reveal(prev_in);
                    reveal(next_in);
                    assert(prev == prev_in(ch@, k as int));
                    assert(next == next_in(ch@, k as int));
                }
                if !same_link(nodes[c].parent, Some(i)) || !same_link(nodes[c].prev, prev)
                    || !same_link(nodes[c].next, next) {
                    assert(!child_ok(nodes@, i as int, k as int));
                    return false;
                }
                k += 1;
            }
            true
        },
        _ => true,
    }
}

/// Everything that well-formedness asks of node `i` alone.
spec fn node_ok(nodes: Seq<Raw>, i: int) -> bool {
    &&& nodes[i].index == i
    &&& parent_ok(nodes, i)
    &&& root_ok(nodes, i)
    &&& forall|k: int| 0 <= k < children_of(nodes[i].data).len() ==> child_ok(nodes, i, k)
    &&& children_of(nodes[i].data).no_duplicates()
    &&& keys_distinct(attrs_of(nodes[i].data))
}

/// An arena is well formed exactly when each of its nodes is.
proof fn lemma_wf_by_node(nodes: Seq<Raw>)
    ensures
        wf_arena(nodes) <==> forall|i: int| 0 <= i < nodes.len() ==> #[trigger] node_ok(nodes, i),
{
    if forall|i: int| 0 <= i < nodes.len() ==> #[trigger] node_ok(nodes, i) {
        assert forall|i: int| 0 <= i < nodes.len() implies #[trigger] nodes[i].index == i by {
            assert(node_ok(nodes, i));
        }
        assert forall|i: int| 0 <= i < nodes.len() implies parent_ok(nodes, i) by {
            assert(node_ok(nodes, i));
        }
        assert forall|i: int| 0 <= i < nodes.len() implies root_ok(nodes, i) by {
            assert(node_ok(nodes, i));
        }
        assert forall|i: int, k: int|
            0 <= i < nodes.len() && 0 <= k < children_of(nodes[i].data).len() implies child_ok(
            nodes,
            i,
            k,
        ) by {
            assert(node_ok(nodes, i));
        }
        assert forall|i: int| 0 <= i < nodes.len() implies (#[trigger] children_of(
            nodes[i].data,
        )).no_duplicates() by {
            assert(node_ok(nodes, i));
        }
        assert forall|i: int| 0 <= i < nodes.len() implies keys_distinct(
            #[trigger] attrs_of(nodes[i].data),
        ) by {
            assert(node_ok(nodes, i));
        }
    }
    if wf_arena(nodes) {
        assert forall|i: int| 0 <= i < nodes.len() implies #[trigger] node_ok(nodes, i) by {
            assert(nodes[i].index == i);
            assert(parent_ok(nodes, i));
            assert(root_ok(nodes, i));
            assert forall|k: int| 0 <= k < children_of(nodes[i].data).len() implies child_ok(
                nodes,
                i,
                k,
            ) by {
                assert(child_ok(nodes, i, k));
            }
            assert(children_of(nodes[i].data).no_duplicates());
            assert(keys_distinct(attrs_of(nodes[i].data)));
        }
    }
}

/// The arena: every node of a document, addressed by a stable index.
#[derive(Clone, Debug, PartialEq)]
pub struct Document {
    pub nodes: Vec<Raw>,
}

impl Document {
    pub open spec fn wf(&self) -> bool {
        wf_arena(self.nodes@)
    }

    /// An empty document.
    pub fn new() -> (r: Document)
        ensures
            r.wf(),
            r.nodes@.len() == 0,
    {
        Document { nodes: Vec::new() }
    }

    /// Whether the arena is well formed: the condition under which cursors
    /// can be made on it.
    pub fn is_well_formed(&self) -> (r: bool)
        ensures
            r == self.wf(),
    {
        proof {
            lemma_wf_by_node(self.nodes@);
        }
        let n = self.nodes.len();
        let mut i: usize = 0;
        while i < n
            invariant
                n == self.nodes@.len(),
                i <= n,
                forall|q: int| 0 <= q < i ==> #[trigger] node_ok(self.nodes@, q),
                wf_arena(self.nodes@) <==> forall|q: int|
                    0 <= q < n ==> #[trigger] node_ok(self.nodes@, q),
            decreases n - i,
        {
            let ok = self.nodes[i].index == i && check_parent(&self.nodes, i) && check_root(&self.nodes, i)
                && check_children(
                &self.nodes,
                i,
            ) && match &self.nodes[i].data {
                Data::Element(_, attrs, ch) => check_distinct(ch) && check_keys(attrs),
                _ => true,
            };
            if !ok {
                assert(!node_ok(self.nodes@, i as int));
                return false;
            }
            i += 1;
        }
        true
    }

    /// The cursor on node `index`.
    ///
    /// The arena must be well formed; in particular every parent is stored
    /// before its children, which is how acyclicity is guaranteed here.
    pub fn nth<'a>(&'a self, index: usize) -> (r: Node<'a>)
        requires
            self.wf(),
            index < self.nodes@.len(),
        ensures
            r.arena() == self.nodes@,
            r.pos() == index,
    {
        Node::new(self, index)
    }

    /// The number of nodes.
    pub fn len(&self) -> (r: usize)
        ensures
            r == self.nodes@.len(),
    {
        self.nodes.len()
    }
}

} // verus!
