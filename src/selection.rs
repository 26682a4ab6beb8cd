use vstd::prelude::*;

use crate::document::{lemma_links_in_range, wf_arena, Document};
use crate::node::Raw;
use crate::predicate::Predicate;

verus! {

/// The positions `0..n`, in increasing order.
pub open spec fn positions(n: nat) -> Seq<usize> {
    Seq::new(n, |i: int| i as usize)
}

/// The positions `0..n` on which `keep` holds, in increasing order.
pub open spec fn ordered(n: nat, keep: spec_fn(int) -> bool) -> Seq<usize> {
    positions(n).filter(|x: usize| keep(x as int))
}

/// The positions `0..n` that `picked` lists, in increasing order and each once.
pub open spec fn listed(n: nat, picked: Seq<usize>) -> Seq<usize> {
    ordered(n, |j: int| picked.contains(j as usize))
}

/// Node `j` lies strictly below some node of `scope`: one of its ancestors
/// is listed there.
pub open spec fn below(arena: Seq<Raw>, scope: Seq<usize>, j: int) -> bool
    decreases j,
{
    if 0 <= j < arena.len() {
        match arena[j].parent {
            Some(p) => if p < j {
                scope.contains(p) || below(arena, scope, p as int)
            } else {
                false
            },
            None => false,
        }
    } else {
        false
    }
}

/// The nodes below `scope` on which `p` holds, in arena order.
pub open spec fn found<P: Predicate>(arena: Seq<Raw>, scope: Seq<usize>, p: P) -> Seq<usize> {
    ordered(arena.len(), |j: int| below(arena, scope, j) && p.spec_matches(arena, j))
}

/// One more position either joins the ordered list at its end or is left out.
proof fn lemma_ordered_step(n: nat, keep: spec_fn(int) -> bool)
    requires
        n < usize::MAX,
    ensures
        ordered(n + 1, keep) == if keep(n as int) {
            ordered(n, keep).push(n as usize)
        } else {
            ordered(n, keep)
        },
{
    assert(positions(n + 1).drop_last() =~= positions(n));
    assert(positions(n + 1).last() == n as usize);
    reveal(Seq::filter);
}

/// One more position either joins the listed positions at their end or is
/// left out.
proof fn lemma_listed_step(n: nat, picked: Seq<usize>)
    requires
        n < usize::MAX,
    ensures
        listed(n + 1, picked) == if picked.contains(n as usize) {
            listed(n, picked).push(n as usize)
        } else {
            listed(n, picked)
        },
{
    assert(positions(n + 1).drop_last() =~= positions(n));
    assert(positions(n + 1).last() == n as usize);
    reveal(Seq::filter);
}

/// The positions below `n` that a one-element list names are that element
/// alone, when it is below `n`.
proof fn lemma_listed_one(n: nat, i: usize)
    requires
        n <= usize::MAX,
    ensures
        listed(n, seq![i]) == if i < n {
            seq![i]
        } else {
            Seq::<usize>::empty()
        },
    decreases n,
{
    if n == 0 {
        reveal(Seq::filter);
        assert(positions(0).len() == 0);
    } else {
        let m = (n - 1) as nat;
        lemma_listed_one(m, i);
        lemma_listed_step(m, seq![i]);
        assert(seq![i].contains(m as usize) <==> m == i) by {
            if m == i {
                assert(seq![i][0] == m as usize);
            }
        }
        if m == i {
            assert(Seq::<usize>::empty().push(i) =~= seq![i]);
        }
    }
}

/// A search from the selection of one node sees the same scope as a search
/// from that node: both find the nodes strictly below it on which `p` holds.
pub proof fn lemma_find_from_one<P: Predicate>(arena: Seq<Raw>, i: usize, p: P)
    requires
        i < arena.len(),
        arena.len() <= usize::MAX,
    ensures
        found(arena, listed(arena.len(), seq![i]), p) == found(arena, seq![i], p),
{
    lemma_listed_one(arena.len(), i);
}

/// A group of nodes of one document, kept in arena order.
pub struct Selection<'a> {
    document: &'a Document,
    indices: Vec<usize>,
}

impl<'a> View for Selection<'a> {
    type V = Seq<usize>;

    closed spec fn view(&self) -> Seq<usize> {
        self.indices@
    }
}

/// A flag for each position of the arena: whether `picked` lists it.
fn mark(n: usize, picked: &Vec<usize>) -> (m: Vec<bool>)
    requires
        forall|k: int| 0 <= k < picked@.len() ==> picked@[k] < n,
    ensures
        m@.len() == n,
        forall|j: int| 0 <= j < n ==> m@[j] == picked@.contains(j as usize),
{
    let mut m: Vec<bool> = Vec::new();
    let mut j: usize = 0;
    while j < n
        invariant
            j <= n,
            m@.len() == j,
            forall|q: int| 0 <= q < j ==> !m@[q],
        decreases n - j,
    {
        m.push(false);
        j += 1;
    }
    let mut k: usize = 0;
    while k < picked.len()
        invariant
            k <= picked@.len(),
            m@.len() == n,
            forall|t: int| 0 <= t < picked@.len() ==> picked@[t] < n,
            forall|q: int|
                0 <= q < n ==> (m@[q] <==> exists|t: int| 0 <= t < k && picked@[t] == q as usize),
        decreases picked.len() - k,
    {
        let q = picked[k];
        m.set(q, true);
        k += 1;
        assert forall|q2: int| 0 <= q2 < n implies (m@[q2] <==> exists|t: int|
            0 <= t < k && picked@[t] == q2 as usize) by {
            if q2 == q {
                assert(picked@[k - 1] == q2 as usize);
            }
        }
    }
    m
}

/// Whether node `j` has an ancestor that `marks` flags.
fn lies_below(document: &Document, marks: &Vec<bool>, j: usize, Ghost(scope): Ghost<Seq<usize>>) -> (r: bool)
    requires
        document.wf(),
        j < document.nodes@.len(),
        marks@.len() == document.nodes@.len(),
        forall|q: int| 0 <= q < marks@.len() ==> marks@[q] == scope.contains(q as usize),
    ensures
        r == below(document.nodes@, scope, j as int),
    decreases j,
{
    proof {
        lemma_links_in_range(document.nodes@, j as int);
    }
    match document.nodes[j].parent {
        Some(p) => marks[p] || lies_below(document, marks, p, Ghost(scope)),
        None => false,
    }
}

impl<'a> Selection<'a> {
    #[verifier::type_invariant]
    spec fn valid(&self) -> bool {
        &&& wf_arena(self.document.nodes@)
        &&& forall|k: int| 0 <= k < self.indices@.len() ==> self.indices@[k] < self.document.nodes@.len()
    }

    /// The arena the selected nodes belong to.
    pub closed spec fn arena(&self) -> Seq<Raw> {
        self.document.nodes@
    }

    /// The selection of the nodes that `indices` lists, in arena order and
    /// each once.
    pub fn new(document: &'a Document, indices: Vec<usize>) -> (r: Selection<'a>)
        requires
            document.wf(),
            forall|k: int| 0 <= k < indices@.len() ==> indices@[k] < document.nodes@.len(),
        ensures
            r.arena() == document.nodes@,
            r@ == listed(document.nodes@.len(), indices@),
    {
        let n = document.nodes.len();
        let marks = mark(n, &indices);
        let mut out: Vec<usize> = Vec::new();
        let mut j: usize = 0;
        while j < n
            invariant
                j <= n,
                n == document.nodes@.len(),
                marks@.len() == n,
                forall|q: int| 0 <= q < n ==> marks@[q] == indices@.contains(q as usize),
                out@ == listed(j as nat, indices@),
                forall|k: int| 0 <= k < out@.len() ==> out@[k] < j,
            decreases n - j,
        {
            proof {
                lemma_listed_step(j as nat, indices@);
            }
            if marks[j] {
                out.push(j);
            }
            j += 1;
        }
        Selection { document: document, indices: out }
    }

    /// The selection of node `index` alone.
    pub(crate) fn single(document: &'a Document, index: usize) -> (r: Selection<'a>)
        requires
            document.wf(),
            index < document.nodes@.len(),
        ensures
            r.arena() == document.nodes@,
            r@ == seq![index],
    {
        let mut indices: Vec<usize> = Vec::new();
        indices.push(index);
        Selection { document: document, indices: indices }
    }

    /// The nodes strictly below a selected node on which `p` holds, in
    /// arena order.
    pub fn find<P: Predicate>(&self, p: P) -> (r: Selection<'a>)
        ensures
            r.arena() == self.arena(),
            r@ == found(self.arena(), self@, p),
    {
        proof {
            use_type_invariant(self);
        }
        let ghost arena = self.document.nodes@;
        let ghost keep = |j: int| below(arena, self@, j) && p.spec_matches(arena, j);
        let n = self.document.nodes.len();
        let marks = mark(n, &self.indices);
        let mut out: Vec<usize> = Vec::new();
        let mut j: usize = 0;
        while j < n
            invariant
                j <= n,
                arena == self.document.nodes@,
                wf_arena(arena),
                n == arena.len(),
                marks@.len() == n,
                forall|q: int| 0 <= q < n ==> marks@[q] == self@.contains(q as usize),
                forall|q: int| #[trigger] keep(q) == (below(arena, self@, q) && p.spec_matches(arena, q)),
                out@ == ordered(j as nat, keep),
                forall|k: int| 0 <= k < out@.len() ==> out@[k] < j,
            decreases n - j,
        {
            proof {
                lemma_ordered_step(j as nat, keep);
            }
            if lies_below(self.document, &marks, j, Ghost(self@)) && p.matches(&self.document.nth(j)) {
                out.push(j);
            }
            j += 1;
        }
        Selection { document: self.document, indices: out }
    }

    /// The number of selected nodes.
    pub fn len(&self) -> (r: usize)
        ensures
            r == self@.len(),
    {
        self.indices.len()
    }

    /// The arena positions of the selected nodes, in order.
    pub fn indices(&self) -> (r: &[usize])
        ensures
            r@ == self@,
    {
        self.indices.as_slice()
    }
}

} // verus!
