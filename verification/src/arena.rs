//! The node arena: owner of every node of one document.
//!
//! Each slot carries a generation counter.  A handle pairs a slot index
//! with the generation the slot had when the node was created; once the
//! node is deleted the slot's generation moves on, and the old handle can
//! never again resolve, not even after the slot is reused.

use vstd::prelude::*;
use crate::node::Attr;
use crate::node::Node;
use crate::node::NodeV;
use crate::node::node_wf;

verus! {

/// A stable reference to a node: the slot index paired with the
/// generation the slot had when the node was created.
#[derive(Clone, Copy, PartialEq, Eq, Structural, Debug)]
pub struct NodeHandle {
    pub idx: usize,
    pub gen: u64,
}

/// One slot of the arena.
pub struct Slot {
    pub gen: u64,
    pub node: Option<Node>,
    pub parent: Option<usize>,
    pub children: Vec<usize>,
}

/// The arena: a vector of slots and the list of dead slots open for reuse.
pub struct Arena {
    pub slots: Vec<Slot>,
    pub free: Vec<usize>,
}

impl Arena {
    /// The number of slots.
    pub open spec fn n(self) -> int {
        self.slots@.len() as int
    }

    /// Whether `i` indexes a slot.
    pub open spec fn in_range(self, i: int) -> bool {
        0 <= i < self.n()
    }

    /// Whether slot `i` holds a live node.
    pub open spec fn live(self, i: int) -> bool {
        self.in_range(i) && self.slots@[i].node is Some
    }

    /// The generation of slot `i`.
    pub open spec fn gen_of(self, i: int) -> u64 {
        self.slots@[i].gen
    }

    /// The view of the node in live slot `i`.
    pub open spec fn node_at(self, i: int) -> NodeV {
        self.slots@[i].node->0@
    }

    /// The parent link of slot `i`.
    pub open spec fn parent_of(self, i: int) -> Option<usize> {
        self.slots@[i].parent
    }

    /// The child list of slot `i`.
    pub open spec fn kids(self, i: int) -> Seq<usize> {
        self.slots@[i].children@
    }

    /// The `j`-th child of slot `i`.
    pub open spec fn kid_at(self, i: int, j: int) -> int {
        self.kids(i)[j] as int
    }

    /// Whether `c` is among the children of `p`.
    pub open spec fn has_kid(self, p: int, c: int) -> bool {
        exists|j: int| 0 <= j < self.kids(p).len() && self.kid_at(p, j) == c
    }

    /// Whether the handle resolves: its slot is live in its generation.
    pub open spec fn ok(self, h: NodeHandle) -> bool {
        self.live(h.idx as int) && self.gen_of(h.idx as int) == h.gen
    }

    /// A handle that can never resolve again: its slot has moved past its
    /// generation, or sits dead at the final generation, never to be
    /// reused.
    pub open spec fn retired(self, h: NodeHandle) -> bool {
        self.in_range(h.idx as int) && (h.gen < self.gen_of(h.idx as int) || (h.gen == self.gen_of(
            h.idx as int,
        ) && !self.live(h.idx as int) && h.gen == u64::MAX))
    }

    /// The `k`-th ancestor of `i`, following parent links; `None` once the
    /// chain has ended.
    pub open spec fn kth_anc(self, i: int, k: nat) -> Option<int>
        decreases k,
    {
        if k == 0 {
            Some(i)
        } else {
            match self.kth_anc(i, (k - 1) as nat) {
                None => None,
                Some(j) => if self.live(j) {
                    match self.parent_of(j) {
                        None => None,
                        Some(p) => Some(p as int),
                    }
                } else {
                    None
                },
            }
        }
    }

    /// Whether `a` is a proper ancestor of `i`.
    pub open spec fn is_anc(self, a: int, i: int) -> bool {
        exists|k: nat| 1 <= k && self.kth_anc(i, k) == Some(a)
    }

    /// Parent links of live slots lead to live slots that list them as
    /// children.
    pub open spec fn parents_ok(self) -> bool {
        forall|i: int|
            self.live(i) ==> match #[trigger] self.parent_of(i) {
                None => true,
                Some(p) => self.live(p as int) && self.has_kid(p as int, i),
            }
    }

    /// Children of live slots are live and point back at their parent.
    pub open spec fn kids_ok(self) -> bool {
        forall|i: int, j: int|
            self.live(i) && 0 <= j < self.kids(i).len() ==> self.live(#[trigger] self.kid_at(i, j))
                && (match self.parent_of(self.kid_at(i, j)) {
                Some(q) => q as int == i,
                None => false,
            })
    }

    /// No child is listed twice.
    pub open spec fn kids_unique(self) -> bool {
        forall|i: int, j1: int, j2: int|
            self.live(i) && 0 <= j1 < j2 < self.kids(i).len() ==> #[trigger] self.kid_at(i, j1)
                != #[trigger] self.kid_at(i, j2)
    }

    /// Dead slots carry no links.
    pub open spec fn dead_clear(self) -> bool {
        forall|i: int|
            self.in_range(i) && !(#[trigger] self.live(i)) ==> self.parent_of(i) is None
                && self.kids(i).len() == 0
    }

    /// The free list points at dead slots whose generation can still move,
    /// and lists no slot twice.
    pub open spec fn free_ok(self) -> bool {
        &&& forall|j: int|
            0 <= j < self.free@.len() ==> self.in_range(#[trigger] self.free@[j] as int) && !self.live(
                self.free@[j] as int,
            ) && self.gen_of(self.free@[j] as int) < u64::MAX
        &&& forall|j1: int, j2: int|
            0 <= j1 < j2 < self.free@.len() ==> #[trigger] self.free@[j1] != #[trigger] self.free@[j2]
        &&& forall|i: int|
            self.in_range(i) && !(#[trigger] self.live(i)) && self.gen_of(i) < u64::MAX
                ==> self.free@.contains(i as usize)
    }

    /// Every live node's payload is well formed.
    pub open spec fn nodes_ok(self) -> bool {
        forall|i: int| #[trigger] self.live(i) ==> node_wf(self.slots@[i].node->0)
    }

    /// Every parent chain ends.
    pub open spec fn acyclic(self) -> bool {
        forall|i: int| #[trigger] self.live(i) ==> exists|k: nat| self.kth_anc(i, k) is None
    }

    /// The arena invariant.
    pub open spec fn wf(self) -> bool {
        &&& self.parents_ok()
        &&& self.kids_ok()
        &&& self.kids_unique()
        &&& self.dead_clear()
        &&& self.free_ok()
        &&& self.nodes_ok()
        &&& self.acyclic()
    }

    /// A slot index, taken to `usize` and back, is itself.
    pub proof fn lemma_idx_cast(self, i: int)
        requires
            0 <= i < self.n(),
        ensures
            (i as usize) as int == i,
    {
        assert(vstd::std_specs::vec::spec_vec_len(&self.slots) == self.slots@.len());
    }

    /// An ancestor chain that has not ended stays among live slots.
    pub proof fn lemma_anc_live(self, i: int, k: nat)
        requires
            self.parents_ok(),
            self.live(i),
        ensures
            self.kth_anc(i, k) matches Some(j) ==> self.live(j),
        decreases k,
    {
        if k > 0 {
            self.lemma_anc_live(i, (k - 1) as nat);
        }
    }

    /// One ancestor step, spelled out.
    pub proof fn lemma_anc_one(self, i: int)
        ensures
            self.kth_anc(i, 1) == (if self.live(i) {
                match self.parent_of(i) {
                    None => None::<int>,
                    Some(p) => Some(p as int),
                }
            } else {
                None::<int>
            }),
    {
        assert(self.kth_anc(i, 0) == Some(i));
    }

    /// Splitting an ancestor chain: `a + b` steps are `a` steps and then
    /// `b` steps.
    pub proof fn lemma_anc_add(self, i: int, a: nat, b: nat)
        ensures
            self.kth_anc(i, a + b) == match self.kth_anc(i, a) {
                None => None::<int>,
                Some(j) => self.kth_anc(j, b),
            },
        decreases b,
    {
        if b == 0 {
        } else {
            self.lemma_anc_add(i, a, (b - 1) as nat);
            assert(a + b == (a + (b - 1) as nat) + 1);
            match self.kth_anc(i, a) {
                None => {
                    assert(self.kth_anc(i, a + b) == self.kth_anc(i, (a + b - 1) as nat));
                },
                Some(j) => {
                    assert(self.kth_anc(i, (a + b) as nat) == match self.kth_anc(
                        i,
                        (a + b - 1) as nat,
                    ) {
                        None => None::<int>,
                        Some(m) => if self.live(m) {
                            match self.parent_of(m) {
                                None => None::<int>,
                                Some(p) => Some(p as int),
                            }
                        } else {
                            None::<int>
                        },
                    });
                },
            }
        }
    }

    /// Once an ancestor chain has ended it stays ended.
    pub proof fn lemma_anc_none_stays(self, i: int, k: nat, m: nat)
        requires
            self.kth_anc(i, k) is None,
            k <= m,
        ensures
            self.kth_anc(i, m) is None,
        decreases m,
    {
        if m > k {
            self.lemma_anc_none_stays(i, k, (m - 1) as nat);
        }
    }

    /// Two arenas with the same liveness and parent links on the live
    /// slots of the first have the same ancestor chains from them.
    pub proof fn lemma_anc_same(self, other: Arena, i: int, k: nat)
        requires
            self.parents_ok(),
            forall|j: int| #[trigger] self.live(j) ==> other.live(j),
            forall|j: int| #[trigger] self.live(j) ==> other.parent_of(j) == self.parent_of(j),
            self.live(i),
        ensures
            other.kth_anc(i, k) == self.kth_anc(i, k),
        decreases k,
    {
        if k > 0 {
            self.lemma_anc_same(other, i, (k - 1) as nat);
            self.lemma_anc_live(i, (k - 1) as nat);
        }
    }

    /// When links are only removed, chains that ended still end.
    pub proof fn lemma_anc_shrink(self, other: Arena, i: int, k: nat)
        requires
            forall|j: int| #[trigger] other.live(j) ==> self.live(j),
            forall|j: int|
                #[trigger] other.live(j) ==> other.parent_of(j) == self.parent_of(j)
                    || other.parent_of(j) is None,
            other.live(i),
            self.kth_anc(i, k) is None,
        ensures
            exists|k2: nat| other.kth_anc(i, k2) is None,
        decreases k,
    {
        if k == 0 {
            assert(false);
        } else {
            other.lemma_anc_one(i);
            self.lemma_anc_one(i);
            match other.parent_of(i) {
                None => {
                    assert(other.kth_anc(i, 1) is None);
                },
                Some(p) => {
                    assert(other.parent_of(i) == self.parent_of(i));
                    assert(self.live(i));
                    assert(self.kth_anc(i, 1) == Some(p as int));
                    self.lemma_anc_add(i, 1, (k - 1) as nat);
                    assert(self.kth_anc(p as int, (k - 1) as nat) is None);
                    if other.live(p as int) {
                        self.lemma_anc_shrink(other, p as int, (k - 1) as nat);
                        let k2 = choose|k2: nat| other.kth_anc(p as int, k2) is None;
                        other.lemma_anc_add(i, 1, k2);
                        assert(other.kth_anc(i, 1) == Some(p as int));
                        assert(other.kth_anc(i, 1 + k2) is None);
                    } else {
                        assert(other.kth_anc(i, 1) == Some(p as int));
                        other.lemma_anc_add(i, 1, 1);
                        assert(other.kth_anc(i, 2) is None);
                    }
                },
            }
        }
    }

    /// A chain that returns to its start keeps returning to it.
    pub proof fn lemma_periodic(self, c: int, p0: nat, m: nat)
        requires
            p0 >= 1,
            self.kth_anc(c, p0) == Some(c),
        ensures
            self.kth_anc(c, m * p0) == Some(c),
        decreases m,
    {
        if m == 0 {
            assert(m * p0 == 0) by (nonlinear_arith)
                requires
                    m == 0,
            ;
            assert(self.kth_anc(c, 0) == Some(c));
        } else {
            self.lemma_periodic(c, p0, (m - 1) as nat);
            assert(m * p0 == (m - 1) as nat * p0 + p0) by (nonlinear_arith)
                requires
                    m >= 1,
            ;
            self.lemma_anc_add(c, ((m - 1) as nat * p0) as nat, p0);
        }
    }

    /// A node's parent is never among its descendants.
    pub proof fn lemma_parent_not_descendant(self, c: int, q: usize)
        requires
            self.wf(),
            self.live(c),
            self.parent_of(c) == Some(q),
        ensures
            !self.is_anc(c, q as int),
    {
        if self.is_anc(c, q as int) {
            let k = choose|k: nat| 1 <= k && self.kth_anc(q as int, k) == Some(c);
            self.lemma_anc_one(c);
            assert(self.kth_anc(c, 1) == Some(q as int));
            self.lemma_anc_add(c, 1, k);
            assert(self.kth_anc(c, 1 + k) == Some(c));
            let p0 = (1 + k) as nat;
            let k0 = choose|k0: nat| self.kth_anc(c, k0) is None;
            self.lemma_periodic(c, p0, k0 + 1);
            assert((k0 + 1) * p0 >= k0) by (nonlinear_arith)
                requires
                    p0 >= 1,
                    k0 >= 0,
            ;
            self.lemma_anc_none_stays(c, k0, ((k0 + 1) * p0) as nat);
            assert(false);
        }
    }

    /// A childless slot stands in no child list, so no ancestor chain
    /// ever reaches it: a freshly created node can be attached anywhere.
    pub proof fn lemma_childless_not_anc(a: Arena, ci: int, start: int, k: nat)
        requires
            a.wf(),
            a.in_range(ci),
            a.kids(ci).len() == 0,
            1 <= k,
        ensures
            a.kth_anc(start, k) != Some(ci),
    {
        if a.kth_anc(start, k) == Some(ci) {
            match a.kth_anc(start, (k - 1) as nat) {
                None => {
                    assert(false);
                },
                Some(j) => {
                    if a.live(j) {
                        match a.parent_of(j) {
                            Some(p) => {
                                assert(p as int == ci);
                                assert(a.live(j));
                                assert(a.has_kid(p as int, j));
                                let jj = choose|jj: int|
                                    0 <= jj < a.kids(ci).len() && a.kid_at(ci, jj) == j;
                                assert(false);
                            },
                            None => {
                                assert(false);
                            },
                        }
                    } else {
                        assert(false);
                    }
                },
            }
        }
    }

    /// A child of a descendant of `c`, or of `c` itself, is again a
    /// descendant of `c`.
    pub proof fn lemma_desc_kid(self, c: int, x: int, j: int)
        requires
            self.wf(),
            self.live(x),
            x == c || self.is_anc(c, x),
            0 <= j < self.kids(x).len(),
        ensures
            self.is_anc(c, self.kid_at(x, j)),
    {
        let e = self.kid_at(x, j);
        assert(self.live(e));
        assert(match self.parent_of(e) {
            Some(q) => q as int == x,
            None => false,
        });
        self.lemma_anc_one(e);
        assert(self.kth_anc(e, 1) == Some(x));
        if x == c {
            assert(self.kth_anc(e, 1) == Some(c));
        } else {
            let k = choose|k: nat| 1 <= k && self.kth_anc(x, k) == Some(c);
            self.lemma_anc_add(e, 1, k);
            assert(self.kth_anc(e, 1 + k) == Some(c));
        }
    }

    /// A proper descendant of `c` has a parent, and that parent is `c` or
    /// again a proper descendant of `c`.
    pub proof fn lemma_desc_parent(self, c: int, x: int)
        requires
            self.wf(),
            self.live(x),
            self.is_anc(c, x),
        ensures
            self.parent_of(x) matches Some(q) && (q as int == c || self.is_anc(c, q as int)),
    {
        let k = choose|k: nat| 1 <= k && self.kth_anc(x, k) == Some(c);
        self.lemma_anc_one(x);
        match self.parent_of(x) {
            None => {
                assert(self.kth_anc(x, 1) is None);
                self.lemma_anc_none_stays(x, 1, k);
                assert(false);
            },
            Some(q) => {
                assert(self.kth_anc(x, 1) == Some(q as int));
                if k == 1 {
                    assert(q as int == c);
                } else {
                    self.lemma_anc_add(x, 1, (k - 1) as nat);
                    assert(self.kth_anc(q as int, (k - 1) as nat) == Some(c));
                    assert(1 <= (k - 1) as nat);
                }
            },
        }
    }

    /// Freeing a closed family of slots, one whose members' children and
    /// parents all stay inside it, leaves the arena well formed.
    proof fn lemma_free_set_wf(mid: Arena, post: Arena, vs: Seq<usize>)
        requires
            mid.wf(),
            vs.no_duplicates(),
            forall|t: int| 0 <= t < vs.len() ==> mid.live(#[trigger] vs[t] as int),
            forall|t: int, j: int|
                0 <= t < vs.len() && 0 <= j < mid.kids(vs[t] as int).len() ==> vs.contains(
                    #[trigger] mid.kids(vs[t] as int)[j],
                ),
            forall|t: int|
                0 <= t < vs.len() ==> (#[trigger] mid.parent_of(vs[t] as int) is None
                    || vs.contains(mid.parent_of(vs[t] as int)->0)),
            post.n() == mid.n(),
            forall|t: int|
                0 <= t < vs.len() ==> !post.live(#[trigger] vs[t] as int) && post.parent_of(
                    vs[t] as int,
                ) is None && post.kids(vs[t] as int).len() == 0 && (mid.gen_of(vs[t] as int)
                    < u64::MAX ==> post.gen_of(vs[t] as int) == mid.gen_of(vs[t] as int) + 1) && (
                mid.gen_of(vs[t] as int) == u64::MAX ==> post.gen_of(vs[t] as int) == u64::MAX),
            forall|i: int|
                0 <= i < mid.n() && !vs.contains(i as usize) ==> #[trigger] post.slots@[i]
                    == mid.slots@[i],
            post.free@.len() >= mid.free@.len(),
            forall|j: int| 0 <= j < mid.free@.len() ==> #[trigger] post.free@[j] == mid.free@[j],
            forall|j: int|
                mid.free@.len() <= j < post.free@.len() ==> vs.contains(#[trigger] post.free@[j])
                    && post.gen_of(post.free@[j] as int) < u64::MAX,
            forall|j1: int, j2: int|
                0 <= j1 < j2 < post.free@.len() ==> #[trigger] post.free@[j1]
                    != #[trigger] post.free@[j2],
            forall|t: int|
                0 <= t < vs.len() && post.gen_of(#[trigger] vs[t] as int) < u64::MAX
                    ==> post.free@.contains(vs[t]),
        ensures
            post.wf(),
    {
        assert forall|i: int| #[trigger] post.live(i) implies mid.live(i) && !vs.contains(
            i as usize,
        ) && post.slots@[i] == mid.slots@[i] by {
            post.lemma_idx_cast(i);
            if vs.contains(i as usize) {
                let t = choose|t: int| 0 <= t < vs.len() && vs[t] == i as usize;
                assert(vs[t] as int == i);
                assert(!post.live(vs[t] as int));
            }
        }
        assert forall|i: int|
            0 <= i < mid.n() && mid.live(i) && !vs.contains(i as usize) implies post.live(i) by {
            mid.lemma_idx_cast(i);
            assert(post.slots@[i] == mid.slots@[i]);
        }
        assert(post.parents_ok()) by {
            assert forall|i: int| post.live(i) implies (match #[trigger] post.parent_of(i) {
                None => true,
                Some(q) => post.live(q as int) && post.has_kid(q as int, i),
            }) by {
                assert(post.parent_of(i) == mid.parent_of(i));
                match mid.parent_of(i) {
                    None => {},
                    Some(q) => {
                        let qi = q as int;
                        assert(mid.live(qi));
                        assert(!vs.contains(q)) by {
                            if vs.contains(q) {
                                let t = choose|t: int| 0 <= t < vs.len() && vs[t] == q;
                                let jj = choose|jj: int|
                                    0 <= jj < mid.kids(qi).len() && mid.kid_at(qi, jj) == i;
                                assert(vs.contains(mid.kids(vs[t] as int)[jj]));
                                assert(mid.kids(qi)[jj] == i as usize);
                                assert(vs.contains(i as usize));
                            }
                        }
                        assert(post.slots@[qi] == mid.slots@[qi]);
                        assert(post.live(qi));
                        let jj = choose|jj: int|
                            0 <= jj < mid.kids(qi).len() && mid.kid_at(qi, jj) == i;
                        assert(post.kid_at(qi, jj) == i);
                    },
                }
            }
        }
        assert(post.kids_ok()) by {
            assert forall|i: int, j: int|
                post.live(i) && 0 <= j < post.kids(i).len() implies post.live(
                #[trigger] post.kid_at(i, j),
            ) && (match post.parent_of(post.kid_at(i, j)) {
                Some(q) => q as int == i,
                None => false,
            }) by {
                assert(post.kids(i) == mid.kids(i));
                let e = mid.kid_at(i, j);
                assert(mid.live(e));
                assert(match mid.parent_of(e) {
                    Some(q) => q as int == i,
                    None => false,
                });
                assert(!vs.contains(e as usize)) by {
                    if vs.contains(e as usize) {
                        let t = choose|t: int| 0 <= t < vs.len() && vs[t] == e as usize;
                        assert(mid.parent_of(vs[t] as int) is None || vs.contains(
                            mid.parent_of(vs[t] as int)->0,
                        ));
                        assert(vs.contains(i as usize));
                    }
                }
                assert(post.slots@[e] == mid.slots@[e]);
            }
        }
        assert(post.kids_unique()) by {
            assert forall|i: int, j1: int, j2: int|
                post.live(i) && 0 <= j1 < j2 < post.kids(i).len() implies #[trigger] post.kid_at(
                i,
                j1,
            ) != #[trigger] post.kid_at(i, j2) by {
                assert(post.kids(i) == mid.kids(i));
                assert(mid.kid_at(i, j1) == post.kid_at(i, j1));
                assert(mid.kid_at(i, j2) == post.kid_at(i, j2));
            }
        }
        assert(post.dead_clear()) by {
            assert forall|i: int|
                post.in_range(i) && !(#[trigger] post.live(i)) implies post.parent_of(i) is None
                && post.kids(i).len() == 0 by {
                post.lemma_idx_cast(i);
                if vs.contains(i as usize) {
                    let t = choose|t: int| 0 <= t < vs.len() && vs[t] == i as usize;
                    assert(vs[t] as int == i);
                    assert(post.parent_of(vs[t] as int) is None);
                    assert(post.kids(vs[t] as int).len() == 0);
                } else {
                    assert(post.slots@[i] == mid.slots@[i]);
                    assert(!mid.live(i));
                }
            }
        }
        assert(post.free_ok()) by {
            assert forall|j: int| 0 <= j < post.free@.len() implies post.in_range(
                #[trigger] post.free@[j] as int,
            ) && !post.live(post.free@[j] as int) && post.gen_of(post.free@[j] as int)
                < u64::MAX by {
                if j < mid.free@.len() {
                    let e = mid.free@[j];
                    assert(!vs.contains(e)) by {
                        if vs.contains(e) {
                            let t = choose|t: int| 0 <= t < vs.len() && vs[t] == e;
                            assert(mid.live(vs[t] as int));
                            assert(!mid.live(e as int));
                        }
                    }
                    assert(post.slots@[e as int] == mid.slots@[e as int]);
                } else {
                    let e = post.free@[j];
                    assert(vs.contains(e));
                    let t = choose|t: int| 0 <= t < vs.len() && vs[t] == e;
                    assert(!post.live(vs[t] as int));
                    assert(mid.live(vs[t] as int));
                }
            }
            assert forall|i: int|
                post.in_range(i) && !(#[trigger] post.live(i)) && post.gen_of(i)
                    < u64::MAX implies post.free@.contains(i as usize) by {
                post.lemma_idx_cast(i);
                if vs.contains(i as usize) {
                    let t = choose|t: int| 0 <= t < vs.len() && vs[t] == i as usize;
                    assert(vs[t] as int == i);
                    assert(post.gen_of(vs[t] as int) < u64::MAX);
                    assert(post.free@.contains(vs[t]));
                } else {
                    assert(post.slots@[i] == mid.slots@[i]);
                    assert(!mid.live(i) && mid.gen_of(i) == post.gen_of(i));
                    assert(mid.free@.contains(i as usize));
                    let jj = choose|jj: int|
                        0 <= jj < mid.free@.len() && mid.free@[jj] == i as usize;
                    assert(post.free@[jj] == i as usize);
                }
            }
        }
        assert(post.nodes_ok()) by {
            assert forall|i: int| #[trigger] post.live(i) implies node_wf(
                post.slots@[i].node->0,
            ) by {
                assert(post.slots@[i].node == mid.slots@[i].node);
            }
        }
        assert(post.acyclic()) by {
            assert forall|i: int| #[trigger] post.live(i) implies exists|k: nat|
                post.kth_anc(i, k) is None by {
                let k = choose|k: nat| mid.kth_anc(i, k) is None;
                assert forall|j: int| #[trigger] post.live(j) implies mid.live(j) by {}
                assert forall|j: int| #[trigger] post.live(j) implies post.parent_of(j)
                    == mid.parent_of(j) || post.parent_of(j) is None by {
                    assert(post.slots@[j] == mid.slots@[j]);
                }
                mid.lemma_anc_shrink(post, i, k);
            }
        }
    }

    /// The slots holding `c` and every node below it, in slot order.
    fn collect_subtree_slots(&self, c: usize) -> (r: Vec<usize>)
        requires
            self.wf(),
            self.live(c as int),
        ensures
            r@.no_duplicates(),
            forall|t: int|
                0 <= t < r@.len() ==> self.live(#[trigger] r@[t] as int) && (r@[t] == c
                    || self.is_anc(c as int, r@[t] as int)),
            forall|x: int|
                self.live(x) && (x == c as int || self.is_anc(c as int, x)) ==> r@.contains(
                    x as usize,
                ),
            r@.contains(c),
    {
        let n = self.slots.len();
        let mut r: Vec<usize> = Vec::new();
        let mut i: usize = 0;
        while i < n
            invariant
                self.wf(),
                self.live(c as int),
                n == self.n(),
                i <= n,
                forall|t1: int, t2: int|
                    0 <= t1 < t2 < r@.len() ==> #[trigger] r@[t1] < #[trigger] r@[t2],
                forall|t: int| 0 <= t < r@.len() ==> (#[trigger] r@[t] as int) < i,
                forall|t: int|
                    0 <= t < r@.len() ==> self.live(#[trigger] r@[t] as int) && (r@[t] == c
                        || self.is_anc(c as int, r@[t] as int)),
                forall|x: int|
                    0 <= x < i && self.live(x) && (x == c as int || self.is_anc(c as int, x))
                        ==> r@.contains(x as usize),
            decreases n - i,
        {
            let ghost prev = r@;
            if self.slots[i].node.is_some() {
                if i == c || self.is_ancestor(c, i) {
                    r.push(i);
                    proof {
                        assert(r@[r@.len() - 1] == i);
                        assert forall|x: int|
                            0 <= x < i + 1 && self.live(x) && (x == c as int || self.is_anc(
                                c as int,
                                x,
                            )) implies r@.contains(x as usize) by {
                            if x < i {
                                assert(prev.contains(x as usize));
                                let t = choose|t: int| 0 <= t < prev.len() && prev[t] == x as usize;
                                assert(r@[t] == x as usize);
                            }
                        }
                    }
                }
            }
            i = i + 1;
        }
        proof {
            assert(r@.contains(c)) by {
                assert(self.live(c as int));
            }
            assert forall|t1: int, t2: int|
                0 <= t1 < t2 < r@.len() implies #[trigger] r@[t1] != #[trigger] r@[t2] by {}
        }
        r
    }

    /// What holds after the single node in slot `c` is deleted: the slot
    /// is retired, `c`'s children stay allocated but become parentless,
    /// `c`'s old parent loses it, and everything else stays.
    pub open spec fn delete_post(pre: Arena, post: Arena, c: usize) -> bool {
        let ci = c as int;
        &&& post.n() == pre.n()
        &&& !post.live(ci)
        &&& (pre.gen_of(ci) < u64::MAX ==> post.gen_of(ci) == pre.gen_of(ci) + 1)
        &&& (pre.gen_of(ci) == u64::MAX ==> post.gen_of(ci) == u64::MAX)
        &&& forall|i: int|
            0 <= i < pre.n() && i != ci ==> (#[trigger] post.live(i)) == pre.live(i)
                && post.gen_of(i) == pre.gen_of(i) && post.slots@[i].node == pre.slots@[i].node
        &&& forall|j: int|
            0 <= j < pre.kids(ci).len() ==> post.parent_of(#[trigger] pre.kid_at(ci, j)) is None
                && post.kids(pre.kid_at(ci, j)) == pre.kids(pre.kid_at(ci, j))
        &&& match pre.parent_of(ci) {
            None => true,
            Some(q) => post.kids(q as int) == pre.kids(q as int).remove_value(c)
                && post.parent_of(q as int) == pre.parent_of(q as int),
        }
        &&& forall|i: int|
            0 <= i < pre.n() && i != ci && !pre.has_kid(ci, i) && (match pre.parent_of(ci) {
                Some(q) => i != q as int,
                None => true,
            }) ==> #[trigger] post.slots@[i] == pre.slots@[i]
        &&& forall|i: int|
            0 <= i < pre.n() && i != ci && !pre.has_kid(ci, i) ==> #[trigger] post.parent_of(i)
                == pre.parent_of(i)
        &&& forall|i: int|
            0 <= i < pre.n() && i != ci && (match pre.parent_of(ci) {
                Some(q) => i != q as int,
                None => true,
            }) ==> #[trigger] post.kids(i) == pre.kids(i)
    }

    /// Deletes the single node the handle addresses.  Its children stay
    /// allocated and become parentless orphans; the handle itself, and
    /// any other handle to this slot's generation, can never resolve
    /// again.  A stale handle leaves the arena unchanged.
    #[verifier::rlimit(60)]
    pub fn remove(&mut self, h: NodeHandle)
        requires
            old(self).wf(),
        ensures
            final(self).wf(),
            !old(self).ok(h) ==> *final(self) == *old(self),
            old(self).ok(h) ==> Arena::delete_post(*old(self), *final(self), h.idx)
                && final(self).retired(h),
            forall|h2: NodeHandle|
                #[trigger] old(self).ok(h2) && h2.idx != h.idx ==> final(self).ok(h2)
                    && final(self).node_at(h2.idx as int) == old(self).node_at(h2.idx as int),
            forall|h2: NodeHandle| #[trigger] old(self).retired(h2) ==> final(self).retired(h2),
            final(self).n() == old(self).n(),
    {
        let ghost pre = *self;
        if !self.is_ok(h) {
            return ;
        }
        let c = h.idx;
        self.detach(h);
        let ghost mid = *self;
        proof {
            assert(Arena::detach_post(pre, mid, c));
            assert(mid.live(c as int) && mid.parent_of(c as int) is None);
            assert(mid.kids(c as int) == pre.kids(c as int));
            mid.lemma_parentless_not_kid(c as int);
        }
        // orphan the children
        let nk = self.slots[c].children.len();
        let mut t: usize = 0;
        while t < nk
            invariant
                pre == *old(self),
                pre.wf(),
                pre.ok(h),
                c == h.idx,
                Arena::detach_post(pre, mid, c),
                mid.wf(),
                mid.live(c as int),
                mid.parent_of(c as int) is None,
                forall|q: int, j: int|
                    mid.live(q) && 0 <= j < mid.kids(q).len() ==> #[trigger] mid.kid_at(q, j)
                        != c as int,
                t <= nk,
                nk == mid.kids(c as int).len(),
                self.n() == mid.n(),
                self.free@ == mid.free@,
                self.slots@[c as int] == mid.slots@[c as int],
                forall|j: int|
                    0 <= j < t ==> {
                        let e = #[trigger] mid.kid_at(c as int, j);
                        self.parent_of(e) is None && self.slots@[e].node == mid.slots@[e].node
                            && self.slots@[e].gen == mid.slots@[e].gen && self.slots@[e].children
                            == mid.slots@[e].children
                    },
                forall|i: int|
                    0 <= i < mid.n() && !(exists|j: int|
                        0 <= j < t && #[trigger] mid.kid_at(c as int, j) == i)
                        ==> #[trigger] self.slots@[i] == mid.slots@[i],
            decreases nk - t,
        {
            let ch = self.slots[c].children[t];
            proof {
                assert(mid.kids(c as int)[t as int] == ch);
                assert(mid.kid_at(c as int, t as int) == ch as int);
                assert(mid.live(ch as int));
            }
            self.slots[ch].parent = None;
            proof {
                assert forall|j: int|
                    0 <= j < t + 1 implies {
                        let e = #[trigger] mid.kid_at(c as int, j);
                        self.parent_of(e) is None && self.slots@[e].node == mid.slots@[e].node
                            && self.slots@[e].gen == mid.slots@[e].gen && self.slots@[e].children
                            == mid.slots@[e].children
                    } by {
                    let e = mid.kid_at(c as int, j);
                    if j < t {
                        if e == ch as int {
                            assert(mid.kid_at(c as int, j) == mid.kid_at(c as int, t as int));
                        }
                    }
                }
            }
            t = t + 1;
        }
        // clear the child list and retire the slot
        self.slots[c].children = Vec::new();
        self.slots[c].node = None;
        let g = self.slots[c].gen;
        if g < u64::MAX {
            self.slots[c].gen = g + 1;
            if g + 1 < u64::MAX {
                self.free.push(c);
            }
        }
        proof {
            let post = *self;
            // the intermediate arena with children orphaned and the list
            // cleared, before the slot itself went away
            assert forall|i: int|
                0 <= i < mid.n() && i != c as int && !mid.has_kid(c as int, i)
                    implies #[trigger] post.slots@[i] == mid.slots@[i] by {}
            let vs = seq![c];
            assert(vs.no_duplicates());
            assert forall|tt: int| 0 <= tt < vs.len() implies mid.live(
                #[trigger] vs[tt] as int,
            ) by {}
            Arena::lemma_remove_one_wf(mid, post, c);
            Arena::lemma_remove_compose(pre, mid, post, c);
        }
    }

    /// The single-node delete, seen end to end: the state after the
    /// detach and the state after the children were orphaned and the slot
    /// retired combine into the published relation.
    proof fn lemma_remove_compose(pre: Arena, mid: Arena, post: Arena, c: usize)
        requires
            pre.wf(),
            pre.live(c as int),
            Arena::detach_post(pre, mid, c),
            mid.wf(),
            post.n() == mid.n(),
            !post.live(c as int),
            mid.gen_of(c as int) < u64::MAX ==> post.gen_of(c as int) == mid.gen_of(c as int) + 1,
            mid.gen_of(c as int) == u64::MAX ==> post.gen_of(c as int) == u64::MAX,
            forall|j: int|
                0 <= j < mid.kids(c as int).len() ==> {
                    let e = #[trigger] mid.kid_at(c as int, j);
                    post.parent_of(e) is None && post.slots@[e].node == mid.slots@[e].node
                        && post.slots@[e].gen == mid.slots@[e].gen && post.slots@[e].children
                        == mid.slots@[e].children
                },
            forall|i: int|
                0 <= i < mid.n() && i != c as int && !mid.has_kid(c as int, i)
                    ==> #[trigger] post.slots@[i] == mid.slots@[i],
        ensures
            Arena::delete_post(pre, post, c),
    {
        let ci = c as int;
        assert(mid.live(ci));
        assert(mid.kids(ci) == pre.kids(ci));
        assert forall|i: int|
            0 <= i < pre.n() && i != ci implies (#[trigger] post.live(i)) == pre.live(i)
            && post.gen_of(i) == pre.gen_of(i) && post.slots@[i].node == pre.slots@[i].node by {
            assert(mid.live(i) == pre.live(i) && mid.gen_of(i) == pre.gen_of(i)
                && mid.slots@[i].node == pre.slots@[i].node);
            if mid.has_kid(ci, i) {
                let j = choose|j: int| 0 <= j < mid.kids(ci).len() && mid.kid_at(ci, j) == i;
                assert(post.slots@[i].node == mid.slots@[i].node && post.slots@[i].gen
                    == mid.slots@[i].gen);
            } else {
                assert(post.slots@[i] == mid.slots@[i]);
            }
        }
        assert forall|j: int|
            0 <= j < pre.kids(ci).len() implies post.parent_of(
            #[trigger] pre.kid_at(ci, j),
        ) is None && post.kids(pre.kid_at(ci, j)) == pre.kids(pre.kid_at(ci, j)) by {
            let e = pre.kid_at(ci, j);
            assert(mid.kid_at(ci, j) == e);
            assert(post.parent_of(e) is None);
            assert(post.slots@[e].children == mid.slots@[e].children);
            assert(mid.live(e)) by {
                assert(mid.kid_at(ci, j) == e);
            }
            assert(e != ci) by {
                mid.lemma_parentless_not_kid(ci);
            }
            assert(mid.slots@[e] == pre.slots@[e]) by {
                match pre.parent_of(ci) {
                    None => {
                        assert(mid.slots@ == pre.slots@);
                    },
                    Some(q) => {
                        if e == q as int {
                            // e would be both parent and child of c
                            assert(match mid.parent_of(e) {
                                Some(z) => z as int == ci,
                                None => false,
                            });
                            assert(mid.parent_of(q as int) == pre.parent_of(q as int));
                            assert(pre.parent_of(e) == Some(c));
                            pre.lemma_anc_one(e);
                            assert(pre.kth_anc(e, 1) == Some(ci));
                            pre.lemma_anc_one(ci);
                            assert(pre.kth_anc(ci, 1) == Some(e));
                            pre.lemma_anc_add(e, 1, 1);
                            assert(pre.kth_anc(e, 2) == Some(e));
                            let k0 = choose|k0: nat| pre.kth_anc(e, k0) is None;
                            pre.lemma_periodic(e, 2, k0 + 1);
                            assert((k0 + 1) * 2 >= k0) by (nonlinear_arith)
                                requires
                                    k0 >= 0,
                            ;
                            pre.lemma_anc_none_stays(e, k0, ((k0 + 1) * 2) as nat);
                            assert(false);
                        } else {
                            assert(mid.slots@[e] == pre.slots@[e]);
                        }
                    },
                }
            }
        }
        match pre.parent_of(ci) {
            None => {},
            Some(q) => {
                pre.lemma_no_self_parent(ci);
                assert(mid.kids(q as int) == pre.kids(q as int).remove_value(c));
                assert(mid.parent_of(q as int) == pre.parent_of(q as int));
                assert(!mid.has_kid(ci, q as int)) by {
                    if mid.has_kid(ci, q as int) {
                        let j = choose|j: int|
                            0 <= j < mid.kids(ci).len() && mid.kid_at(ci, j) == q as int;
                        assert(match mid.parent_of(q as int) {
                            Some(z) => z as int == ci,
                            None => false,
                        });
                        assert(pre.parent_of(q as int) == Some(c));
                        assert(pre.live(q as int));
                        pre.lemma_anc_one(q as int);
                        assert(pre.kth_anc(q as int, 1) == Some(ci));
                        pre.lemma_anc_one(ci);
                        assert(pre.kth_anc(ci, 1) == Some(q as int));
                        pre.lemma_anc_add(q as int, 1, 1);
                        assert(pre.kth_anc(q as int, 2) == Some(q as int));
                        let k0 = choose|k0: nat| pre.kth_anc(q as int, k0) is None;
                        pre.lemma_periodic(q as int, 2, k0 + 1);
                        assert((k0 + 1) * 2 >= k0) by (nonlinear_arith)
                            requires
                                k0 >= 0,
                        ;
                        pre.lemma_anc_none_stays(q as int, k0, ((k0 + 1) * 2) as nat);
                        assert(false);
                    }
                }
                assert(q as int != ci);
                assert(post.slots@[q as int] == mid.slots@[q as int]);
            },
        }
        assert forall|i: int|
            0 <= i < pre.n() && i != ci && !pre.has_kid(ci, i) && (match pre.parent_of(ci) {
                Some(q) => i != q as int,
                None => true,
            }) implies #[trigger] post.slots@[i] == pre.slots@[i] by {
            assert(mid.slots@[i] == pre.slots@[i]);
            assert(!mid.has_kid(ci, i)) by {
                if mid.has_kid(ci, i) {
                    let j = choose|j: int| 0 <= j < mid.kids(ci).len() && mid.kid_at(ci, j) == i;
                    assert(pre.kid_at(ci, j) == i);
                    assert(pre.has_kid(ci, i));
                }
            }
            assert(post.slots@[i] == mid.slots@[i]);
        }
        assert forall|i: int|
            0 <= i < pre.n() && i != ci && !pre.has_kid(ci, i) implies #[trigger] post.parent_of(
            i,
        ) == pre.parent_of(i) by {
            assert(!mid.has_kid(ci, i)) by {
                if mid.has_kid(ci, i) {
                    let j = choose|j: int| 0 <= j < mid.kids(ci).len() && mid.kid_at(ci, j) == i;
                    assert(pre.kid_at(ci, j) == i);
                    assert(pre.has_kid(ci, i));
                }
            }
            assert(post.slots@[i] == mid.slots@[i]);
            match pre.parent_of(ci) {
                None => {
                    assert(mid.slots@ == pre.slots@);
                },
                Some(q) => {
                    if i == q as int {
                        assert(mid.parent_of(q as int) == pre.parent_of(q as int));
                    } else {
                        assert(mid.slots@[i] == pre.slots@[i]);
                    }
                },
            }
        }
        assert forall|i: int|
            0 <= i < pre.n() && i != ci && (match pre.parent_of(ci) {
                Some(q) => i != q as int,
                None => true,
            }) implies #[trigger] post.kids(i) == pre.kids(i) by {
            assert(mid.slots@[i] == pre.slots@[i]);
            if mid.has_kid(ci, i) {
                let j = choose|j: int| 0 <= j < mid.kids(ci).len() && mid.kid_at(ci, j) == i;
                assert(post.slots@[i].children == mid.slots@[i].children);
            } else {
                assert(post.slots@[i] == mid.slots@[i]);
            }
        }
    }

    /// Whether `x` is `c` or a node below `c`.
    pub open spec fn in_subtree(self, c: int, x: int) -> bool {
        x == c || self.is_anc(c, x)
    }

    /// Detaches the subtree at the handle and deallocates every node in
    /// it, the addressed node and all its descendants; all their handles
    /// can never resolve again.  A stale handle leaves the arena
    /// unchanged.
    #[verifier::rlimit(60)]
    pub fn remove_subtree(&mut self, h: NodeHandle)
        requires
            old(self).wf(),
        ensures
            final(self).wf(),
            !old(self).ok(h) ==> *final(self) == *old(self),
            old(self).ok(h) ==> {
                &&& forall|i: int|
                    0 <= i < old(self).n() ==> ((#[trigger] final(self).live(i)) <==> (old(
                        self,
                    ).live(i) && !old(self).in_subtree(h.idx as int, i)))
                &&& final(self).retired(h)
                &&& forall|h2: NodeHandle|
                    #[trigger] old(self).ok(h2) && old(self).in_subtree(
                        h.idx as int,
                        h2.idx as int,
                    ) ==> final(self).retired(h2)
                &&& forall|h2: NodeHandle|
                    #[trigger] old(self).ok(h2) && !old(self).in_subtree(
                        h.idx as int,
                        h2.idx as int,
                    ) ==> final(self).ok(h2) && final(self).node_at(h2.idx as int) == old(
                        self,
                    ).node_at(h2.idx as int)
                &&& match old(self).parent_of(h.idx as int) {
                    Some(q) => final(self).kids(q as int) == old(self).kids(
                        q as int,
                    ).remove_value(h.idx) && final(self).parent_of(q as int) == old(
                        self,
                    ).parent_of(q as int),
                    None => true,
                }
                &&& forall|i: int|
                    0 <= i < old(self).n() && final(self).live(i) && (match old(self).parent_of(
                        h.idx as int,
                    ) {
                        Some(q) => i != q as int,
                        None => true,
                    }) ==> #[trigger] final(self).slots@[i] == old(self).slots@[i]
            },
            forall|h2: NodeHandle| #[trigger] old(self).retired(h2) ==> final(self).retired(h2),
            final(self).n() == old(self).n(),
    {
        let ghost pre = *self;
        if !self.is_ok(h) {
            return ;
        }
        let c = h.idx;
        let victims = self.collect_subtree_slots(c);
        self.detach(h);
        let ghost mid = *self;
        let ghost vs = victims@;
        proof {
            assert(Arena::detach_post(pre, mid, c));
            pre.lemma_no_self_parent(c as int);
            match pre.parent_of(c as int) {
                None => {},
                Some(q) => {
                    pre.lemma_parent_not_descendant(c as int, q);
                    assert(!vs.contains(q)) by {
                        if vs.contains(q) {
                            let t = choose|t: int| 0 <= t < vs.len() && vs[t] == q;
                            assert(vs[t] == c || pre.is_anc(c as int, vs[t] as int));
                        }
                    }
                },
            }
            assert forall|t: int| 0 <= t < vs.len() implies #[trigger] mid.slots@[vs[t] as int].node
                == pre.slots@[vs[t] as int].node && mid.live(vs[t] as int) && mid.kids(
                vs[t] as int,
            ) == pre.kids(vs[t] as int) by {
                let x = vs[t] as int;
                assert(pre.live(x));
                if vs[t] == c {
                    assert(mid.kids(c as int) == pre.kids(c as int));
                } else {
                    match pre.parent_of(c as int) {
                        None => {
                            assert(mid.slots@ == pre.slots@);
                        },
                        Some(q) => {
                            assert(vs[t] != q);
                            assert(mid.slots@[x] == pre.slots@[x]);
                        },
                    }
                }
            }
            // the family is closed inside `mid`
            assert forall|t: int, j: int|
                0 <= t < vs.len() && 0 <= j < mid.kids(vs[t] as int).len() implies vs.contains(
                    #[trigger] mid.kids(vs[t] as int)[j],
                ) by {
                let x = vs[t] as int;
                assert(mid.kids(x) == pre.kids(x));
                pre.lemma_desc_kid(c as int, x, j);
                assert(pre.is_anc(c as int, pre.kid_at(x, j)));
                assert(pre.live(pre.kid_at(x, j)));
                assert(vs.contains(pre.kids(x)[j]));
            }
            assert forall|t: int|
                0 <= t < vs.len() implies (#[trigger] mid.parent_of(vs[t] as int) is None
                    || vs.contains(mid.parent_of(vs[t] as int)->0)) by {
                let x = vs[t] as int;
                if vs[t] == c {
                    assert(mid.parent_of(c as int) is None);
                } else {
                    assert(pre.is_anc(c as int, x));
                    pre.lemma_desc_parent(c as int, x);
                    match pre.parent_of(x) {
                        None => {
                            assert(false);
                        },
                        Some(qq) => {
                            assert(qq as int == c as int || pre.is_anc(c as int, qq as int));
                            assert(pre.live(qq as int));
                            assert(vs.contains(qq));
                            assert(mid.parent_of(x) == pre.parent_of(x)) by {
                                match pre.parent_of(c as int) {
                                    None => {
                                        assert(mid.slots@ == pre.slots@);
                                    },
                                    Some(q2) => {
                                        assert(vs[t] != q2);
                                        assert(mid.slots@[x] == pre.slots@[x]);
                                    },
                                }
                            }
                        },
                    }
                }
            }
        }
        // retire every slot of the family
        let nv = victims.len();
        let mut t: usize = 0;
        while t < nv
            invariant
                pre == *old(self),
                pre.wf(),
                pre.ok(h),
                c == h.idx,
                Arena::detach_post(pre, mid, c),
                mid.wf(),
                vs == victims@,
                nv == vs.len(),
                t <= nv,
                vs.no_duplicates(),
                forall|u: int| 0 <= u < vs.len() ==> mid.live(#[trigger] vs[u] as int),
                self.n() == mid.n(),
                forall|u: int|
                    0 <= u < t ==> {
                        let x = #[trigger] vs[u] as int;
                        !self.live(x) && self.parent_of(x) is None && self.kids(x).len() == 0 && (
                        mid.gen_of(x) < u64::MAX ==> self.gen_of(x) == mid.gen_of(x) + 1) && (
                        mid.gen_of(x) == u64::MAX ==> self.gen_of(x) == u64::MAX)
                    },
                forall|i: int|
                    0 <= i < mid.n() && !vs.take(t as int).contains(i as usize)
                        ==> #[trigger] self.slots@[i] == mid.slots@[i],
                self.free@.len() >= mid.free@.len(),
                forall|j: int| 0 <= j < mid.free@.len() ==> #[trigger] self.free@[j]
                    == mid.free@[j],
                forall|j: int|
                    mid.free@.len() <= j < self.free@.len() ==> vs.take(t as int).contains(
                        #[trigger] self.free@[j],
                    ) && self.gen_of(self.free@[j] as int) < u64::MAX,
                forall|j1: int, j2: int|
                    0 <= j1 < j2 < self.free@.len() ==> #[trigger] self.free@[j1]
                        != #[trigger] self.free@[j2],
                forall|u: int|
                    0 <= u < t && self.gen_of(#[trigger] vs[u] as int) < u64::MAX
                        ==> self.free@.contains(vs[u]),
            decreases nv - t,
        {
            let x = victims[t];
            proof {
                assert(vs[t as int] == x);
                assert(!vs.take(t as int).contains(x)) by {
                    if vs.take(t as int).contains(x) {
                        let u = choose|u: int| 0 <= u < t && vs.take(t as int)[u] == x;
                        assert(vs[u] == x);
                    }
                }
                assert(self.slots@[x as int] == mid.slots@[x as int]);
                assert(mid.live(x as int));
            }
            let ghost before = *self;
            self.slots[x].node = None;
            self.slots[x].parent = None;
            self.slots[x].children = Vec::new();
            let g = self.slots[x].gen;
            if g < u64::MAX {
                self.slots[x].gen = g + 1;
                if g + 1 < u64::MAX {
                    proof {
                        assert(!self.free@.contains(x)) by {
                            if self.free@.contains(x) {
                                let j = choose|j: int|
                                    0 <= j < self.free@.len() && self.free@[j] == x;
                                if j < mid.free@.len() {
                                    assert(mid.free@[j] == x);
                                    assert(!mid.live(mid.free@[j] as int));
                                } else {
                                    assert(vs.take(t as int).contains(x));
                                }
                            }
                        }
                    }
                    self.free.push(x);
                }
            }
            proof {
                assert forall|i: int|
                    0 <= i < mid.n() && !vs.take(t as int + 1).contains(i as usize)
                        implies #[trigger] self.slots@[i] == mid.slots@[i] by {
                    assert(!vs.take(t as int).contains(i as usize)) by {
                        if vs.take(t as int).contains(i as usize) {
                            let u = choose|u: int|
                                0 <= u < t && vs.take(t as int)[u] == i as usize;
                            assert(vs.take(t as int + 1)[u] == i as usize);
                        }
                    }
                    assert(i != x as int) by {
                        mid.lemma_idx_cast(i);
                        if i == x as int {
                            assert(vs.take(t as int + 1)[t as int] == x);
                        }
                    }
                    assert(before.slots@[i] == mid.slots@[i]);
                }
                assert forall|u: int|
                    0 <= u < t + 1 implies {
                        let x2 = #[trigger] vs[u] as int;
                        !self.live(x2) && self.parent_of(x2) is None && self.kids(x2).len() == 0
                            && (mid.gen_of(x2) < u64::MAX ==> self.gen_of(x2) == mid.gen_of(x2)
                            + 1) && (mid.gen_of(x2) == u64::MAX ==> self.gen_of(x2) == u64::MAX)
                    } by {
                    if u < t {
                        assert(vs[u] != vs[t as int]);
                        assert(self.slots@[vs[u] as int] == before.slots@[vs[u] as int]);
                    }
                }
                assert forall|j: int|
                    mid.free@.len() <= j < self.free@.len() implies vs.take(t as int + 1).contains(
                        #[trigger] self.free@[j],
                    ) && self.gen_of(self.free@[j] as int) < u64::MAX by {
                    if j < before.free@.len() {
                        assert(before.free@[j] == self.free@[j]);
                        assert(vs.take(t as int).contains(self.free@[j]));
                        let u = choose|u: int|
                            0 <= u < t && vs.take(t as int)[u] == self.free@[j];
                        assert(vs.take(t as int + 1)[u] == self.free@[j]);
                        assert(self.free@[j] != vs[t as int]);
                        assert(self.gen_of(self.free@[j] as int) == before.gen_of(
                            self.free@[j] as int,
                        ));
                    } else {
                        assert(self.free@[j] == x);
                        assert(vs.take(t as int + 1)[t as int] == x);
                    }
                }
                assert forall|u: int|
                    0 <= u < t + 1 && self.gen_of(#[trigger] vs[u] as int)
                        < u64::MAX implies self.free@.contains(vs[u]) by {
                    if u < t {
                        assert(vs[u] != vs[t as int]);
                        assert(self.gen_of(vs[u] as int) == before.gen_of(vs[u] as int));
                        assert(before.free@.contains(vs[u]));
                        let j = choose|j: int|
                            0 <= j < before.free@.len() && before.free@[j] == vs[u];
                        assert(self.free@[j] == vs[u]);
                    } else {
                        if self.gen_of(vs[u] as int) < u64::MAX {
                            assert(self.free@[self.free@.len() - 1] == x);
                        }
                    }
                }
            }
            t = t + 1;
        }
        proof {
            let post = *self;
            assert(vs.take(nv as int) =~= vs);
            Arena::lemma_free_set_wf(mid, post, vs);
            // the published relation
            assert forall|i: int|
                0 <= i < pre.n() implies ((#[trigger] post.live(i)) <==> (pre.live(i)
                && !pre.in_subtree(c as int, i))) by {
                pre.lemma_idx_cast(i);
                if vs.contains(i as usize) {
                    let u = choose|u: int| 0 <= u < vs.len() && vs[u] == i as usize;
                    assert(!post.live(vs[u] as int));
                    assert(pre.in_subtree(c as int, i));
                } else {
                    assert(post.slots@[i] == mid.slots@[i]);
                    assert(post.live(i) == mid.live(i));
                    assert(mid.live(i) == pre.live(i));
                    if pre.live(i) && pre.in_subtree(c as int, i) {
                        assert(vs.contains(i as usize));
                    }
                }
            }
            assert forall|h2: NodeHandle|
                #[trigger] pre.ok(h2) && pre.in_subtree(c as int, h2.idx as int) implies post.retired(
                h2,
            ) by {
                assert(vs.contains(h2.idx));
                let u = choose|u: int| 0 <= u < vs.len() && vs[u] == h2.idx;
                assert(mid.gen_of(h2.idx as int) == pre.gen_of(h2.idx as int));
                assert(!post.live(vs[u] as int));
                if mid.gen_of(vs[u] as int) < u64::MAX {
                    assert(post.gen_of(vs[u] as int) == mid.gen_of(vs[u] as int) + 1);
                } else {
                    assert(post.gen_of(vs[u] as int) == u64::MAX);
                }
            }
            assert forall|h2: NodeHandle|
                #[trigger] pre.ok(h2) && !pre.in_subtree(c as int, h2.idx as int) implies post.ok(
                h2,
            ) && post.node_at(h2.idx as int) == pre.node_at(h2.idx as int) by {
                assert(!vs.contains(h2.idx)) by {
                    if vs.contains(h2.idx) {
                        let u = choose|u: int| 0 <= u < vs.len() && vs[u] == h2.idx;
                        assert(vs[u] == c || pre.is_anc(c as int, vs[u] as int));
                    }
                }
                assert(post.slots@[h2.idx as int] == mid.slots@[h2.idx as int]);
                assert(mid.live(h2.idx as int) == pre.live(h2.idx as int));
                assert(mid.gen_of(h2.idx as int) == pre.gen_of(h2.idx as int));
                assert(mid.slots@[h2.idx as int].node == pre.slots@[h2.idx as int].node);
            }
            assert(vs.contains(c));
            assert(post.retired(h)) by {
                assert(pre.in_subtree(c as int, c as int));
            }
            match pre.parent_of(c as int) {
                None => {},
                Some(q) => {
                    assert(!vs.contains(q));
                    assert(post.slots@[q as int] == mid.slots@[q as int]);
                    assert(post.kids(q as int) == pre.kids(q as int).remove_value(c));
                    assert(mid.parent_of(q as int) == pre.parent_of(q as int));
                    assert(post.parent_of(q as int) == pre.parent_of(q as int));
                },
            }
            assert forall|i: int|
                0 <= i < pre.n() && post.live(i) && (match pre.parent_of(c as int) {
                    Some(q) => i != q as int,
                    None => true,
                }) implies #[trigger] post.slots@[i] == pre.slots@[i] by {
                pre.lemma_idx_cast(i);
                assert(!vs.contains(i as usize)) by {
                    if vs.contains(i as usize) {
                        let u = choose|u: int| 0 <= u < vs.len() && vs[u] == i as usize;
                        assert(!post.live(vs[u] as int));
                    }
                }
                assert(post.slots@[i] == mid.slots@[i]);
                assert(i != c as int) by {
                    if i == c as int {
                        assert(vs.contains(c));
                    }
                }
                match pre.parent_of(c as int) {
                    None => {
                        assert(mid.slots@ == pre.slots@);
                    },
                    Some(q) => {
                        assert(mid.slots@[i] == pre.slots@[i]);
                    },
                }
            }
            assert forall|h2: NodeHandle| #[trigger] pre.retired(h2) implies post.retired(h2) by {
                assert(mid.retired(h2));
                pre.lemma_idx_cast(h2.idx as int);
                if vs.contains(h2.idx) {
                    let u = choose|u: int| 0 <= u < vs.len() && vs[u] == h2.idx;
                    assert(mid.live(vs[u] as int));
                    assert(h2.gen < mid.gen_of(h2.idx as int) || !mid.live(h2.idx as int));
                    assert(h2.gen < mid.gen_of(vs[u] as int));
                    assert(!post.live(vs[u] as int));
                    if mid.gen_of(vs[u] as int) < u64::MAX {
                        assert(post.gen_of(vs[u] as int) == mid.gen_of(vs[u] as int) + 1);
                    } else {
                        assert(post.gen_of(vs[u] as int) == u64::MAX);
                    }
                } else {
                    assert(post.slots@[h2.idx as int] == mid.slots@[h2.idx as int]);
                }
            }
        }
    }

    /// Orphaning every child of `c`, clearing its list and retiring its
    /// slot leaves the arena well formed.
    proof fn lemma_remove_one_wf(mid: Arena, post: Arena, c: usize)
        requires
            mid.wf(),
            mid.live(c as int),
            mid.parent_of(c as int) is None,
            post.n() == mid.n(),
            !post.live(c as int),
            post.parent_of(c as int) is None,
            post.kids(c as int).len() == 0,
            mid.gen_of(c as int) < u64::MAX ==> post.gen_of(c as int) == mid.gen_of(c as int) + 1,
            mid.gen_of(c as int) == u64::MAX ==> post.gen_of(c as int) == u64::MAX,
            forall|j: int|
                0 <= j < mid.kids(c as int).len() ==> {
                    let e = #[trigger] mid.kid_at(c as int, j);
                    post.parent_of(e) is None && post.slots@[e].node == mid.slots@[e].node
                        && post.slots@[e].gen == mid.slots@[e].gen && post.slots@[e].children
                        == mid.slots@[e].children
                },
            forall|i: int|
                0 <= i < mid.n() && i != c as int && !mid.has_kid(c as int, i)
                    ==> #[trigger] post.slots@[i] == mid.slots@[i],
            post.gen_of(c as int) < u64::MAX ==> post.free@ == mid.free@.push(c),
            post.gen_of(c as int) == u64::MAX ==> post.free@ == mid.free@,
        ensures
            post.wf(),
    {
        let ci = c as int;
        mid.lemma_parentless_not_kid(ci);
        assert forall|i: int| #[trigger] post.live(i) implies mid.live(i) && i != ci by {
            if i != ci && !mid.has_kid(ci, i) {
                assert(post.slots@[i] == mid.slots@[i]);
            } else if mid.has_kid(ci, i) {
                let j = choose|j: int| 0 <= j < mid.kids(ci).len() && mid.kid_at(ci, j) == i;
                assert(post.slots@[i].node == mid.slots@[i].node);
            }
        }
        assert forall|i: int| #[trigger] mid.live(i) && i != ci implies post.live(i) by {
            if mid.has_kid(ci, i) {
                let j = choose|j: int| 0 <= j < mid.kids(ci).len() && mid.kid_at(ci, j) == i;
                assert(post.slots@[i].node == mid.slots@[i].node);
            } else {
                assert(post.slots@[i] == mid.slots@[i]);
            }
        }
        assert(post.parents_ok()) by {
            assert forall|i: int| post.live(i) implies (match #[trigger] post.parent_of(i) {
                None => true,
                Some(q) => post.live(q as int) && post.has_kid(q as int, i),
            }) by {
                if mid.has_kid(ci, i) {
                    let j = choose|j: int| 0 <= j < mid.kids(ci).len() && mid.kid_at(ci, j) == i;
                    assert(post.parent_of(i) is None);
                } else {
                    assert(post.slots@[i] == mid.slots@[i]);
                    match mid.parent_of(i) {
                        None => {},
                        Some(q) => {
                            let qi = q as int;
                            assert(qi != ci) by {
                                if qi == ci {
                                    assert(mid.has_kid(ci, i));
                                }
                            }
                            assert(post.live(qi));
                            let jj = choose|jj: int|
                                0 <= jj < mid.kids(qi).len() && mid.kid_at(qi, jj) == i;
                            assert(qi != ci && !mid.has_kid(ci, qi) ==> post.slots@[qi]
                                == mid.slots@[qi]);
                            if mid.has_kid(ci, qi) {
                                let j2 = choose|j2: int|
                                    0 <= j2 < mid.kids(ci).len() && mid.kid_at(ci, j2) == qi;
                                assert(post.slots@[qi].children == mid.slots@[qi].children);
                            }
                            assert(post.kids(qi) == mid.kids(qi));
                            assert(post.kid_at(qi, jj) == i);
                        },
                    }
                }
            }
        }
        assert(post.kids_ok()) by {
            assert forall|i: int, j: int|
                post.live(i) && 0 <= j < post.kids(i).len() implies post.live(
                #[trigger] post.kid_at(i, j),
            ) && (match post.parent_of(post.kid_at(i, j)) {
                Some(q) => q as int == i,
                None => false,
            }) by {
                assert(post.kids(i) == mid.kids(i)) by {
                    if mid.has_kid(ci, i) {
                        let j2 = choose|j2: int|
                            0 <= j2 < mid.kids(ci).len() && mid.kid_at(ci, j2) == i;
                        assert(post.slots@[i].children == mid.slots@[i].children);
                    } else {
                        assert(post.slots@[i] == mid.slots@[i]);
                    }
                }
                let e = mid.kid_at(i, j);
                assert(mid.live(e));
                assert(match mid.parent_of(e) {
                    Some(q) => q as int == i,
                    None => false,
                });
                assert(!mid.has_kid(ci, e)) by {
                    if mid.has_kid(ci, e) {
                        let j2 = choose|j2: int|
                            0 <= j2 < mid.kids(ci).len() && mid.kid_at(ci, j2) == e;
                        assert(match mid.parent_of(e) {
                            Some(q) => q as int == ci,
                            None => false,
                        });
                    }
                }
                assert(e != ci);
                assert(post.slots@[e] == mid.slots@[e]);
            }
        }
        assert(post.kids_unique()) by {
            assert forall|i: int, j1: int, j2: int|
                post.live(i) && 0 <= j1 < j2 < post.kids(i).len() implies #[trigger] post.kid_at(
                i,
                j1,
            ) != #[trigger] post.kid_at(i, j2) by {
                assert(post.kids(i) == mid.kids(i)) by {
                    if mid.has_kid(ci, i) {
                        let j3 = choose|j3: int|
                            0 <= j3 < mid.kids(ci).len() && mid.kid_at(ci, j3) == i;
                        assert(post.slots@[i].children == mid.slots@[i].children);
                    } else {
                        assert(post.slots@[i] == mid.slots@[i]);
                    }
                }
                assert(mid.kid_at(i, j1) == post.kid_at(i, j1));
                assert(mid.kid_at(i, j2) == post.kid_at(i, j2));
            }
        }
        assert(post.dead_clear()) by {
            assert forall|i: int|
                post.in_range(i) && !(#[trigger] post.live(i)) implies post.parent_of(i) is None
                && post.kids(i).len() == 0 by {
                if i != ci {
                    assert(!mid.live(i));
                    assert(!mid.has_kid(ci, i));
                    assert(post.slots@[i] == mid.slots@[i]);
                }
            }
        }
        assert(post.free_ok()) by {
            assert(!mid.free@.contains(c)) by {
                if mid.free@.contains(c) {
                    let jj = choose|jj: int| 0 <= jj < mid.free@.len() && mid.free@[jj] == c;
                    assert(!mid.live(mid.free@[jj] as int));
                }
            }
            assert forall|j: int| 0 <= j < post.free@.len() implies post.in_range(
                #[trigger] post.free@[j] as int,
            ) && !post.live(post.free@[j] as int) && post.gen_of(post.free@[j] as int)
                < u64::MAX by {
                if j < mid.free@.len() {
                    let e = mid.free@[j];
                    assert(post.free@[j] == e);
                    assert(!mid.live(e as int));
                    assert(e as int != ci);
                    assert(!mid.has_kid(ci, e as int)) by {
                        if mid.has_kid(ci, e as int) {
                            let j2 = choose|j2: int|
                                0 <= j2 < mid.kids(ci).len() && mid.kid_at(ci, j2) == e as int;
                            assert(mid.live(e as int));
                        }
                    }
                    assert(post.slots@[e as int] == mid.slots@[e as int]);
                } else {
                    assert(post.gen_of(ci) < u64::MAX);
                    assert(post.free@[j] == c);
                }
            }
            assert forall|j1: int, j2: int|
                0 <= j1 < j2 < post.free@.len() implies #[trigger] post.free@[j1]
                != #[trigger] post.free@[j2] by {
                if post.gen_of(ci) < u64::MAX {
                    if j2 == post.free@.len() - 1 {
                        assert(post.free@[j2] == c);
                        assert(post.free@[j1] == mid.free@[j1]);
                        assert(!mid.free@.contains(c));
                    }
                }
            }
            assert forall|i: int|
                post.in_range(i) && !(#[trigger] post.live(i)) && post.gen_of(i)
                    < u64::MAX implies post.free@.contains(i as usize) by {
                if i == ci {
                    assert(post.free@[post.free@.len() - 1] == c);
                } else {
                    assert(!mid.live(i));
                    assert(!mid.has_kid(ci, i));
                    assert(post.slots@[i] == mid.slots@[i]);
                    assert(mid.free@.contains(i as usize));
                    let jj = choose|jj: int|
                        0 <= jj < mid.free@.len() && mid.free@[jj] == i as usize;
                    assert(post.free@[jj] == i as usize);
                }
            }
        }
        assert(post.nodes_ok()) by {
            assert forall|i: int| #[trigger] post.live(i) implies node_wf(
                post.slots@[i].node->0,
            ) by {
                if mid.has_kid(ci, i) {
                    let j = choose|j: int| 0 <= j < mid.kids(ci).len() && mid.kid_at(ci, j) == i;
                    assert(post.slots@[i].node == mid.slots@[i].node);
                } else {
                    assert(post.slots@[i] == mid.slots@[i]);
                }
            }
        }
        assert(post.acyclic()) by {
            assert forall|i: int| #[trigger] post.live(i) implies exists|k: nat|
                post.kth_anc(i, k) is None by {
                let k = choose|k: nat| mid.kth_anc(i, k) is None;
                assert forall|j: int| #[trigger] post.live(j) implies mid.live(j) by {}
                assert forall|j: int| #[trigger] post.live(j) implies post.parent_of(j)
                    == mid.parent_of(j) || post.parent_of(j) is None by {
                    if mid.has_kid(ci, j) {
                        let j2 = choose|j2: int|
                            0 <= j2 < mid.kids(ci).len() && mid.kid_at(ci, j2) == j;
                        assert(post.parent_of(j) is None);
                    } else if j != ci {
                        assert(post.slots@[j] == mid.slots@[j]);
                    }
                }
                mid.lemma_anc_shrink(post, i, k);
            }
        }
    }

    /// The handle that currently addresses live slot `i`.
    pub open spec fn handle_for(self, i: int) -> NodeHandle {
        NodeHandle { idx: i as usize, gen: self.gen_of(i) }
    }

    /// The parent of the addressed node.
    pub fn parent(&self, h: NodeHandle) -> (r: Option<NodeHandle>)
        requires
            self.wf(),
        ensures
            match r {
                Some(ph) => self.ok(h) && self.parent_of(h.idx as int) == Some(ph.idx) && self.ok(
                    ph,
                ),
                None => !self.ok(h) || self.parent_of(h.idx as int) is None,
            },
    {
        if !self.is_ok(h) {
            return None;
        }
        match self.slots[h.idx].parent {
            None => None,
            Some(p) => {
                proof {
                    assert(self.live(p as int));
                }
                Some(NodeHandle { idx: p, gen: self.slots[p].gen })
            },
        }
    }

    /// The children of the addressed node, first to last; empty for a
    /// stale handle.
    pub fn children_of(&self, h: NodeHandle) -> (r: Vec<NodeHandle>)
        requires
            self.wf(),
        ensures
            !self.ok(h) ==> r@.len() == 0,
            self.ok(h) ==> r@.len() == self.kids(h.idx as int).len() && (forall|j: int|
                0 <= j < r@.len() ==> (#[trigger] r@[j]).idx == self.kids(h.idx as int)[j]
                    && self.ok(r@[j])),
    {
        let mut r: Vec<NodeHandle> = Vec::new();
        if !self.is_ok(h) {
            return r;
        }
        let n = self.slots[h.idx].children.len();
        let mut j: usize = 0;
        while j < n
            invariant
                self.wf(),
                self.ok(h),
                n == self.kids(h.idx as int).len(),
                j <= n,
                r@.len() == j,
                forall|j2: int|
                    0 <= j2 < j ==> (#[trigger] r@[j2]).idx == self.kids(h.idx as int)[j2]
                        && self.ok(r@[j2]),
            decreases n - j,
        {
            let c = self.slots[h.idx].children[j];
            proof {
                assert(self.kid_at(h.idx as int, j as int) == c as int);
                assert(self.live(c as int));
            }
            r.push(NodeHandle { idx: c, gen: self.slots[c].gen });
            j = j + 1;
        }
        r
    }

    /// The last child of the addressed node.
    pub fn last_child(&self, h: NodeHandle) -> (r: Option<NodeHandle>)
        requires
            self.wf(),
        ensures
            match r {
                Some(ch) => self.ok(h) && self.kids(h.idx as int).len() > 0 && ch.idx == self.kids(
                    h.idx as int,
                ).last() && self.ok(ch),
                None => !self.ok(h) || self.kids(h.idx as int).len() == 0,
            },
    {
        if !self.is_ok(h) {
            return None;
        }
        let n = self.slots[h.idx].children.len();
        if n == 0 {
            return None;
        }
        let c = self.slots[h.idx].children[n - 1];
        proof {
            assert(self.kid_at(h.idx as int, n - 1) == c as int);
            assert(self.live(c as int));
        }
        Some(NodeHandle { idx: c, gen: self.slots[c].gen })
    }

    /// The first child of the addressed node.
    pub fn first_child(&self, h: NodeHandle) -> (r: Option<NodeHandle>)
        requires
            self.wf(),
        ensures
            match r {
                Some(ch) => self.ok(h) && self.kids(h.idx as int).len() > 0 && ch.idx == self.kids(
                    h.idx as int,
                )[0] && self.ok(ch),
                None => !self.ok(h) || self.kids(h.idx as int).len() == 0,
            },
    {
        if !self.is_ok(h) {
            return None;
        }
        let n = self.slots[h.idx].children.len();
        if n == 0 {
            return None;
        }
        let c = self.slots[h.idx].children[0];
        proof {
            assert(self.kid_at(h.idx as int, 0) == c as int);
            assert(self.live(c as int));
        }
        Some(NodeHandle { idx: c, gen: self.slots[c].gen })
    }

    /// The sibling directly before the addressed node, when there is one.
    pub fn prev_sibling(&self, h: NodeHandle) -> (r: Option<NodeHandle>)
        requires
            self.wf(),
        ensures
            match r {
                Some(sh) => {
                    &&& self.ok(h)
                    &&& self.parent_of(h.idx as int) matches Some(p) && {
                        let ks = self.kids(p as int);
                        exists|j: int|
                            1 <= j < ks.len() && ks[j] == h.idx && sh.idx == #[trigger] ks[j - 1]
                    }
                    &&& self.ok(sh)
                },
                None => !self.ok(h) || self.parent_of(h.idx as int) is None || (
                self.parent_of(h.idx as int) matches Some(p) && self.kids(p as int).len() > 0
                    && self.kids(p as int)[0] == h.idx),
            },
    {
        if !self.is_ok(h) {
            return None;
        }
        let p = match self.slots[h.idx].parent {
            None => {
                return None;
            },
            Some(p) => p,
        };
        proof {
            assert(self.live(p as int));
            assert(self.has_kid(p as int, h.idx as int));
        }
        let pos = match self.kid_position(p, h.idx) {
            Some(j) => j,
            None => {
                proof {
                    let jj = choose|jj: int|
                        0 <= jj < self.kids(p as int).len() && self.kid_at(p as int, jj)
                            == h.idx as int;
                    assert(self.kids(p as int)[jj] == h.idx);
                    assert(self.kids(p as int).contains(h.idx));
                    assert(false);
                }
                0
            },
        };
        if pos == 0 {
            return None;
        }
        let c = self.slots[p].children[pos - 1];
        proof {
            assert(self.kid_at(p as int, pos - 1) == c as int);
            assert(self.live(c as int));
        }
        Some(NodeHandle { idx: c, gen: self.slots[c].gen })
    }

    /// The sibling directly after the addressed node, when there is one.
    pub fn next_sibling(&self, h: NodeHandle) -> (r: Option<NodeHandle>)
        requires
            self.wf(),
        ensures
            match r {
                Some(sh) => {
                    &&& self.ok(h)
                    &&& self.parent_of(h.idx as int) matches Some(p) && {
                        let ks = self.kids(p as int);
                        exists|j: int|
                            0 <= j < ks.len() - 1 && ks[j] == h.idx && sh.idx == #[trigger] ks[j
                                + 1]
                    }
                    &&& self.ok(sh)
                },
                None => !self.ok(h) || self.parent_of(h.idx as int) is None || (
                self.parent_of(h.idx as int) matches Some(p) && self.kids(p as int).len() > 0
                    && self.kids(p as int).last() == h.idx),
            },
    {
        if !self.is_ok(h) {
            return None;
        }
        let p = match self.slots[h.idx].parent {
            None => {
                return None;
            },
            Some(p) => p,
        };
        proof {
            assert(self.live(p as int));
            assert(self.has_kid(p as int, h.idx as int));
        }
        let pos = match self.kid_position(p, h.idx) {
            Some(j) => j,
            None => {
                proof {
                    let jj = choose|jj: int|
                        0 <= jj < self.kids(p as int).len() && self.kid_at(p as int, jj)
                            == h.idx as int;
                    assert(self.kids(p as int)[jj] == h.idx);
                    assert(self.kids(p as int).contains(h.idx));
                    assert(false);
                }
                0
            },
        };
        let n = self.slots[p].children.len();
        if pos + 1 >= n {
            proof {
                assert(self.kids(p as int)[pos as int] == h.idx);
                if self.kids(p as int).last() != h.idx {
                    assert(self.kid_at(p as int, pos as int) == h.idx as int);
                    assert(self.kid_at(p as int, n - 1) != h.idx as int);
                    assert(pos < n);
                    assert(false);
                }
            }
            return None;
        }
        let c = self.slots[p].children[pos + 1];
        proof {
            assert(self.kid_at(p as int, pos + 1) == c as int);
            assert(self.live(c as int));
        }
        Some(NodeHandle { idx: c, gen: self.slots[c].gen })
    }

    /// What holds when only the payload of live slot `i0` has moved.
    pub open spec fn payload_update(pre: Arena, post: Arena, i0: int) -> bool {
        &&& post.n() == pre.n()
        &&& post.free@ == pre.free@
        &&& forall|i: int|
            0 <= i < pre.n() && i != i0 ==> #[trigger] post.slots@[i] == pre.slots@[i]
        &&& pre.live(i0)
        &&& post.live(i0)
        &&& post.gen_of(i0) == pre.gen_of(i0)
        &&& post.parent_of(i0) == pre.parent_of(i0)
        &&& post.kids(i0) == pre.kids(i0)
    }

    /// Changing one live payload leaves the arena well formed.
    proof fn lemma_payload_wf(pre: Arena, post: Arena, i0: int)
        requires
            pre.wf(),
            Arena::payload_update(pre, post, i0),
            node_wf(post.slots@[i0].node->0),
        ensures
            post.wf(),
    {
        assert forall|i: int| #[trigger] post.live(i) implies pre.live(i) by {
            if i != i0 {
                assert(post.slots@[i] == pre.slots@[i]);
            }
        }
        assert forall|i: int| #[trigger] pre.live(i) implies post.live(i) by {
            if i != i0 {
                assert(post.slots@[i] == pre.slots@[i]);
            }
        }
        assert forall|i: int| #[trigger] pre.live(i) implies post.parent_of(i) == pre.parent_of(i)
            && post.kids(i) == pre.kids(i) && post.gen_of(i) == pre.gen_of(i) by {
            if i != i0 {
                assert(post.slots@[i] == pre.slots@[i]);
            }
        }
        assert(post.parents_ok()) by {
            assert forall|i: int| post.live(i) implies (match #[trigger] post.parent_of(i) {
                None => true,
                Some(q) => post.live(q as int) && post.has_kid(q as int, i),
            }) by {
                assert(post.parent_of(i) == pre.parent_of(i));
                match pre.parent_of(i) {
                    None => {},
                    Some(q) => {
                        let jj = choose|jj: int|
                            0 <= jj < pre.kids(q as int).len() && pre.kid_at(q as int, jj) == i;
                        assert(post.kids(q as int) == pre.kids(q as int));
                        assert(post.kid_at(q as int, jj) == i);
                    },
                }
            }
        }
        assert(post.kids_ok()) by {
            assert forall|i: int, j: int|
                post.live(i) && 0 <= j < post.kids(i).len() implies post.live(
                #[trigger] post.kid_at(i, j),
            ) && (match post.parent_of(post.kid_at(i, j)) {
                Some(q) => q as int == i,
                None => false,
            }) by {
                assert(post.kids(i) == pre.kids(i));
                assert(pre.kid_at(i, j) == post.kid_at(i, j));
                assert(pre.live(pre.kid_at(i, j)));
                assert(post.parent_of(pre.kid_at(i, j)) == pre.parent_of(pre.kid_at(i, j)));
            }
        }
        assert(post.kids_unique()) by {
            assert forall|i: int, j1: int, j2: int|
                post.live(i) && 0 <= j1 < j2 < post.kids(i).len() implies #[trigger] post.kid_at(
                i,
                j1,
            ) != #[trigger] post.kid_at(i, j2) by {
                assert(post.kids(i) == pre.kids(i));
                assert(pre.kid_at(i, j1) == post.kid_at(i, j1));
                assert(pre.kid_at(i, j2) == post.kid_at(i, j2));
            }
        }
        assert(post.dead_clear()) by {
            assert forall|i: int|
                post.in_range(i) && !(#[trigger] post.live(i)) implies post.parent_of(i) is None
                && post.kids(i).len() == 0 by {
                assert(i != i0);
                assert(post.slots@[i] == pre.slots@[i]);
                assert(!pre.live(i));
            }
        }
        assert(post.free_ok()) by {
            assert forall|j: int| 0 <= j < post.free@.len() implies post.in_range(
                #[trigger] post.free@[j] as int,
            ) && !post.live(post.free@[j] as int) && post.gen_of(post.free@[j] as int)
                < u64::MAX by {
                assert(pre.free@[j] == post.free@[j]);
                assert(pre.free@[j] as int != i0) by {
                    assert(!pre.live(pre.free@[j] as int));
                }
                assert(post.slots@[pre.free@[j] as int] == pre.slots@[pre.free@[j] as int]);
            }
            assert forall|i: int|
                post.in_range(i) && !(#[trigger] post.live(i)) && post.gen_of(i)
                    < u64::MAX implies post.free@.contains(i as usize) by {
                assert(i != i0);
                assert(post.slots@[i] == pre.slots@[i]);
                assert(!pre.live(i));
                assert(pre.free@.contains(i as usize));
            }
        }
        assert(post.nodes_ok()) by {
            assert forall|i: int| #[trigger] post.live(i) implies node_wf(
                post.slots@[i].node->0,
            ) by {
                if i != i0 {
                    assert(post.slots@[i] == pre.slots@[i]);
                }
            }
        }
        assert(post.acyclic()) by {
            assert forall|i: int| #[trigger] post.live(i) implies exists|k: nat|
                post.kth_anc(i, k) is None by {
                let k = choose|k: nat| pre.kth_anc(i, k) is None;
                pre.lemma_anc_same(post, i, k);
            }
        }
    }

    /// Appends `s` to the text node the handle addresses; anything else
    /// leaves the arena unchanged.
    pub fn text_concat(&mut self, h: NodeHandle, s: &str)
        requires
            old(self).wf(),
        ensures
            final(self).wf(),
            !(old(self).ok(h) && old(self).node_at(h.idx as int) is Text) ==> *final(self) == *old(
                self,
            ),
            old(self).ok(h) && old(self).node_at(h.idx as int) is Text ==> Arena::payload_update(
                *old(self),
                *final(self),
                h.idx as int,
            ) && final(self).node_at(h.idx as int) == (NodeV::Text {
                text: old(self).node_at(h.idx as int)->Text_text + s@,
            }),
            forall|h2: NodeHandle| #[trigger] old(self).ok(h2) ==> final(self).ok(h2),
            forall|h2: NodeHandle| #[trigger] old(self).retired(h2) ==> final(self).retired(h2),
    {
        let ghost pre = *self;
        if !self.is_ok(h) {
            return ;
        }
        let is_txt = match &self.slots[h.idx].node {
            Some(n) => n.is_text(),
            None => false,
        };
        if !is_txt {
            return ;
        }
        let taken = self.slots[h.idx].node.take();
        match taken {
            Some(Node::Text(mut t)) => {
                t.concat(s);
                self.slots[h.idx].node = Some(Node::Text(t));
                proof {
                    assert(Arena::payload_update(pre, *self, h.idx as int));
                    Arena::lemma_payload_wf(pre, *self, h.idx as int);
                }
            },
            _ => {
                proof {
                    assert(false);
                }
            },
        }
    }

    /// Replaces the text of the text node the handle addresses; anything
    /// else leaves the arena unchanged.
    pub fn text_set(&mut self, h: NodeHandle, s: &str)
        requires
            old(self).wf(),
        ensures
            final(self).wf(),
            !(old(self).ok(h) && old(self).node_at(h.idx as int) is Text) ==> *final(self) == *old(
                self,
            ),
            old(self).ok(h) && old(self).node_at(h.idx as int) is Text ==> Arena::payload_update(
                *old(self),
                *final(self),
                h.idx as int,
            ) && final(self).node_at(h.idx as int) == (NodeV::Text { text: s@ }),
            forall|h2: NodeHandle| #[trigger] old(self).ok(h2) ==> final(self).ok(h2),
            forall|h2: NodeHandle| #[trigger] old(self).retired(h2) ==> final(self).retired(h2),
    {
        let ghost pre = *self;
        if !self.is_ok(h) {
            return ;
        }
        let is_txt = match &self.slots[h.idx].node {
            Some(n) => n.is_text(),
            None => false,
        };
        if !is_txt {
            return ;
        }
        let taken = self.slots[h.idx].node.take();
        match taken {
            Some(Node::Text(mut t)) => {
                t.set_text(s);
                self.slots[h.idx].node = Some(Node::Text(t));
                proof {
                    assert(Arena::payload_update(pre, *self, h.idx as int));
                    Arena::lemma_payload_wf(pre, *self, h.idx as int);
                }
            },
            _ => {
                proof {
                    assert(false);
                }
            },
        }
    }

    /// Sets an attribute in the HTML namespace on the element the handle
    /// addresses; anything else leaves the arena unchanged.
    pub fn el_set_attr(&mut self, h: NodeHandle, attr: &str, value: &str)
        requires
            old(self).wf(),
        ensures
            final(self).wf(),
            !(old(self).ok(h) && old(self).node_at(h.idx as int) is Element) ==> *final(self)
                == *old(self),
            old(self).ok(h) && old(self).node_at(h.idx as int) is Element
                ==> ({
                &&& Arena::payload_update(*old(self), *final(self), h.idx as int)
                &&& final(self).node_at(h.idx as int) matches NodeV::Element(ev) && {
                let old_ev = old(self).node_at(h.idx as int)->Element_0;
                ev.attrs == crate::node::attrs_insert(
                    old_ev.attrs,
                    crate::node::AttrV {
                        name: crate::node::QualNameV {
                            prefix: None,
                            ns: Seq::empty(),
                            local: attr@,
                        },
                        value: value@,
                    },
                ) && ev.name == old_ev.name && ev.id == old_ev.id && ev.classes == old_ev.classes
            }
            }),
            forall|h2: NodeHandle| #[trigger] old(self).ok(h2) ==> final(self).ok(h2),
            forall|h2: NodeHandle| #[trigger] old(self).retired(h2) ==> final(self).retired(h2),
    {
        let ghost pre = *self;
        if !self.is_ok(h) {
            return ;
        }
        let is_el = match &self.slots[h.idx].node {
            Some(n) => n.is_element(),
            None => false,
        };
        if !is_el {
            return ;
        }
        let taken = self.slots[h.idx].node.take();
        match taken {
            Some(Node::Element(mut e)) => {
                proof {
                    assert(pre.live(h.idx as int));
                    assert(node_wf(pre.slots@[h.idx as int].node->0));
                }
                e.set_attr(attr, value);
                self.slots[h.idx].node = Some(Node::Element(e));
                proof {
                    assert(Arena::payload_update(pre, *self, h.idx as int));
                    Arena::lemma_payload_wf(pre, *self, h.idx as int);
                }
            },
            _ => {
                proof {
                    assert(false);
                }
            },
        }
    }

    /// Removes an attribute of the element the handle addresses; anything
    /// else leaves the arena unchanged.
    pub fn el_remove_attr(&mut self, h: NodeHandle, attr: &str)
        requires
            old(self).wf(),
        ensures
            final(self).wf(),
            !(old(self).ok(h) && old(self).node_at(h.idx as int) is Element) ==> *final(self)
                == *old(self),
            old(self).ok(h) && old(self).node_at(h.idx as int) is Element
                ==> ({
                &&& Arena::payload_update(*old(self), *final(self), h.idx as int)
                &&& final(self).node_at(h.idx as int) matches NodeV::Element(ev) && {
                let old_ev = old(self).node_at(h.idx as int)->Element_0;
                ev.attrs == crate::node::attrs_remove(old_ev.attrs, Seq::empty(), attr@)
                    && ev.name == old_ev.name && ev.id == old_ev.id && ev.classes
                    == old_ev.classes
            }
            }),
            forall|h2: NodeHandle| #[trigger] old(self).ok(h2) ==> final(self).ok(h2),
            forall|h2: NodeHandle| #[trigger] old(self).retired(h2) ==> final(self).retired(h2),
    {
        let ghost pre = *self;
        if !self.is_ok(h) {
            return ;
        }
        let is_el = match &self.slots[h.idx].node {
            Some(n) => n.is_element(),
            None => false,
        };
        if !is_el {
            return ;
        }
        let taken = self.slots[h.idx].node.take();
        match taken {
            Some(Node::Element(mut e)) => {
                proof {
                    assert(pre.live(h.idx as int));
                    assert(node_wf(pre.slots@[h.idx as int].node->0));
                }
                e.remove_attr(attr);
                self.slots[h.idx].node = Some(Node::Element(e));
                proof {
                    assert(Arena::payload_update(pre, *self, h.idx as int));
                    Arena::lemma_payload_wf(pre, *self, h.idx as int);
                }
            },
            _ => {
                proof {
                    assert(false);
                }
            },
        }
    }

    /// Adds a class to the element the handle addresses; anything else
    /// leaves the arena unchanged.
    pub fn el_append_class(&mut self, h: NodeHandle, class: &str)
        requires
            old(self).wf(),
        ensures
            final(self).wf(),
            !(old(self).ok(h) && old(self).node_at(h.idx as int) is Element) ==> *final(self)
                == *old(self),
            old(self).ok(h) && old(self).node_at(h.idx as int) is Element
                ==> ({
                &&& Arena::payload_update(*old(self), *final(self), h.idx as int)
                &&& final(self).node_at(h.idx as int) matches NodeV::Element(ev) && {
                let old_ev = old(self).node_at(h.idx as int)->Element_0;
                ev.classes == (if old_ev.classes.contains(class@) {
                    old_ev.classes
                } else {
                    old_ev.classes.push(class@)
                }) && ev.name == old_ev.name && ev.id == old_ev.id && ev.attrs == old_ev.attrs
            }
            }),
            forall|h2: NodeHandle| #[trigger] old(self).ok(h2) ==> final(self).ok(h2),
            forall|h2: NodeHandle| #[trigger] old(self).retired(h2) ==> final(self).retired(h2),
    {
        let ghost pre = *self;
        if !self.is_ok(h) {
            return ;
        }
        let is_el = match &self.slots[h.idx].node {
            Some(n) => n.is_element(),
            None => false,
        };
        if !is_el {
            return ;
        }
        let taken = self.slots[h.idx].node.take();
        match taken {
            Some(Node::Element(mut e)) => {
                proof {
                    assert(pre.live(h.idx as int));
                    assert(node_wf(pre.slots@[h.idx as int].node->0));
                }
                e.append_class(class);
                self.slots[h.idx].node = Some(Node::Element(e));
                proof {
                    assert(Arena::payload_update(pre, *self, h.idx as int));
                    Arena::lemma_payload_wf(pre, *self, h.idx as int);
                }
            },
            _ => {
                proof {
                    assert(false);
                }
            },
        }
    }

    /// Removes a class from the element the handle addresses; anything
    /// else leaves the arena unchanged.
    pub fn el_remove_class(&mut self, h: NodeHandle, class: &str)
        requires
            old(self).wf(),
        ensures
            final(self).wf(),
            !(old(self).ok(h) && old(self).node_at(h.idx as int) is Element) ==> *final(self)
                == *old(self),
            old(self).ok(h) && old(self).node_at(h.idx as int) is Element
                ==> ({
                &&& Arena::payload_update(*old(self), *final(self), h.idx as int)
                &&& final(self).node_at(h.idx as int) matches NodeV::Element(ev) && {
                let old_ev = old(self).node_at(h.idx as int)->Element_0;
                ev.classes == old_ev.classes.remove_value(class@) && ev.name == old_ev.name
                    && ev.id == old_ev.id && ev.attrs == old_ev.attrs
            }
            }),
            forall|h2: NodeHandle| #[trigger] old(self).ok(h2) ==> final(self).ok(h2),
            forall|h2: NodeHandle| #[trigger] old(self).retired(h2) ==> final(self).retired(h2),
    {
        let ghost pre = *self;
        if !self.is_ok(h) {
            return ;
        }
        let is_el = match &self.slots[h.idx].node {
            Some(n) => n.is_element(),
            None => false,
        };
        if !is_el {
            return ;
        }
        let taken = self.slots[h.idx].node.take();
        match taken {
            Some(Node::Element(mut e)) => {
                proof {
                    assert(pre.live(h.idx as int));
                    assert(node_wf(pre.slots@[h.idx as int].node->0));
                }
                e.remove_class(class);
                self.slots[h.idx].node = Some(Node::Element(e));
                proof {
                    assert(Arena::payload_update(pre, *self, h.idx as int));
                    Arena::lemma_payload_wf(pre, *self, h.idx as int);
                }
            },
            _ => {
                proof {
                    assert(false);
                }
            },
        }
    }

    /// Adds incoming attributes to the element the handle addresses where
    /// no attribute of that name is present; anything else leaves the
    /// arena unchanged.
    pub fn el_merge_missing(&mut self, h: NodeHandle, attrs: Vec<Attr>)
        requires
            old(self).wf(),
        ensures
            final(self).wf(),
            !(old(self).ok(h) && old(self).node_at(h.idx as int) is Element) ==> *final(self)
                == *old(self),
            old(self).ok(h) && old(self).node_at(h.idx as int) is Element
                ==> ({
                &&& Arena::payload_update(*old(self), *final(self), h.idx as int)
                &&& final(self).node_at(h.idx as int) matches NodeV::Element(ev) && {
                let old_ev = old(self).node_at(h.idx as int)->Element_0;
                ev.attrs == crate::node::attrs_merge(old_ev.attrs, crate::node::attrs_view(attrs@))
                    && ev.name == old_ev.name && ev.id == old_ev.id && ev.classes
                    == old_ev.classes
            }
            }),
            forall|h2: NodeHandle| #[trigger] old(self).ok(h2) ==> final(self).ok(h2),
            forall|h2: NodeHandle| #[trigger] old(self).retired(h2) ==> final(self).retired(h2),
    {
        let ghost pre = *self;
        if !self.is_ok(h) {
            return ;
        }
        let is_el = match &self.slots[h.idx].node {
            Some(n) => n.is_element(),
            None => false,
        };
        if !is_el {
            return ;
        }
        let taken = self.slots[h.idx].node.take();
        match taken {
            Some(Node::Element(mut e)) => {
                proof {
                    assert(pre.live(h.idx as int));
                    assert(node_wf(pre.slots@[h.idx as int].node->0));
                }
                e.merge_missing(attrs);
                self.slots[h.idx].node = Some(Node::Element(e));
                proof {
                    assert(Arena::payload_update(pre, *self, h.idx as int));
                    Arena::lemma_payload_wf(pre, *self, h.idx as int);
                }
            },
            _ => {
                proof {
                    assert(false);
                }
            },
        }
    }

    /// The proper ancestors of `i`, as a set of slots.
    pub open spec fn ancs(self, i: int) -> Set<int> {
        Set::new(|j: int| self.is_anc(j, i))
    }

    /// A live node's ancestors are live slots: finitely many, and no
    /// more than the arena holds.
    pub proof fn lemma_ancs_in_range(self, i: int)
        requires
            self.wf(),
            self.live(i),
        ensures
            self.ancs(i).subset_of(vstd::set_lib::set_int_range(0, self.n())),
            self.ancs(i).finite(),
            self.ancs(i).len() <= self.n(),
    {
        assert forall|j: int| self.ancs(i).contains(j) implies vstd::set_lib::set_int_range(
            0,
            self.n(),
        ).contains(j) by {
            let k = choose|k: nat| 1 <= k && self.kth_anc(i, k) == Some(j);
            self.lemma_anc_live(i, k);
            assert(self.live(j));
        }
        vstd::set_lib::lemma_int_range(0, self.n());
        vstd::set_lib::lemma_len_subset(
            self.ancs(i),
            vstd::set_lib::set_int_range(0, self.n()),
        );
    }

    /// No node is its own ancestor.
    pub proof fn lemma_not_own_anc(self, i: int)
        requires
            self.wf(),
            self.live(i),
        ensures
            !self.ancs(i).contains(i),
    {
        if self.is_anc(i, i) {
            let k = choose|k: nat| 1 <= k && self.kth_anc(i, k) == Some(i);
            let k0 = choose|k0: nat| self.kth_anc(i, k0) is None;
            self.lemma_periodic(i, k, k0 + 1);
            assert((k0 + 1) * k >= k0) by (nonlinear_arith)
                requires
                    k >= 1,
                    k0 >= 0,
            ;
            self.lemma_anc_none_stays(i, k0, ((k0 + 1) * k) as nat);
            assert(false);
        }
    }

    /// A child's ancestors are its parent together with the parent's
    /// ancestors: one more with every level down.
    pub proof fn lemma_kid_ancs(self, i: int, j: int)
        requires
            self.wf(),
            self.live(i),
            0 <= j < self.kids(i).len(),
        ensures
            self.ancs(self.kid_at(i, j)) == self.ancs(i).insert(i),
            self.ancs(self.kid_at(i, j)).len() == self.ancs(i).len() + 1,
            self.ancs(self.kid_at(i, j)).finite(),
    {
        let c = self.kid_at(i, j);
        assert(self.live(c));
        self.lemma_anc_one(c);
        assert(self.kth_anc(c, 1) == Some(i)) by {
            assert(match self.parent_of(c) {
                Some(q) => q as int == i,
                None => false,
            });
        }
        assert forall|x: int| self.ancs(i).insert(i).contains(x) implies self.ancs(c).contains(
            x,
        ) by {
            if x == i {
                assert(self.kth_anc(c, 1) == Some(i));
            } else {
                let k = choose|k: nat| 1 <= k && self.kth_anc(i, k) == Some(x);
                self.lemma_anc_add(c, 1, k);
                assert(self.kth_anc(c, 1 + k) == Some(x));
            }
        }
        assert forall|x: int| self.ancs(c).contains(x) implies self.ancs(i).insert(i).contains(
            x,
        ) by {
            let k = choose|k: nat| 1 <= k && self.kth_anc(c, k) == Some(x);
            if k == 1 {
                assert(x == i);
            } else {
                self.lemma_anc_add(c, 1, (k - 1) as nat);
                assert(self.kth_anc(i, (k - 1) as nat) == Some(x));
                assert(1 <= (k - 1) as nat);
            }
        }
        assert(self.ancs(c) =~= self.ancs(i).insert(i));
        self.lemma_ancs_in_range(i);
        self.lemma_not_own_anc(i);
        assert(self.ancs(i).insert(i).len() == self.ancs(i).len() + 1);
    }

    /// A live node's proper ancestors never fill the whole arena: the
    /// node itself also takes a slot.
    pub proof fn lemma_ancs_short(self, i: int)
        requires
            self.wf(),
            self.live(i),
        ensures
            self.ancs(i).len() < self.n(),
    {
        self.lemma_ancs_in_range(i);
        self.lemma_not_own_anc(i);
        assert(self.ancs(i).insert(i).subset_of(
            vstd::set_lib::set_int_range(0, self.n()),
        )) by {
            assert forall|x: int| self.ancs(i).insert(i).contains(x)
                implies vstd::set_lib::set_int_range(0, self.n()).contains(x) by {
                if x != i {
                    assert(self.ancs(i).contains(x));
                }
            }
        }
        vstd::set_lib::lemma_int_range(0, self.n());
        vstd::set_lib::lemma_len_subset(
            self.ancs(i).insert(i),
            vstd::set_lib::set_int_range(0, self.n()),
        );
        assert(self.ancs(i).insert(i).len() == self.ancs(i).len() + 1);
    }

    /// Creates an empty arena.
    pub fn new() -> (a: Arena)
        ensures
            a.wf(),
            a.n() == 0,
            a.free@.len() == 0,
    {
        Arena { slots: Vec::new(), free: Vec::new() }
    }

    /// Looks the handle up; resolves only when the slot is live in the
    /// handle's generation.
    pub fn get(&self, h: NodeHandle) -> (r: Option<&Node>)
        ensures
            match r {
                Some(n) => self.ok(h) && n@ == self.node_at(h.idx as int),
                None => !self.ok(h),
            },
    {
        if h.idx < self.slots.len() {
            let s = &self.slots[h.idx];
            if s.gen == h.gen {
                match &s.node {
                    Some(n) => Some(n),
                    None => None,
                }
            } else {
                None
            }
        } else {
            None
        }
    }

    /// Whether the handle currently resolves.
    pub fn is_ok(&self, h: NodeHandle) -> (r: bool)
        ensures
            r == self.ok(h),
    {
        if h.idx < self.slots.len() {
            let s = &self.slots[h.idx];
            s.gen == h.gen && s.node.is_some()
        } else {
            false
        }
    }

    /// Allocates a fresh slot for `node`, with no links; reuses a dead
    /// slot at its current generation where one is open.
    pub fn new_node(&mut self, node: Node) -> (h: NodeHandle)
        requires
            old(self).wf(),
            node_wf(node),
        ensures
            final(self).wf(),
            final(self).ok(h),
            !old(self).ok(h),
            final(self).node_at(h.idx as int) == node@,
            final(self).parent_of(h.idx as int) is None,
            final(self).kids(h.idx as int) == Seq::<usize>::empty(),
            forall|i: int|
                #[trigger] old(self).live(i) ==> final(self).live(i) && final(self).node_at(i)
                    == old(self).node_at(i) && final(self).parent_of(i) == old(self).parent_of(i)
                    && final(self).kids(i) == old(self).kids(i) && final(self).gen_of(i) == old(
                    self,
                ).gen_of(i),
            forall|i: int| #[trigger] final(self).live(i) <==> (old(self).live(i) || i == h.idx),
            forall|h2: NodeHandle| #[trigger] old(self).ok(h2) ==> final(self).ok(h2),
            forall|h2: NodeHandle| #[trigger] old(self).retired(h2) ==> final(self).retired(h2),
            final(self).n() == old(self).n() || final(self).n() == old(self).n() + 1,
    {
        let ghost pre = *self;
        let popped = self.free.pop();
        match popped {
            Some(i) => {
                proof {
                    assert(pre.free@.contains(i));
                    assert(pre.in_range(i as int) && !pre.live(i as int) && pre.gen_of(i as int)
                        < u64::MAX);
                }
                let g = self.slots[i].gen;
                self.slots[i] = Slot { gen: g, node: Some(node), parent: None, children: Vec::new() };
                let h = NodeHandle { idx: i, gen: g };
                proof {
                    let post = *self;
                    assert forall|j: int| pre.live(j) implies post.live(j) && post.slots@[j]
                        == pre.slots@[j] by {}
                    assert(post.live(i as int));
                    assert(pre.free@[pre.free@.len() - 1] == i);
                    assert forall|jj: int| 0 <= jj < post.free@.len() implies pre.free@.contains(
                        #[trigger] post.free@[jj],
                    ) && post.free@[jj] as int != i as int by {
                        assert(post.free@[jj] == pre.free@[jj]);
                    }
                    assert forall|j: int|
                        post.in_range(j) && !post.live(j) && post.gen_of(j)
                            < u64::MAX implies post.free@.contains(j as usize) by {
                        assert(j != i as int);
                        assert(pre.in_range(j) && !pre.live(j) && pre.gen_of(j) < u64::MAX);
                        assert(pre.free@.contains(j as usize));
                        let jj = choose|jj: int|
                            0 <= jj < pre.free@.len() && pre.free@[jj] == j as usize;
                        assert(0 <= j < post.n());
                        assert(vstd::std_specs::vec::spec_vec_len(&post.slots) == post.slots@.len());
                        assert((j as usize) as int == j);
                        if jj == pre.free@.len() - 1 {
                            assert(pre.free@[jj] == i);
                            assert(false);
                        }
                        assert(post.free@[jj] == j as usize);
                    }
                    self.lemma_new_node_wf(pre, i as int);
                }
                h
            },
            None => {
                let i = self.slots.len();
                self.slots.push(
                    Slot { gen: 0, node: Some(node), parent: None, children: Vec::new() },
                );
                let h = NodeHandle { idx: i, gen: 0 };
                proof {
                    let post = *self;
                    assert forall|j: int| pre.live(j) implies post.live(j) && post.slots@[j]
                        == pre.slots@[j] by {}
                    assert(post.live(i as int));
                    assert forall|jj: int| 0 <= jj < post.free@.len() implies pre.free@.contains(
                        #[trigger] post.free@[jj],
                    ) && post.free@[jj] as int != i as int by {
                        assert(post.free@[jj] == pre.free@[jj]);
                        assert(pre.in_range(pre.free@[jj] as int));
                    }
                    assert forall|j: int|
                        post.in_range(j) && !post.live(j) && post.gen_of(j)
                            < u64::MAX implies post.free@.contains(j as usize) by {
                        assert(j != i as int);
                        assert(pre.in_range(j) && !pre.live(j) && pre.gen_of(j) < u64::MAX);
                        assert(pre.free@.contains(j as usize));
                        let jj = choose|jj: int|
                            0 <= jj < pre.free@.len() && pre.free@[jj] == j as usize;
                        assert(post.free@[jj] == j as usize);
                    }
                    self.lemma_new_node_wf(pre, i as int);
                }
                h
            },
        }
    }

    /// Following a self-loop parent link forever: the chain never ends.
    proof fn lemma_self_parent_chain(self, c: int, k: nat)
        requires
            self.live(c),
            self.parent_of(c) == Some(c as usize),
            c as usize as int == c,
        ensures
            self.kth_anc(c, k) == Some(c),
        decreases k,
    {
        if k > 0 {
            self.lemma_self_parent_chain(c, (k - 1) as nat);
        }
    }

    /// In a well-formed arena no node is its own parent.
    pub proof fn lemma_no_self_parent(self, c: int)
        requires
            self.wf(),
            self.live(c),
        ensures
            self.parent_of(c) != Some(c as usize),
    {
        if self.parent_of(c) == Some(c as usize) {
            let k = choose|k: nat| self.kth_anc(c, k) is None;
            self.lemma_self_parent_chain(c, k);
            assert(false);
        }
    }

    /// What holds of the arena after a detach of live slot `c`: the slot
    /// keeps its payload and children but loses its parent link, the old
    /// parent's child list loses `c`, and nothing else moves.
    pub open spec fn detach_post(pre: Arena, post: Arena, c: usize) -> bool {
        &&& post.n() == pre.n()
        &&& post.free@ == pre.free@
        &&& forall|i: int|
            0 <= i < pre.n() ==> (#[trigger] post.live(i)) == pre.live(i) && post.gen_of(i)
                == pre.gen_of(i) && post.slots@[i].node == pre.slots@[i].node
        &&& post.parent_of(c as int) is None
        &&& post.kids(c as int) == pre.kids(c as int)
        &&& match pre.parent_of(c as int) {
            None => post.slots@ == pre.slots@,
            Some(p) => {
                &&& post.kids(p as int) == pre.kids(p as int).remove_value(c)
                &&& post.parent_of(p as int) == pre.parent_of(p as int)
                &&& forall|i: int|
                    0 <= i < pre.n() && i != c as int && i != p as int
                        ==> #[trigger] post.slots@[i] == pre.slots@[i]
            },
        }
    }

    /// A detach leaves the arena well formed.
    proof fn lemma_detach_wf(pre: Arena, post: Arena, c: usize)
        requires
            pre.wf(),
            pre.live(c as int),
            Arena::detach_post(pre, post, c),
        ensures
            post.wf(),
    {
        let ci = c as int;
        assert forall|i: int| #[trigger] post.live(i) implies pre.live(i) by {}
        assert forall|i: int| #[trigger] pre.live(i) implies post.live(i) by {}
        match pre.parent_of(ci) {
            None => {
                assert(post.slots@ =~= pre.slots@);
                assert(post.wf()) by {
                    assert forall|i: int| 0 <= i < pre.n() implies post.slots@[i]
                        == pre.slots@[i] by {}
                    assert(post.parents_ok()) by {
                        assert forall|i: int| post.live(i) implies (
                        match #[trigger] post.parent_of(i) {
                            None => true,
                            Some(p) => post.live(p as int) && post.has_kid(p as int, i),
                        }) by {
                            assert(post.parent_of(i) == pre.parent_of(i));
                            match pre.parent_of(i) {
                                None => {},
                                Some(p2) => {
                                    let jj = choose|jj: int|
                                        0 <= jj < pre.kids(p2 as int).len() && pre.kid_at(
                                            p2 as int,
                                            jj,
                                        ) == i;
                                    assert(post.kid_at(p2 as int, jj) == i);
                                },
                            }
                        }
                    }
                    assert(post.kids_ok()) by {
                        assert forall|i: int, j: int|
                            post.live(i) && 0 <= j < post.kids(i).len() implies post.live(
                            #[trigger] post.kid_at(i, j),
                        ) && (match post.parent_of(post.kid_at(i, j)) {
                            Some(q) => q as int == i,
                            None => false,
                        }) by {
                            assert(post.kids(i) == pre.kids(i));
                            assert(pre.kid_at(i, j) == post.kid_at(i, j));
                            assert(post.parent_of(pre.kid_at(i, j)) == pre.parent_of(
                                pre.kid_at(i, j),
                            ));
                        }
                    }
                    assert(post.kids_unique()) by {
                        assert forall|i: int, j1: int, j2: int|
                            post.live(i) && 0 <= j1 < j2 < post.kids(i).len() implies #[trigger] post.kid_at(
                            i,
                            j1,
                        ) != #[trigger] post.kid_at(i, j2) by {
                            assert(post.kids(i) == pre.kids(i));
                            assert(pre.kid_at(i, j1) == post.kid_at(i, j1));
                            assert(pre.kid_at(i, j2) == post.kid_at(i, j2));
                        }
                    }
                    assert(post.acyclic()) by {
                        assert forall|i: int| #[trigger] post.live(i) implies exists|k: nat|
                            post.kth_anc(i, k) is None by {
                            let k = choose|k: nat| pre.kth_anc(i, k) is None;
                            pre.lemma_anc_same(post, i, k);
                        }
                    }
                }
            },
            Some(p) => {
                let pi = p as int;
                let oldkids = pre.kids(pi);
                let newkids = post.kids(pi);
                oldkids.index_of_first_ensures(c);
                assert(pre.has_kid(pi, ci));
                let cj = choose|jj: int| 0 <= jj < oldkids.len() && pre.kid_at(pi, jj) == ci;
                assert(oldkids[cj] == c);
                assert(oldkids.contains(c));
                let fi = oldkids.index_of_first(c);
                let fidx = fi->0;
                assert(oldkids[fidx] == c);
                assert(newkids == oldkids.remove(fidx));
                oldkids.remove_ensures(fidx);
                // every index of the new list maps to an index of the old
                // list holding the same slot, and none of them is c
                assert forall|j: int| 0 <= j < newkids.len() implies #[trigger] newkids[j]
                    == (if j < fidx {
                    oldkids[j]
                } else {
                    oldkids[j + 1]
                }) && newkids[j] != c by {
                    if j >= fidx {
                        assert(newkids[j] == oldkids[j + 1]);
                        if oldkids[j + 1] == c {
                            assert(pre.kid_at(pi, fidx) == ci);
                            assert(pre.kid_at(pi, j + 1) == ci);
                        }
                    } else {
                        if oldkids[j] == c {
                            assert(pre.kid_at(pi, fidx) == ci);
                            assert(pre.kid_at(pi, j) == ci);
                        }
                    }
                }
                assert(post.parents_ok()) by {
                    assert forall|i: int| post.live(i) implies (
                    match #[trigger] post.parent_of(i) {
                        None => true,
                        Some(q) => post.live(q as int) && post.has_kid(q as int, i),
                    }) by {
                        if i != ci {
                            assert(post.parent_of(i) == pre.parent_of(i));
                            match pre.parent_of(i) {
                                None => {},
                                Some(q) => {
                                    let qi = q as int;
                                    let jj = choose|jj: int|
                                        0 <= jj < pre.kids(qi).len() && pre.kid_at(qi, jj) == i;
                                    if qi != pi {
                                        assert(post.kids(qi) == pre.kids(qi));
                                        assert(post.kid_at(qi, jj) == i);
                                    } else {
                                        // i sits in the old list at jj != fidx
                                        assert(i != ci);
                                        assert(oldkids[jj] as int == i);
                                        assert(jj != fidx);
                                        if jj < fidx {
                                            assert(newkids[jj] == oldkids[jj]);
                                            assert(post.kid_at(qi, jj) == i);
                                        } else {
                                            assert(newkids[jj - 1] == oldkids[jj]);
                                            assert(post.kid_at(qi, jj - 1) == i);
                                        }
                                    }
                                },
                            }
                        }
                    }
                }
                assert(post.kids_ok()) by {
                    assert forall|i: int, j: int|
                        post.live(i) && 0 <= j < post.kids(i).len() implies post.live(
                        #[trigger] post.kid_at(i, j),
                    ) && (match post.parent_of(post.kid_at(i, j)) {
                        Some(q) => q as int == i,
                        None => false,
                    }) by {
                        if i != pi {
                            assert(post.kids(i) == pre.kids(i));
                            assert(pre.kid_at(i, j) == post.kid_at(i, j));
                            assert(pre.kid_at(i, j) != ci) by {
                                if pre.kid_at(i, j) == ci {
                                    assert(match pre.parent_of(ci) {
                                        Some(q) => q as int == i,
                                        None => false,
                                    });
                                }
                            }
                            if pre.kid_at(i, j) == pi {
                                assert(post.parent_of(pi) == pre.parent_of(pi));
                            } else {
                                assert(post.slots@[pre.kid_at(i, j)] == pre.slots@[pre.kid_at(
                                    i,
                                    j,
                                )]);
                            }
                            assert(post.parent_of(pre.kid_at(i, j)) == pre.parent_of(
                                pre.kid_at(i, j),
                            ));
                        } else {
                            let e = newkids[j];
                            assert(e != c);
                            let m: int = if j < fidx {
                                j
                            } else {
                                j + 1
                            };
                            assert(pre.kid_at(pi, m) == e as int);
                            assert(pre.live(e as int));
                            assert(match pre.parent_of(e as int) {
                                Some(q) => q as int == pi,
                                None => false,
                            });
                            if e as int == pi {
                                assert(post.parent_of(pi) == pre.parent_of(pi));
                            } else {
                                assert(post.slots@[e as int] == pre.slots@[e as int]);
                            }
                            assert(post.parent_of(e as int) == pre.parent_of(e as int));
                        }
                    }
                }
                assert(post.kids_unique()) by {
                    assert forall|i: int, j1: int, j2: int|
                        post.live(i) && 0 <= j1 < j2 < post.kids(i).len() implies #[trigger] post.kid_at(
                        i,
                        j1,
                    ) != #[trigger] post.kid_at(i, j2) by {
                        if i != pi {
                            assert(post.kids(i) == pre.kids(i));
                            assert(pre.kid_at(i, j1) == post.kid_at(i, j1));
                            assert(pre.kid_at(i, j2) == post.kid_at(i, j2));
                        } else {
                            let m1: int = if j1 < fidx { j1 } else { j1 + 1 };
                            let m2: int = if j2 < fidx { j2 } else { j2 + 1 };
                            assert(newkids[j1] == oldkids[m1]);
                            assert(newkids[j2] == oldkids[m2]);
                            assert(m1 < m2);
                            assert(pre.kid_at(pi, m1) != pre.kid_at(pi, m2));
                        }
                    }
                }
                assert(post.dead_clear()) by {
                    assert forall|i: int|
                        post.in_range(i) && !(#[trigger] post.live(i)) implies post.parent_of(
                        i,
                    ) is None && post.kids(i).len() == 0 by {
                        assert(!pre.live(i));
                        assert(i != ci && i != pi);
                        assert(post.slots@[i] == pre.slots@[i]);
                    }
                }
                assert(post.free_ok()) by {
                    assert forall|j: int| 0 <= j < post.free@.len() implies post.in_range(
                        #[trigger] post.free@[j] as int,
                    ) && !post.live(post.free@[j] as int) && post.gen_of(post.free@[j] as int)
                        < u64::MAX by {
                        assert(pre.free@[j] == post.free@[j]);
                    }
                    assert forall|i: int|
                        post.in_range(i) && !(#[trigger] post.live(i)) && post.gen_of(i)
                            < u64::MAX implies post.free@.contains(i as usize) by {
                        assert(!pre.live(i) && pre.gen_of(i) == post.gen_of(i));
                    }
                }
                assert(post.nodes_ok()) by {
                    assert forall|i: int| #[trigger] post.live(i) implies node_wf(
                        post.slots@[i].node->0,
                    ) by {
                        assert(post.slots@[i].node == pre.slots@[i].node);
                    }
                }
                assert(post.acyclic()) by {
                    assert forall|i: int| #[trigger] post.live(i) implies exists|k: nat|
                        post.kth_anc(i, k) is None by {
                        let k = choose|k: nat| pre.kth_anc(i, k) is None;
                        assert forall|j: int| #[trigger] post.live(j) implies pre.live(j) by {}
                        assert forall|j: int| #[trigger] post.live(j) implies post.parent_of(j)
                            == pre.parent_of(j) || post.parent_of(j) is None by {
                            if j != ci {
                                if j == pi {
                                } else {
                                    assert(post.slots@[j] == pre.slots@[j]);
                                }
                            }
                        }
                        pre.lemma_anc_shrink(post, i, k);
                    }
                }
            },
        }
    }

    /// Two arenas that differ only at slot `t` have equal ancestor chains
    /// from `start` as long as the chain avoids `t`.
    pub proof fn lemma_anc_agree(a1: Arena, a2: Arena, start: int, t: int, k: nat)
        requires
            forall|j: int| #[trigger] a1.live(j) <==> a2.live(j),
            forall|j: int|
                #[trigger] a1.live(j) && j != t ==> a2.parent_of(j) == a1.parent_of(j),
            forall|m: nat| m < k ==> #[trigger] a1.kth_anc(start, m) != Some(t),
        ensures
            a2.kth_anc(start, k) == a1.kth_anc(start, k),
        decreases k,
    {
        if k > 0 {
            assert forall|m: nat| m < (k - 1) as nat implies #[trigger] a1.kth_anc(start, m)
                != Some(t) by {
                assert(a1.kth_anc(start, m) != Some(t));
            }
            Arena::lemma_anc_agree(a1, a2, start, t, (k - 1) as nat);
            assert(a1.kth_anc(start, (k - 1) as nat) != Some(t));
            match a1.kth_anc(start, (k - 1) as nat) {
                None => {},
                Some(j) => {
                    assert(j != t);
                    if a1.live(j) {
                        assert(a2.live(j));
                        assert(a2.parent_of(j) == a1.parent_of(j));
                    } else {
                        assert(!a2.live(j));
                    }
                },
            }
        }
    }

    /// Whether `parent` can take `child`: both resolve, they differ, and
    /// the child is no ancestor of the parent.
    pub open spec fn can_attach(self, parent: NodeHandle, child: NodeHandle) -> bool {
        &&& self.ok(parent)
        &&& self.ok(child)
        &&& parent.idx != child.idx
        &&& !self.is_anc(child.idx as int, parent.idx as int)
    }

    /// What holds after a parentless live slot `c` is linked under `p` at
    /// position `pos` of its child list, and nothing else moves.
    pub open spec fn attach_post(mid: Arena, post: Arena, p: usize, c: usize, pos: int) -> bool {
        &&& post.n() == mid.n()
        &&& post.free@ == mid.free@
        &&& forall|i: int|
            0 <= i < mid.n() ==> (#[trigger] post.live(i)) == mid.live(i) && post.gen_of(i)
                == mid.gen_of(i) && post.slots@[i].node == mid.slots@[i].node
        &&& post.parent_of(c as int) == Some(p)
        &&& post.kids(c as int) == mid.kids(c as int)
        &&& post.kids(p as int) == mid.kids(p as int).insert(pos, c)
        &&& post.parent_of(p as int) == mid.parent_of(p as int)
        &&& forall|i: int|
            0 <= i < mid.n() && i != c as int && i != p as int ==> #[trigger] post.slots@[i]
                == mid.slots@[i]
    }

    /// In a well-formed arena a parentless slot is in nobody's child list.
    proof fn lemma_parentless_not_kid(self, c: int)
        requires
            self.wf(),
            self.parent_of(c) is None,
        ensures
            forall|q: int, j: int|
                self.live(q) && 0 <= j < self.kids(q).len() ==> #[trigger] self.kid_at(q, j) != c,
    {
        assert forall|q: int, j: int|
            self.live(q) && 0 <= j < self.kids(q).len() implies #[trigger] self.kid_at(q, j)
            != c by {
            if self.kid_at(q, j) == c {
                assert(self.parent_of(c) == Some(self.kids(q)[j]));
            }
        }
    }

    /// Attaching a parentless slot below a slot it is no ancestor of
    /// leaves the arena well formed.
    proof fn lemma_attach_wf(mid: Arena, post: Arena, p: usize, c: usize, pos: int)
        requires
            mid.wf(),
            mid.live(c as int),
            mid.live(p as int),
            p != c,
            mid.parent_of(c as int) is None,
            forall|m: nat| #[trigger] mid.kth_anc(p as int, m) != Some(c as int),
            0 <= pos <= mid.kids(p as int).len(),
            Arena::attach_post(mid, post, p, c, pos),
        ensures
            post.wf(),
    {
        let ci = c as int;
        let pi = p as int;
        let oldkids = mid.kids(pi);
        let newkids = post.kids(pi);
        assert forall|i: int| #[trigger] post.live(i) implies mid.live(i) by {}
        assert forall|i: int| #[trigger] mid.live(i) implies post.live(i) by {}
        mid.lemma_parentless_not_kid(ci);
        assert(newkids == oldkids.insert(pos, c));
        assert forall|j: int| 0 <= j < newkids.len() implies #[trigger] newkids[j] == (if j < pos {
            oldkids[j]
        } else if j == pos {
            c
        } else {
            oldkids[j - 1]
        }) by {}
        assert(post.parents_ok()) by {
            assert forall|i: int| post.live(i) implies (match #[trigger] post.parent_of(i) {
                None => true,
                Some(q) => post.live(q as int) && post.has_kid(q as int, i),
            }) by {
                if i == ci {
                    assert(post.kids(pi)[pos] == c);
                    assert(post.kid_at(pi, pos) == ci);
                } else {
                    assert(post.parent_of(i) == mid.parent_of(i));
                    match mid.parent_of(i) {
                        None => {},
                        Some(q) => {
                            let qi = q as int;
                            let jj = choose|jj: int|
                                0 <= jj < mid.kids(qi).len() && mid.kid_at(qi, jj) == i;
                            if qi != pi {
                                assert(post.kids(qi) == mid.kids(qi));
                                assert(post.kid_at(qi, jj) == i);
                            } else {
                                if jj < pos {
                                    assert(post.kid_at(qi, jj) == i);
                                } else {
                                    assert(post.kids(qi)[jj + 1] == oldkids[jj]);
                                    assert(post.kid_at(qi, jj + 1) == i);
                                }
                            }
                        },
                    }
                }
            }
        }
        assert(post.kids_ok()) by {
            assert forall|i: int, j: int|
                post.live(i) && 0 <= j < post.kids(i).len() implies post.live(
                #[trigger] post.kid_at(i, j),
            ) && (match post.parent_of(post.kid_at(i, j)) {
                Some(q) => q as int == i,
                None => false,
            }) by {
                if i != pi {
                    assert(post.kids(i) == mid.kids(i));
                    assert(mid.kid_at(i, j) == post.kid_at(i, j));
                    assert(mid.kid_at(i, j) != ci);
                    assert(mid.live(mid.kid_at(i, j)));
                    if mid.kid_at(i, j) == pi {
                        assert(post.parent_of(pi) == mid.parent_of(pi));
                    } else {
                        assert(post.slots@[mid.kid_at(i, j)] == mid.slots@[mid.kid_at(i, j)]);
                    }
                    assert(post.parent_of(mid.kid_at(i, j)) == mid.parent_of(mid.kid_at(i, j)));
                } else {
                    if j == pos {
                        assert(post.kid_at(i, j) == ci);
                        assert(post.live(ci));
                        assert(post.kids(i)[j] == c);
                    } else {
                        let m: int = if j < pos {
                            j
                        } else {
                            j - 1
                        };
                        assert(newkids[j] == oldkids[m]);
                        assert(mid.kid_at(pi, m) != ci);
                        assert(mid.live(mid.kid_at(pi, m)));
                        if mid.kid_at(pi, m) == pi {
                            assert(post.parent_of(pi) == mid.parent_of(pi));
                        } else {
                            assert(post.slots@[mid.kid_at(pi, m)] == mid.slots@[mid.kid_at(
                                pi,
                                m,
                            )]);
                        }
                        assert(post.parent_of(mid.kid_at(pi, m)) == mid.parent_of(
                            mid.kid_at(pi, m),
                        ));
                    }
                }
            }
        }
        assert(post.kids_unique()) by {
            assert forall|i: int, j1: int, j2: int|
                post.live(i) && 0 <= j1 < j2 < post.kids(i).len() implies #[trigger] post.kid_at(
                i,
                j1,
            ) != #[trigger] post.kid_at(i, j2) by {
                if i != pi {
                    assert(post.kids(i) == mid.kids(i));
                    assert(mid.kid_at(i, j1) == post.kid_at(i, j1));
                    assert(mid.kid_at(i, j2) == post.kid_at(i, j2));
                } else {
                    if j1 == pos {
                        let m2 = j2 - 1;
                        assert(newkids[j2] == oldkids[m2]);
                        assert(mid.kid_at(pi, m2) != ci);
                    } else if j2 == pos {
                        let m1 = j1;
                        assert(newkids[j1] == oldkids[m1]);
                        assert(mid.kid_at(pi, m1) != ci);
                    } else {
                        let m1: int = if j1 < pos {
                            j1
                        } else {
                            j1 - 1
                        };
                        let m2: int = if j2 < pos {
                            j2
                        } else {
                            j2 - 1
                        };
                        assert(newkids[j1] == oldkids[m1]);
                        assert(newkids[j2] == oldkids[m2]);
                        assert(m1 < m2);
                        assert(mid.kid_at(pi, m1) != mid.kid_at(pi, m2));
                    }
                }
            }
        }
        assert(post.dead_clear()) by {
            assert forall|i: int|
                post.in_range(i) && !(#[trigger] post.live(i)) implies post.parent_of(i) is None
                && post.kids(i).len() == 0 by {
                assert(!mid.live(i));
                assert(i != ci && i != pi);
                assert(post.slots@[i] == mid.slots@[i]);
            }
        }
        assert(post.free_ok()) by {
            assert forall|j: int| 0 <= j < post.free@.len() implies post.in_range(
                #[trigger] post.free@[j] as int,
            ) && !post.live(post.free@[j] as int) && post.gen_of(post.free@[j] as int)
                < u64::MAX by {
                assert(mid.free@[j] == post.free@[j]);
            }
            assert forall|i: int|
                post.in_range(i) && !(#[trigger] post.live(i)) && post.gen_of(i)
                    < u64::MAX implies post.free@.contains(i as usize) by {
                assert(!mid.live(i) && mid.gen_of(i) == post.gen_of(i));
            }
        }
        assert(post.nodes_ok()) by {
            assert forall|i: int| #[trigger] post.live(i) implies node_wf(
                post.slots@[i].node->0,
            ) by {
                assert(post.slots@[i].node == mid.slots@[i].node);
            }
        }
        assert(post.acyclic()) by {
            let kp = choose|k: nat| mid.kth_anc(pi, k) is None;
            assert forall|m: nat| m < kp implies #[trigger] mid.kth_anc(pi, m) != Some(ci) by {}
            assert forall|j: int| #[trigger] mid.live(j) && j != ci implies post.parent_of(j)
                == mid.parent_of(j) by {}
            Arena::lemma_anc_agree(mid, post, pi, ci, kp);
            assert(post.kth_anc(pi, kp) is None);
            assert forall|i: int| #[trigger] post.live(i) implies exists|k: nat|
                post.kth_anc(i, k) is None by {
                let k = choose|k: nat| mid.kth_anc(i, k) is None;
                Arena::lemma_attach_acyclic(mid, post, p, c, kp, i, k);
            }
        }
    }

    /// After the attach, every node's ancestor chain still ends.
    proof fn lemma_attach_acyclic(mid: Arena, post: Arena, p: usize, c: usize, kp: nat, i: int, k: nat)
        requires
            mid.parents_ok(),
            forall|j: int| #[trigger] mid.live(j) <==> post.live(j),
            forall|j: int| #[trigger] mid.live(j) && j != c as int ==> post.parent_of(j)
                == mid.parent_of(j),
            post.parent_of(c as int) == Some(p),
            post.kth_anc(p as int, kp) is None,
            post.live(i),
            mid.kth_anc(i, k) is None,
        ensures
            exists|k2: nat| post.kth_anc(i, k2) is None,
        decreases k,
    {
        let ci = c as int;
        if k == 0 {
            assert(false);
        } else if i == ci {
            post.lemma_anc_one(i);
            assert(post.kth_anc(ci, 1) == Some(p as int));
            post.lemma_anc_add(ci, 1, kp);
            assert(post.kth_anc(ci, 1 + kp) is None);
        } else {
            post.lemma_anc_one(i);
            mid.lemma_anc_one(i);
            match post.parent_of(i) {
                None => {
                    assert(post.kth_anc(i, 1) is None);
                },
                Some(q) => {
                    assert(post.parent_of(i) == mid.parent_of(i));
                    assert(mid.kth_anc(i, 1) == Some(q as int));
                    mid.lemma_anc_add(i, 1, (k - 1) as nat);
                    assert(mid.kth_anc(q as int, (k - 1) as nat) is None);
                    assert(mid.live(q as int));
                    Arena::lemma_attach_acyclic(mid, post, p, c, kp, q as int, (k - 1) as nat);
                    let k2 = choose|k2: nat| post.kth_anc(q as int, k2) is None;
                    post.lemma_anc_add(i, 1, k2);
                    assert(post.kth_anc(i, 1) == Some(q as int));
                    assert(post.kth_anc(i, 1 + k2) is None);
                },
            }
        }
    }

    /// Whether `a` addresses a proper ancestor of the live slot `i`.
    fn is_ancestor(&self, a: usize, i: usize) -> (r: bool)
        requires
            self.wf(),
            self.live(i as int),
        ensures
            r == self.is_anc(a as int, i as int),
    {
        let ghost k0 = choose|k: nat| self.kth_anc(i as int, k) is None;
        let mut cur: usize = i;
        let ghost mut steps: nat = 0;
        proof {
            assert(self.kth_anc(i as int, 0) == Some(i as int));
            assert(steps < k0) by {
                if k0 == 0 {
                    assert(self.kth_anc(i as int, 0) is None);
                }
            }
        }
        loop
            invariant
                self.wf(),
                self.live(i as int),
                self.live(cur as int),
                self.kth_anc(i as int, steps) == Some(cur as int),
                forall|m: nat| 1 <= m <= steps ==> #[trigger] self.kth_anc(i as int, m) != Some(
                    a as int,
                ),
                self.kth_anc(i as int, k0) is None,
                steps < k0,
            decreases k0 - steps,
        {
            let par = self.slots[cur].parent;
            proof {
                self.lemma_anc_add(i as int, steps, 1);
                self.lemma_anc_one(cur as int);
            }
            match par {
                None => {
                    proof {
                        assert(self.kth_anc(i as int, steps + 1) is None);
                        assert forall|m: nat| 1 <= m implies #[trigger] self.kth_anc(
                            i as int,
                            m,
                        ) != Some(a as int) by {
                            if m > steps {
                                self.lemma_anc_none_stays(i as int, steps + 1, m);
                            }
                        }
                    }
                    return false;
                },
                Some(q) => {
                    proof {
                        assert(self.kth_anc(i as int, steps + 1) == Some(q as int));
                    }
                    if q == a {
                        proof {
                            assert(self.kth_anc(i as int, steps + 1) == Some(a as int));
                            assert(self.is_anc(a as int, i as int));
                        }
                        return true;
                    }
                    proof {
                        self.lemma_anc_live(i as int, steps + 1);
                        assert(self.live(q as int));
                        steps = steps + 1;
                        assert(steps < k0) by {
                            if steps >= k0 {
                                self.lemma_anc_none_stays(i as int, k0, steps);
                            }
                        }
                    }
                    cur = q;
                },
            }
        }
    }

    /// What holds after `child` is appended under `parent`: the child
    /// leaves its old position, if it had one, and becomes the last child
    /// of `parent`; payloads, generations and everything else stay.
    pub open spec fn append_post(pre: Arena, post: Arena, p: usize, c: usize) -> bool {
        let ci = c as int;
        let pi = p as int;
        &&& post.n() == pre.n()
        &&& post.free@ == pre.free@
        &&& forall|i: int|
            0 <= i < pre.n() ==> (#[trigger] post.live(i)) == pre.live(i) && post.gen_of(i)
                == pre.gen_of(i) && post.slots@[i].node == pre.slots@[i].node
        &&& post.parent_of(ci) == Some(p)
        &&& post.kids(ci) == pre.kids(ci)
        &&& post.parent_of(pi) == pre.parent_of(pi)
        &&& match pre.parent_of(ci) {
            None => {
                &&& post.kids(pi) == pre.kids(pi).push(c)
                &&& forall|i: int|
                    0 <= i < pre.n() && i != ci && i != pi ==> #[trigger] post.slots@[i]
                        == pre.slots@[i]
            },
            Some(q) => if q == p {
                &&& post.kids(pi) == pre.kids(pi).remove_value(c).push(c)
                &&& forall|i: int|
                    0 <= i < pre.n() && i != ci && i != pi ==> #[trigger] post.slots@[i]
                        == pre.slots@[i]
            } else {
                &&& post.kids(pi) == pre.kids(pi).push(c)
                &&& post.kids(q as int) == pre.kids(q as int).remove_value(c)
                &&& post.parent_of(q as int) == pre.parent_of(q as int)
                &&& forall|i: int|
                    0 <= i < pre.n() && i != ci && i != pi && i != q as int
                        ==> #[trigger] post.slots@[i] == pre.slots@[i]
            },
        }
    }

    /// Appends `child` as the last child of `parent`.  A child already
    /// attached somewhere is first unlinked from its old position, so a
    /// node never hangs under two parents.  When either handle is stale,
    /// the two are the same node, or the child is an ancestor of the
    /// parent, nothing changes.
    pub fn append(&mut self, parent: NodeHandle, child: NodeHandle)
        requires
            old(self).wf(),
        ensures
            final(self).wf(),
            !old(self).can_attach(parent, child) ==> *final(self) == *old(self),
            old(self).can_attach(parent, child) ==> Arena::append_post(
                *old(self),
                *final(self),
                parent.idx,
                child.idx,
            ),
            forall|h2: NodeHandle| #[trigger] old(self).ok(h2) ==> final(self).ok(h2),
            forall|h2: NodeHandle| old(self).ok(h2) ==> final(self).node_at(h2.idx as int) == old(
                self,
            ).node_at(h2.idx as int),
            forall|h2: NodeHandle| #[trigger] old(self).retired(h2) ==> final(self).retired(h2),
            final(self).n() == old(self).n(),
    {
        let ghost pre = *self;
        if !self.is_ok(parent) || !self.is_ok(child) || parent.idx == child.idx {
            return ;
        }
        if self.is_ancestor(child.idx, parent.idx) {
            return ;
        }
        self.detach(child);
        let ghost mid = *self;
        proof {
            assert(Arena::detach_post(pre, mid, child.idx));
            assert(mid.live(child.idx as int) && mid.live(parent.idx as int));
            assert(mid.parent_of(child.idx as int) is None);
        }
        let pos = self.slots[parent.idx].children.len();
        self.slots[child.idx].parent = Some(parent.idx);
        self.slots[parent.idx].children.push(child.idx);
        proof {
            let post = *self;
            assert(post.kids(parent.idx as int) =~= mid.kids(parent.idx as int).insert(
                pos as int,
                child.idx,
            ));
            assert(Arena::attach_post(mid, post, parent.idx, child.idx, pos as int));
            assert forall|m: nat| #[trigger] mid.kth_anc(parent.idx as int, m) != Some(
                child.idx as int,
            ) by {
                if m == 0 {
                    assert(mid.kth_anc(parent.idx as int, 0) == Some(parent.idx as int));
                } else {
                    assert(!pre.is_anc(child.idx as int, parent.idx as int));
                    assert forall|m2: nat| m2 < m implies #[trigger] pre.kth_anc(
                        parent.idx as int,
                        m2,
                    ) != Some(child.idx as int) by {
                        if m2 >= 1 {
                            assert(!(1 <= m2 && pre.kth_anc(parent.idx as int, m2) == Some(
                                child.idx as int,
                            )));
                        } else {
                            assert(pre.kth_anc(parent.idx as int, 0) == Some(parent.idx as int));
                        }
                    }
                    assert forall|j: int| #[trigger] pre.live(j) <==> mid.live(j) by {}
                    assert forall|j: int|
                        #[trigger] pre.live(j) && j != child.idx as int implies mid.parent_of(j)
                        == pre.parent_of(j) by {
                        if pre.parent_of(child.idx as int) matches Some(qq) && j == qq as int {
                        }
                    }
                    Arena::lemma_anc_agree(pre, mid, parent.idx as int, child.idx as int, m);
                    assert(mid.kth_anc(parent.idx as int, m) == pre.kth_anc(
                        parent.idx as int,
                        m,
                    ));
                    assert(!(1 <= m && pre.kth_anc(parent.idx as int, m) == Some(
                        child.idx as int,
                    )));
                }
            }
            Arena::lemma_attach_wf(mid, post, parent.idx, child.idx, pos as int);
            let ci = child.idx as int;
            let pi = parent.idx as int;
            assert(post.kids(pi) =~= mid.kids(pi).push(child.idx));
            assert forall|i: int|
                0 <= i < pre.n() implies (#[trigger] post.live(i)) == pre.live(i) && post.gen_of(i)
                == pre.gen_of(i) && post.slots@[i].node == pre.slots@[i].node by {
                assert(mid.live(i) == pre.live(i) && mid.gen_of(i) == pre.gen_of(i)
                    && mid.slots@[i].node == pre.slots@[i].node);
            }
            match pre.parent_of(ci) {
                None => {
                    assert(mid.slots@ == pre.slots@);
                    assert(post.kids(pi) =~= pre.kids(pi).push(child.idx));
                    assert forall|i: int|
                        0 <= i < pre.n() && i != ci && i != pi implies #[trigger] post.slots@[i]
                        == pre.slots@[i] by {
                        assert(mid.slots@[i] == pre.slots@[i]);
                    }
                },
                Some(q) => {
                    pre.lemma_no_self_parent(ci);
                    if q == parent.idx {
                        assert(mid.kids(pi) == pre.kids(pi).remove_value(child.idx));
                        assert(post.kids(pi) =~= pre.kids(pi).remove_value(child.idx).push(
                            child.idx,
                        ));
                        assert forall|i: int|
                            0 <= i < pre.n() && i != ci && i != pi implies #[trigger] post.slots@[i]
                            == pre.slots@[i] by {
                            assert(mid.slots@[i] == pre.slots@[i]);
                        }
                    } else {
                        let qi = q as int;
                        assert(mid.slots@[pi] == pre.slots@[pi]);
                        assert(mid.kids(pi) == pre.kids(pi));
                        assert(post.kids(pi) =~= pre.kids(pi).push(child.idx));
                        assert(mid.kids(qi) == pre.kids(qi).remove_value(child.idx));
                        assert(qi != ci && qi != pi);
                        assert(post.slots@[qi] == mid.slots@[qi]);
                        assert(post.kids(qi) == pre.kids(qi).remove_value(child.idx));
                        assert(mid.parent_of(qi) == pre.parent_of(qi));
                        assert(post.parent_of(qi) == pre.parent_of(qi));
                        assert forall|i: int|
                            0 <= i < pre.n() && i != ci && i != pi && i
                                != qi implies #[trigger] post.slots@[i] == pre.slots@[i] by {
                            assert(mid.slots@[i] == pre.slots@[i]);
                        }
                    }
                },
            }
            assert(post.parent_of(pi) == pre.parent_of(pi)) by {
                assert(mid.parent_of(pi) == pre.parent_of(pi));
            }
            assert(post.kids(ci) == pre.kids(ci)) by {
                assert(mid.kids(ci) == pre.kids(ci));
            }
            assert(Arena::append_post(pre, post, parent.idx, child.idx));
        }
    }

    /// Whether `node` can move in front of `sibling`: both resolve, they
    /// differ, the sibling has a parent, and the node is neither that
    /// parent nor an ancestor of it.
    pub open spec fn can_insert_before(self, sibling: NodeHandle, node: NodeHandle) -> bool {
        &&& self.ok(sibling)
        &&& self.ok(node)
        &&& sibling.idx != node.idx
        &&& self.parent_of(sibling.idx as int) matches Some(p) && node.idx != p && !self.is_anc(
            node.idx as int,
            p as int,
        )
    }

    /// What holds after `c` is inserted in front of sibling `s`: `c`
    /// leaves its old position, if it had one, and sits directly before
    /// `s` under `s`'s parent; payloads, generations and everything else
    /// stay.
    pub open spec fn insert_before_post(pre: Arena, post: Arena, s: usize, c: usize) -> bool {
        let ci = c as int;
        let si = s as int;
        let p = pre.parent_of(si)->0;
        let pi = p as int;
        let base = if pre.parent_of(ci) == Some(p) {
            pre.kids(pi).remove_value(c)
        } else {
            pre.kids(pi)
        };
        let pos = base.index_of_first(s)->0;
        &&& post.n() == pre.n()
        &&& post.free@ == pre.free@
        &&& forall|i: int|
            0 <= i < pre.n() ==> (#[trigger] post.live(i)) == pre.live(i) && post.gen_of(i)
                == pre.gen_of(i) && post.slots@[i].node == pre.slots@[i].node
        &&& post.parent_of(ci) == Some(p)
        &&& post.kids(ci) == pre.kids(ci)
        &&& post.kids(pi) == base.insert(pos, c)
        &&& post.parent_of(pi) == pre.parent_of(pi)
        &&& match pre.parent_of(ci) {
            None => forall|i: int|
                0 <= i < pre.n() && i != ci && i != pi ==> #[trigger] post.slots@[i]
                    == pre.slots@[i],
            Some(q) => if q == p {
                forall|i: int|
                    0 <= i < pre.n() && i != ci && i != pi ==> #[trigger] post.slots@[i]
                        == pre.slots@[i]
            } else {
                &&& post.kids(q as int) == pre.kids(q as int).remove_value(c)
                &&& post.parent_of(q as int) == pre.parent_of(q as int)
                &&& forall|i: int|
                    0 <= i < pre.n() && i != ci && i != pi && i != q as int
                        ==> #[trigger] post.slots@[i] == pre.slots@[i]
            },
        }
    }

    /// Inserts `node` directly in front of `sibling` in its parent's
    /// child list, first unlinking `node` from wherever it hangs.  When
    /// either handle is stale, the two are the same node, the sibling has
    /// no parent, or the move would put a node below itself, nothing
    /// changes.
    #[verifier::rlimit(60)]
    pub fn insert_before(&mut self, sibling: NodeHandle, node: NodeHandle)
        requires
            old(self).wf(),
        ensures
            final(self).wf(),
            !old(self).can_insert_before(sibling, node) ==> *final(self) == *old(self),
            old(self).can_insert_before(sibling, node) ==> Arena::insert_before_post(
                *old(self),
                *final(self),
                sibling.idx,
                node.idx,
            ),
            forall|h2: NodeHandle| #[trigger] old(self).ok(h2) ==> final(self).ok(h2),
            forall|h2: NodeHandle| old(self).ok(h2) ==> final(self).node_at(h2.idx as int) == old(
                self,
            ).node_at(h2.idx as int),
            forall|h2: NodeHandle| #[trigger] old(self).retired(h2) ==> final(self).retired(h2),
            final(self).n() == old(self).n(),
    {
        let ghost pre = *self;
        if !self.is_ok(sibling) || !self.is_ok(node) || sibling.idx == node.idx {
            return ;
        }
        let par = self.slots[sibling.idx].parent;
        let p = match par {
            None => {
                return ;
            },
            Some(p) => p,
        };
        if node.idx == p {
            return ;
        }
        proof {
            assert(pre.live(p as int));
        }
        if self.is_ancestor(node.idx, p) {
            return ;
        }
        proof {
            assert(pre.can_insert_before(sibling, node));
        }
        self.detach(node);
        let ghost mid = *self;
        proof {
            assert(Arena::detach_post(pre, mid, node.idx));
            assert(mid.live(node.idx as int) && mid.live(p as int) && mid.live(
                sibling.idx as int,
            ));
            assert(mid.parent_of(node.idx as int) is None);
            assert(mid.parent_of(sibling.idx as int) == Some(p)) by {
                match pre.parent_of(node.idx as int) {
                    None => {
                        assert(mid.slots@ == pre.slots@);
                    },
                    Some(q) => {
                        pre.lemma_no_self_parent(node.idx as int);
                        if sibling.idx as int == q as int {
                            assert(mid.parent_of(q as int) == pre.parent_of(q as int));
                        } else {
                            assert(mid.slots@[sibling.idx as int]
                                == pre.slots@[sibling.idx as int]);
                        }
                    },
                }
            }
            assert(mid.has_kid(p as int, sibling.idx as int));
            let jj = choose|jj: int|
                0 <= jj < mid.kids(p as int).len() && mid.kid_at(p as int, jj)
                    == sibling.idx as int;
            assert(mid.kids(p as int)[jj] == sibling.idx);
            assert(mid.kids(p as int).contains(sibling.idx));
        }
        let pos = match self.kid_position(p, sibling.idx) {
            Some(j) => j,
            None => {
                proof {
                    assert(false);
                }
                0
            },
        };
        self.slots[node.idx].parent = Some(p);
        self.slots[p].children.insert(pos, node.idx);
        proof {
            let post = *self;
            let ci = node.idx as int;
            let pi = p as int;
            assert(Arena::attach_post(mid, post, p, node.idx, pos as int));
            assert forall|m: nat| #[trigger] mid.kth_anc(pi, m) != Some(ci) by {
                if m == 0 {
                    assert(mid.kth_anc(pi, 0) == Some(pi));
                } else {
                    assert(!pre.is_anc(ci, pi));
                    assert forall|m2: nat| m2 < m implies #[trigger] pre.kth_anc(pi, m2) != Some(
                        ci,
                    ) by {
                        if m2 >= 1 {
                            assert(!(1 <= m2 && pre.kth_anc(pi, m2) == Some(ci)));
                        } else {
                            assert(pre.kth_anc(pi, 0) == Some(pi));
                        }
                    }
                    assert forall|j: int| #[trigger] pre.live(j) <==> mid.live(j) by {}
                    assert forall|j: int|
                        #[trigger] pre.live(j) && j != ci implies mid.parent_of(j)
                        == pre.parent_of(j) by {
                        if pre.parent_of(ci) matches Some(qq) && j == qq as int {
                        }
                    }
                    Arena::lemma_anc_agree(pre, mid, pi, ci, m);
                    assert(mid.kth_anc(pi, m) == pre.kth_anc(pi, m));
                    assert(!(1 <= m && pre.kth_anc(pi, m) == Some(ci)));
                }
            }
            Arena::lemma_attach_wf(mid, post, p, node.idx, pos as int);
            // relate the found position to the specified one
            let base = if pre.parent_of(ci) == Some(p) {
                pre.kids(pi).remove_value(node.idx)
            } else {
                pre.kids(pi)
            };
            assert(mid.kids(pi) == base) by {
                pre.lemma_no_self_parent(ci);
                match pre.parent_of(ci) {
                    None => {
                        assert(mid.slots@ == pre.slots@);
                    },
                    Some(q) => {
                        if q == p {
                        } else {
                            assert(mid.slots@[pi] == pre.slots@[pi]);
                        }
                    },
                }
            }
            base.index_of_first_ensures(sibling.idx);
            assert(base.contains(sibling.idx));
            match base.index_of_first(sibling.idx) {
                Some(k) => {
                    assert(k == pos) by {
                        if k < pos {
                            assert(base[k] != sibling.idx);
                        }
                        if pos < k {
                            assert(base[pos as int] != sibling.idx);
                        }
                    }
                },
                None => {
                    assert(false);
                },
            }
            assert forall|i: int|
                0 <= i < pre.n() implies (#[trigger] post.live(i)) == pre.live(i) && post.gen_of(i)
                == pre.gen_of(i) && post.slots@[i].node == pre.slots@[i].node by {
                assert(mid.live(i) == pre.live(i) && mid.gen_of(i) == pre.gen_of(i)
                    && mid.slots@[i].node == pre.slots@[i].node);
            }
            match pre.parent_of(ci) {
                None => {
                    assert(mid.slots@ == pre.slots@);
                    assert forall|i: int|
                        0 <= i < pre.n() && i != ci && i != pi implies #[trigger] post.slots@[i]
                        == pre.slots@[i] by {
                        assert(mid.slots@[i] == pre.slots@[i]);
                    }
                },
                Some(q) => {
                    pre.lemma_no_self_parent(ci);
                    if q == p {
                        assert forall|i: int|
                            0 <= i < pre.n() && i != ci && i != pi implies #[trigger] post.slots@[i]
                            == pre.slots@[i] by {
                            assert(mid.slots@[i] == pre.slots@[i]);
                        }
                    } else {
                        let qi = q as int;
                        assert(qi != ci && qi != pi);
                        assert(post.slots@[qi] == mid.slots@[qi]);
                        assert(post.kids(qi) == pre.kids(qi).remove_value(node.idx));
                        assert(post.parent_of(qi) == pre.parent_of(qi));
                        assert forall|i: int|
                            0 <= i < pre.n() && i != ci && i != pi && i
                                != qi implies #[trigger] post.slots@[i] == pre.slots@[i] by {
                            assert(mid.slots@[i] == pre.slots@[i]);
                        }
                    }
                },
            }
            assert(post.parent_of(pi) == pre.parent_of(pi)) by {
                assert(mid.parent_of(pi) == pre.parent_of(pi));
            }
            assert(post.kids(ci) == pre.kids(ci)) by {
                assert(mid.kids(ci) == pre.kids(ci));
            }
            assert(Arena::insert_before_post(pre, post, sibling.idx, node.idx));
        }
    }

    /// The position of `c` in the child list of `p`.
    fn kid_position(&self, p: usize, c: usize) -> (r: Option<usize>)
        requires
            self.in_range(p as int),
        ensures
            match r {
                Some(j) => j < self.kids(p as int).len() && self.kids(p as int)[j as int] == c
                    && (forall|j2: int| 0 <= j2 < j ==> self.kids(p as int)[j2] != c),
                None => !self.kids(p as int).contains(c),
            },
    {
        let n = self.slots[p].children.len();
        let mut j: usize = 0;
        while j < n
            invariant
                self.in_range(p as int),
                n == self.kids(p as int).len(),
                j <= n,
                forall|j2: int| 0 <= j2 < j ==> self.kids(p as int)[j2] != c,
            decreases n - j,
        {
            if self.slots[p].children[j] == c {
                return Some(j);
            }
            j = j + 1;
        }
        None
    }

    /// Unlinks the node from its parent's child list and clears its own
    /// parent link; the node and its descendants stay allocated and keep
    /// their identity.  A stale handle, or a node already without a
    /// parent, leaves the arena unchanged.
    pub fn detach(&mut self, h: NodeHandle)
        requires
            old(self).wf(),
        ensures
            final(self).wf(),
            !old(self).ok(h) ==> *final(self) == *old(self),
            old(self).ok(h) ==> Arena::detach_post(*old(self), *final(self), h.idx),
            forall|h2: NodeHandle| #[trigger] old(self).ok(h2) ==> final(self).ok(h2),
            forall|h2: NodeHandle| old(self).ok(h2) ==> final(self).node_at(h2.idx as int) == old(
                self,
            ).node_at(h2.idx as int),
            forall|h2: NodeHandle| #[trigger] old(self).retired(h2) ==> final(self).retired(h2),
            final(self).n() == old(self).n(),
    {
        let ghost pre = *self;
        if !self.is_ok(h) {
            return ;
        }
        let par = self.slots[h.idx].parent;
        match par {
            None => {
                proof {
                    assert(Arena::detach_post(pre, *self, h.idx));
                    Arena::lemma_detach_wf(pre, *self, h.idx);
                }
            },
            Some(p) => {
                proof {
                    pre.lemma_no_self_parent(h.idx as int);
                    assert(p != h.idx);
                    assert(pre.live(p as int) && pre.has_kid(p as int, h.idx as int));
                    let jj = choose|jj: int|
                        0 <= jj < pre.kids(p as int).len() && pre.kid_at(p as int, jj)
                            == h.idx as int;
                    assert(pre.kids(p as int)[jj] == h.idx);
                    assert(pre.kids(p as int).contains(h.idx));
                }
                let pos = match self.kid_position(p, h.idx) {
                    Some(j) => j,
                    None => {
                        proof {
                            assert(false);
                        }
                        0
                    },
                };
                self.slots[p].children.remove(pos);
                self.slots[h.idx].parent = None;
                proof {
                    let post = *self;
                    let oldkids = pre.kids(p as int);
                    oldkids.index_of_first_ensures(h.idx);
                    match oldkids.index_of_first(h.idx) {
                        Some(k) => {
                            assert(k == pos) by {
                                if k < pos {
                                    assert(oldkids[k] != h.idx);
                                }
                                if pos < k {
                                    assert(oldkids[pos as int] != h.idx);
                                }
                            }
                            assert(post.kids(p as int) == oldkids.remove_value(h.idx));
                        },
                        None => {
                            assert(false);
                        },
                    }
                    assert(Arena::detach_post(pre, post, h.idx));
                    Arena::lemma_detach_wf(pre, post, h.idx);
                }
            },
        }
    }

    /// After a fresh, linkless, well-formed node fills slot `i0` and
    /// nothing else changes among live slots, the invariant holds again.
    proof fn lemma_new_node_wf(self, pre: Arena, i0: int)
        requires
            pre.wf(),
            self.in_range(i0),
            !pre.live(i0) || !pre.in_range(i0),
            self.live(i0),
            self.parent_of(i0) is None,
            self.kids(i0).len() == 0,
            node_wf(self.slots@[i0].node->0),
            self.n() == pre.n() || (self.n() == pre.n() + 1 && i0 == pre.n()),
            forall|j: int| 0 <= j < pre.n() && j != i0 ==> self.slots@[j] == pre.slots@[j],
            forall|j: int|
                0 <= j < self.free@.len() ==> pre.free@.contains(#[trigger] self.free@[j])
                    && self.free@[j] as int != i0,
            forall|j1: int, j2: int|
                0 <= j1 < j2 < self.free@.len() ==> #[trigger] self.free@[j1]
                    != #[trigger] self.free@[j2],
            forall|j: int|
                self.in_range(j) && !(#[trigger] self.live(j)) && self.gen_of(j) < u64::MAX
                    ==> self.free@.contains(j as usize),
        ensures
            self.wf(),
    {
        assert forall|j: int| #[trigger] pre.live(j) implies j != i0 by {}
        assert forall|j: int| #[trigger] pre.live(j) implies self.live(j) && self.slots@[j]
            == pre.slots@[j] by {}
        assert forall|j: int| #[trigger] self.live(j) && j != i0 implies pre.live(j)
            && self.slots@[j] == pre.slots@[j] by {}
        assert(self.dead_clear()) by {
            assert forall|j: int|
                self.in_range(j) && !(#[trigger] self.live(j)) implies self.parent_of(j) is None
                && self.kids(j).len() == 0 by {
                assert(j != i0);
                assert(pre.in_range(j) && !pre.live(j));
                assert(self.slots@[j] == pre.slots@[j]);
            }
        }
        assert(self.nodes_ok()) by {
            assert forall|j: int| #[trigger] self.live(j) implies node_wf(
                self.slots@[j].node->0,
            ) by {
                if j != i0 {
                    assert(pre.live(j));
                }
            }
        }
        assert(self.free_ok()) by {
            assert forall|j: int| 0 <= j < self.free@.len() implies self.in_range(
                #[trigger] self.free@[j] as int,
            ) && !self.live(self.free@[j] as int) && self.gen_of(self.free@[j] as int)
                < u64::MAX by {
                let e = self.free@[j] as int;
                assert(pre.free@.contains(self.free@[j]));
                let jj = choose|jj: int|
                    0 <= jj < pre.free@.len() && pre.free@[jj] == self.free@[j];
                assert(pre.in_range(e) && !pre.live(e) && pre.gen_of(e) < u64::MAX);
                assert(self.slots@[e] == pre.slots@[e]);
            }
        }
        assert(self.parents_ok()) by {
            assert forall|i: int| self.live(i) && i != i0 implies pre.live(i) by {}
            assert forall|i: int| self.live(i) implies (match #[trigger] self.parent_of(i) {
                None => true,
                Some(p) => self.live(p as int) && self.has_kid(p as int, i),
            }) by {
                if i != i0 {
                    assert(pre.live(i));
                    assert(pre.parent_of(i) == self.parent_of(i));
                    match self.parent_of(i) {
                        None => {},
                        Some(p2) => {
                            assert(pre.live(p2 as int) && pre.has_kid(p2 as int, i));
                            assert(self.kids(p2 as int) == pre.kids(p2 as int));
                            let jj = choose|jj: int|
                                0 <= jj < pre.kids(p2 as int).len() && pre.kid_at(p2 as int, jj)
                                    == i;
                            assert(self.kid_at(p2 as int, jj) == i);
                        },
                    }
                }
            }
        }
        assert(self.kids_ok()) by {
            assert forall|i: int, j: int|
                self.live(i) && 0 <= j < self.kids(i).len() implies self.live(
                #[trigger] self.kid_at(i, j),
            ) && (match self.parent_of(self.kid_at(i, j)) {
                Some(q) => q as int == i,
                None => false,
            }) by {
                assert(i != i0);
                assert(pre.live(i));
                assert(self.kids(i) == pre.kids(i));
                assert(pre.kid_at(i, j) == self.kid_at(i, j));
                assert(pre.live(pre.kid_at(i, j)));
                assert(pre.kid_at(i, j) != i0);
                assert(self.slots@[pre.kid_at(i, j)] == pre.slots@[pre.kid_at(i, j)]);
            }
        }
        assert(self.kids_unique()) by {
            assert forall|i: int, j1: int, j2: int|
                self.live(i) && 0 <= j1 < j2 < self.kids(i).len() implies #[trigger] self.kid_at(
                i,
                j1,
            ) != #[trigger] self.kid_at(i, j2) by {
                assert(i != i0);
                assert(pre.live(i));
                assert(self.kids(i) == pre.kids(i));
                assert(pre.kid_at(i, j1) == self.kid_at(i, j1));
                assert(pre.kid_at(i, j2) == self.kid_at(i, j2));
            }
        }
        assert(self.acyclic()) by {
            assert forall|i: int| #[trigger] self.live(i) implies exists|k: nat|
                self.kth_anc(i, k) is None by {
                if i == i0 {
                    self.lemma_anc_one(i0);
                    assert(self.kth_anc(i0, 1) is None);
                } else {
                    assert(pre.live(i));
                    let k = choose|k: nat| pre.kth_anc(i, k) is None;
                    pre.lemma_anc_same(self, i, k);
                    assert(self.kth_anc(i, k) is None);
                }
            }
        }
    }
}

} // verus!
