//! The query engine: document-order enumeration of a scope's nodes,
//! each at most once, ready for an external selector matcher to test.

use vstd::prelude::*;
use crate::arena::Arena;
use crate::arena::NodeHandle;
use crate::document::Document;

verus! {

/// The slots of the subtree at `i` in depth-first pre-order, cut off
/// below `fuel` levels.
pub open spec fn order_fuel(a: Arena, i: int, fuel: nat) -> Seq<int>
    decreases fuel, 0int,
{
    if fuel == 0 {
        Seq::empty()
    } else {
        seq![i] + forest_order(a, a.kids(i), (fuel - 1) as nat)
    }
}

/// The concatenated pre-orders of the subtrees at `cs`.
pub open spec fn forest_order(a: Arena, cs: Seq<usize>, fuel: nat) -> Seq<int>
    decreases fuel, cs.len(),
{
    if cs.len() == 0 {
        Seq::empty()
    } else {
        order_fuel(a, cs[0] as int, fuel) + forest_order(a, cs.drop_first(), fuel)
    }
}

/// The pre-order of the subtree at `i`, the node itself first.
pub open spec fn subtree_order(a: Arena, i: int) -> Seq<int> {
    order_fuel(a, i, a.n() as nat)
}

/// The pre-order of the descendants of `i`, the node itself excluded.
pub open spec fn children_order(a: Arena, i: int) -> Seq<int> {
    forest_order(a, a.kids(i), a.n() as nat)
}

/// Fuel beyond one level per remaining slot changes nothing, as for the
/// serializer's token stream: ancestors, node and levels below are
/// distinct slots, so the walk never reaches the cut-off.
pub proof fn lemma_order_fuel_stable(a: Arena, i: int, f1: nat, f2: nat)
    requires
        a.wf(),
        a.live(i),
        f1 + a.ancs(i).len() >= a.n(),
        f2 + a.ancs(i).len() >= a.n(),
    ensures
        order_fuel(a, i, f1) == order_fuel(a, i, f2),
    decreases f1 + f2, 0int,
{
    a.lemma_ancs_short(i);
    assert(f1 >= 1 && f2 >= 1);
    assert forall|t: int| 0 <= t < a.kids(i).len() implies a.live(#[trigger] a.kids(i)[t] as int)
        && a.ancs(a.kids(i)[t] as int).len() == a.ancs(i).len() + 1 by {
        assert(a.kid_at(i, t) == a.kids(i)[t] as int);
        a.lemma_kid_ancs(i, t);
    }
    lemma_forest_order_fuel_stable(a, a.kids(i), (f1 - 1) as nat, (f2 - 1) as nat);
}

/// The forest face of the fuel-stability argument.
pub proof fn lemma_forest_order_fuel_stable(a: Arena, cs: Seq<usize>, g1: nat, g2: nat)
    requires
        a.wf(),
        forall|t: int|
            0 <= t < cs.len() ==> a.live(#[trigger] cs[t] as int) && g1 + a.ancs(
                cs[t] as int,
            ).len() >= a.n() && g2 + a.ancs(cs[t] as int).len() >= a.n(),
    ensures
        forest_order(a, cs, g1) == forest_order(a, cs, g2),
    decreases g1 + g2, cs.len(),
{
    if cs.len() == 0 {
    } else {
        lemma_order_fuel_stable(a, cs[0] as int, g1, g2);
        assert forall|t: int|
            0 <= t < cs.drop_first().len() implies a.live(
            #[trigger] cs.drop_first()[t] as int,
        ) && g1 + a.ancs(cs.drop_first()[t] as int).len() >= a.n() && g2 + a.ancs(
            cs.drop_first()[t] as int,
        ).len() >= a.n() by {
            assert(cs.drop_first()[t] == cs[t + 1]);
        }
        lemma_forest_order_fuel_stable(a, cs.drop_first(), g1, g2);
    }
}

/// Any fuel of at least one level per slot walks the whole subtree.
pub proof fn lemma_subtree_order_any_fuel(a: Arena, i: int, f: nat)
    requires
        a.wf(),
        a.live(i),
        f >= a.n(),
    ensures
        order_fuel(a, i, f) == subtree_order(a, i),
{
    lemma_order_fuel_stable(a, i, f, a.n() as nat);
}

/// Appending one tree at the end of a forest appends its order.
pub proof fn lemma_forest_order_push(a: Arena, cs: Seq<usize>, x: usize, fuel: nat)
    ensures
        forest_order(a, cs.push(x), fuel) == forest_order(a, cs, fuel) + order_fuel(
            a,
            x as int,
            fuel,
        ),
    decreases cs.len(),
{
    if cs.len() == 0 {
        assert(cs.push(x)[0] == x);
        assert(cs.push(x).drop_first() =~= Seq::<usize>::empty());
        assert(forest_order(a, Seq::<usize>::empty(), fuel) =~= Seq::<int>::empty());
        assert(forest_order(a, cs.push(x), fuel) =~= order_fuel(a, x as int, fuel));
        assert(forest_order(a, cs, fuel) + order_fuel(a, x as int, fuel) =~= order_fuel(
            a,
            x as int,
            fuel,
        ));
    } else {
        lemma_forest_order_push(a, cs.drop_first(), x, fuel);
        assert(cs.push(x)[0] == cs[0]);
        assert(cs.push(x).drop_first() =~= cs.drop_first().push(x));
        assert(forest_order(a, cs.push(x), fuel) =~= order_fuel(a, cs[0] as int, fuel)
            + forest_order(a, cs.drop_first().push(x), fuel));
        assert(forest_order(a, cs, fuel) + order_fuel(a, x as int, fuel) =~= order_fuel(
            a,
            cs[0] as int,
            fuel,
        ) + (forest_order(a, cs.drop_first(), fuel) + order_fuel(a, x as int, fuel)));
    }
}

/// The indexes of a handle list.
pub open spec fn handle_idxs(s: Seq<NodeHandle>) -> Seq<int> {
    s.map_values(|h: NodeHandle| h.idx as int)
}

/// Collects the handles of the subtree at live slot `i` in pre-order,
/// cut off at `fuel` levels.
pub fn collect_order(a: &Arena, i: usize, fuel: usize) -> (out: Vec<NodeHandle>)
    requires
        a.wf(),
        a.live(i as int),
    ensures
        handle_idxs(out@) == order_fuel(*a, i as int, fuel as nat),
        forall|t: int| 0 <= t < out@.len() ==> a.ok(#[trigger] out@[t]),
    decreases fuel,
{
    let mut out: Vec<NodeHandle> = Vec::new();
    if fuel == 0 {
        proof {
            assert(handle_idxs(out@) =~= order_fuel(*a, i as int, fuel as nat));
        }
        return out;
    }
    out.push(NodeHandle { idx: i, gen: a.slots[i].gen });
    proof {
        assert(handle_idxs(out@) =~= seq![i as int]);
    }
    let nk = a.slots[i].children.len();
    let mut j: usize = 0;
    while j < nk
        invariant
            a.wf(),
            a.live(i as int),
            fuel >= 1,
            nk == a.kids(i as int).len(),
            j <= nk,
            handle_idxs(out@) == seq![i as int] + forest_order(
                *a,
                a.kids(i as int).take(j as int),
                (fuel - 1) as nat,
            ),
            forall|t: int| 0 <= t < out@.len() ==> a.ok(#[trigger] out@[t]),
        decreases nk - j,
    {
        let c = a.slots[i].children[j];
        proof {
            assert(a.kid_at(i as int, j as int) == c as int);
            assert(a.live(c as int));
        }
        let ghost prev_idxs = handle_idxs(out@);
        let mut sub = collect_order(a, c, fuel - 1);
        out.append(&mut sub);
        proof {
            assert(handle_idxs(out@) =~= prev_idxs + order_fuel(*a, c as int, (fuel - 1) as nat));
            assert(a.kids(i as int).take(j as int + 1) =~= a.kids(i as int).take(j as int).push(
                c,
            ));
            lemma_forest_order_push(*a, a.kids(i as int).take(j as int), c, (fuel - 1) as nat);
            assert(handle_idxs(out@) =~= seq![i as int] + forest_order(
                *a,
                a.kids(i as int).take(j as int + 1),
                (fuel - 1) as nat,
            ));
        }
        j = j + 1;
    }
    proof {
        assert(a.kids(i as int).take(nk as int) =~= a.kids(i as int));
    }
    out
}

/// Everything a subtree's pre-order lists is the subtree's own node or
/// one of its proper descendants.
proof fn lemma_order_members(a: Arena, j: int, fuel: nat, x: int)
    requires
        a.wf(),
        a.live(j),
        order_fuel(a, j, fuel).contains(x),
    ensures
        x == j || a.is_anc(j, x),
    decreases fuel, 0int,
{
    if fuel == 0 {
        assert(order_fuel(a, j, fuel).len() == 0);
    } else {
        let s = order_fuel(a, j, fuel);
        let inner = forest_order(a, a.kids(j), (fuel - 1) as nat);
        assert(s == seq![j] + inner);
        if x != j {
            let t = choose|t: int| 0 <= t < s.len() && s[t] == x;
            assert(t >= 1) by {
                if t == 0 {
                    assert(s[0] == j);
                }
            }
            assert(inner[t - 1] == x);
            assert(inner.contains(x));
            assert forall|u: int| 0 <= u < a.kids(j).len() implies a.live(
                #[trigger] a.kids(j)[u] as int,
            ) by {
                assert(a.kid_at(j, u) == a.kids(j)[u] as int);
            }
            lemma_forest_members(a, a.kids(j), (fuel - 1) as nat, x);
            let u = choose|u: int|
                0 <= u < a.kids(j).len() && (x == a.kids(j)[u] as int || a.is_anc(
                    a.kids(j)[u] as int,
                    x,
                ));
            let c = a.kid_at(j, u);
            assert(a.live(c));
            a.lemma_anc_one(c);
            assert(a.kth_anc(c, 1) == Some(j)) by {
                assert(match a.parent_of(c) {
                    Some(q) => q as int == j,
                    None => false,
                });
            }
            if x == c {
                assert(a.is_anc(j, x));
            } else {
                let k = choose|k: nat| 1 <= k && a.kth_anc(x, k) == Some(c);
                a.lemma_anc_add(x, k, 1);
                assert(a.kth_anc(x, k + 1) == Some(j));
            }
        }
    }
}

/// Everything a forest's pre-order lists belongs to one of its trees.
proof fn lemma_forest_members(a: Arena, cs: Seq<usize>, fuel: nat, x: int)
    requires
        a.wf(),
        forall|t: int| 0 <= t < cs.len() ==> a.live(#[trigger] cs[t] as int),
        forest_order(a, cs, fuel).contains(x),
    ensures
        exists|t: int|
            0 <= t < cs.len() && (x == cs[t] as int || a.is_anc(#[trigger] cs[t] as int, x)),
    decreases fuel, cs.len(),
{
    assert(cs.len() > 0) by {
        if cs.len() == 0 {
            assert(forest_order(a, cs, fuel).len() == 0);
        }
    }
    let first = order_fuel(a, cs[0] as int, fuel);
    let rest = forest_order(a, cs.drop_first(), fuel);
    assert(forest_order(a, cs, fuel) == first + rest);
    let t = choose|t: int|
        0 <= t < forest_order(a, cs, fuel).len() && forest_order(a, cs, fuel)[t] == x;
    if t < first.len() {
        assert(first[t] == x);
        assert(first.contains(x));
        lemma_order_members(a, cs[0] as int, fuel, x);
        assert(x == cs[0] as int || a.is_anc(cs[0] as int, x));
    } else {
        assert(rest[t - first.len()] == x);
        assert(rest.contains(x));
        lemma_forest_members(a, cs.drop_first(), fuel, x);
        let u = choose|u: int|
            0 <= u < cs.drop_first().len() && (x == cs.drop_first()[u] as int || a.is_anc(
                cs.drop_first()[u] as int,
                x,
            ));
        assert(cs[u + 1] == cs.drop_first()[u]);
    }
}

/// Keeping first occurrences lists nothing twice.
proof fn lemma_dedup_nodup(s: Seq<int>)
    ensures
        dedup_ints(s).no_duplicates(),
    decreases s.len(),
{
    if s.len() > 0 {
        lemma_dedup_nodup(s.drop_last());
        let p = dedup_ints(s.drop_last());
        if !p.contains(s.last()) {
            assert forall|i: int, j: int|
                0 <= i < j < p.push(s.last()).len() implies p.push(s.last())[i] != p.push(
                s.last(),
            )[j] by {
                if j == p.len() {
                    assert(p[i] != s.last());
                }
            }
        }
    }
}

/// Keeping first occurrences lists nothing that was not there.
proof fn lemma_dedup_sub(s: Seq<int>, x: int)
    requires
        dedup_ints(s).contains(x),
    ensures
        s.contains(x),
    decreases s.len(),
{
    if s.len() > 0 {
        let p = dedup_ints(s.drop_last());
        if p.contains(s.last()) {
            lemma_dedup_sub(s.drop_last(), x);
            let t = choose|t: int| 0 <= t < s.drop_last().len() && s.drop_last()[t] == x;
            assert(s[t] == x);
        } else {
            if x == s.last() {
                assert(s[s.len() - 1] == x);
            } else {
                let t2 = choose|t2: int|
                    0 <= t2 < dedup_ints(s).len() && dedup_ints(s)[t2] == x;
                assert(t2 < p.len());
                assert(p.contains(x));
                lemma_dedup_sub(s.drop_last(), x);
                let t = choose|t: int| 0 <= t < s.drop_last().len() && s.drop_last()[t] == x;
                assert(s[t] == x);
            }
        }
    }
}

/// A children-only scope never lists its own scope root: the root is
/// excluded by the scope, and the tree has no cycles that could smuggle
/// it back in.  This holds of the raw pre-order and so of the query's
/// deduplicated candidates.
pub proof fn law_children_scope_excludes_root(d: Document, r: NodeHandle)
    requires
        d.wf(),
        d.arena.ok(r),
    ensures
        !children_order(d.arena, r.idx as int).contains(r.idx as int),
        !query_candidates(d, seq![r], false).contains(r.idx as int),
{
    law_children_order_excludes_root(d, r);
    if query_candidates(d, seq![r], false).contains(r.idx as int) {
        lemma_dedup_sub(roots_order(d, seq![r], false), r.idx as int);
        assert(seq![r].drop_last() =~= Seq::<NodeHandle>::empty());
        assert(roots_order(d, Seq::<NodeHandle>::empty(), false) =~= Seq::<int>::empty());
        assert(roots_order(d, seq![r], false) =~= scope_order(d, r, false));
        assert(children_order(d.arena, r.idx as int).contains(r.idx as int));
    }
}

/// The raw pre-order half of the scope-root exclusion.
proof fn law_children_order_excludes_root(d: Document, r: NodeHandle)
    requires
        d.wf(),
        d.arena.ok(r),
    ensures
        !children_order(d.arena, r.idx as int).contains(r.idx as int),
{
    let a = d.arena;
    let ri = r.idx as int;
    if children_order(a, ri).contains(ri) {
        assert forall|t: int| 0 <= t < a.kids(ri).len() implies a.live(
            #[trigger] a.kids(ri)[t] as int,
        ) by {
            assert(a.kid_at(ri, t) == a.kids(ri)[t] as int);
        }
        lemma_forest_members(a, a.kids(ri), a.n() as nat, ri);
        let t = choose|t: int|
            0 <= t < a.kids(ri).len() && (ri == a.kids(ri)[t] as int || a.is_anc(
                a.kids(ri)[t] as int,
                ri,
            ));
        let c = a.kid_at(ri, t);
        assert(a.live(c));
        a.lemma_anc_one(c);
        assert(a.kth_anc(c, 1) == Some(ri)) by {
            assert(match a.parent_of(c) {
                Some(q) => q as int == ri,
                None => false,
            });
        }
        if ri == c {
            // the root would be its own child, a one-step cycle
            assert(a.parent_of(ri) == Some(r.idx)) by {
                assert(match a.parent_of(c) {
                    Some(q) => q as int == ri,
                    None => false,
                });
                a.lemma_idx_cast(ri);
            }
            a.lemma_no_self_parent(ri);
        } else {
            // the root would sit below its own child, a longer cycle
            let k = choose|k: nat| 1 <= k && a.kth_anc(ri, k) == Some(c);
            a.lemma_anc_add(ri, k, 1);
            assert(a.kth_anc(ri, k + 1) == Some(ri));
            let k0 = choose|k0: nat| a.kth_anc(ri, k0) is None;
            a.lemma_periodic(ri, (k + 1) as nat, k0 + 1);
            assert((k0 + 1) * (k + 1) >= k0) by (nonlinear_arith)
                requires
                    k0 >= 0,
                    k >= 1,
            ;
            a.lemma_anc_none_stays(ri, k0, ((k0 + 1) * (k + 1)) as nat);
            assert(false);
        }
    }
}

/// Whether a query's scope includes its root node or only descendants.
pub enum MatchScope {
    IncludeNode,
    ChildrenOnly,
}

impl MatchScope {
    /// The scope, seen as a value the specifications can match on.
    pub open spec fn includes_node(self) -> bool {
        self is IncludeNode
    }
}

/// The scope of one root: its pre-order under the chosen scope, or
/// nothing for a stale handle.
pub open spec fn scope_order(d: Document, r: NodeHandle, include_node: bool) -> Seq<int> {
    if d.arena.ok(r) {
        if include_node {
            subtree_order(d.arena, r.idx as int)
        } else {
            children_order(d.arena, r.idx as int)
        }
    } else {
        Seq::empty()
    }
}

/// The concatenated scopes of a root list, in input order.
pub open spec fn roots_order(d: Document, roots: Seq<NodeHandle>, include_node: bool) -> Seq<int>
    decreases roots.len(),
{
    if roots.len() == 0 {
        Seq::empty()
    } else {
        roots_order(d, roots.drop_last(), include_node) + scope_order(
            d,
            roots.last(),
            include_node,
        )
    }
}

/// A slot sequence with later repetitions removed: each slot keeps its
/// first position.
pub open spec fn dedup_ints(s: Seq<int>) -> Seq<int>
    decreases s.len(),
{
    if s.len() == 0 {
        Seq::empty()
    } else {
        let p = dedup_ints(s.drop_last());
        if p.contains(s.last()) {
            p
        } else {
            p.push(s.last())
        }
    }
}

/// The candidates a query visits: the scopes of all roots in input
/// order, every live node of the combined scope exactly once.
pub open spec fn query_candidates(d: Document, roots: Seq<NodeHandle>, include_node: bool) -> Seq<
    int,
> {
    dedup_ints(roots_order(d, roots, include_node))
}

/// The explicit query cursor: the candidates still to visit, advanced
/// one node at a time as results are consumed, never restarted.
pub struct Matches {
    pub items: Vec<NodeHandle>,
    pub pos: usize,
}

impl Matches {
    /// The candidates this cursor was built over.
    pub open spec fn all(self) -> Seq<NodeHandle> {
        self.items@
    }

    /// How many candidates were already handed out.
    pub open spec fn at(self) -> int {
        self.pos as int
    }

    /// Builds the cursor for one scope root.
    pub fn from_one(dom: &Document, node: NodeHandle, match_scope: MatchScope) -> (m: Matches)
        requires
            dom.wf(),
        ensures
            handle_idxs(m.all()) == query_candidates(
                *dom,
                seq![node],
                match_scope.includes_node(),
            ),
            handle_idxs(m.all()).no_duplicates(),
            forall|t: int| 0 <= t < m.all().len() ==> dom.arena.ok(#[trigger] m.all()[t]),
            m.at() == 0,
    {
        let mut roots: Vec<NodeHandle> = Vec::new();
        roots.push(node);
        proof {
            assert(roots@ =~= seq![node]);
        }
        Matches::from_list(dom, &roots, match_scope)
    }

    /// Builds the cursor for a list of scope roots, deduplicated across
    /// all of them combined.
    pub fn from_list(dom: &Document, nodes: &Vec<NodeHandle>, match_scope: MatchScope) -> (m:
        Matches)
        requires
            dom.wf(),
        ensures
            handle_idxs(m.all()) == query_candidates(*dom, nodes@, match_scope.includes_node()),
            handle_idxs(m.all()).no_duplicates(),
            forall|t: int| 0 <= t < m.all().len() ==> dom.arena.ok(#[trigger] m.all()[t]),
            m.at() == 0,
    {
        let include_node = match match_scope {
            MatchScope::IncludeNode => true,
            MatchScope::ChildrenOnly => false,
        };
        let fuel = dom.arena.slots.len();
        let mut raw: Vec<NodeHandle> = Vec::new();
        let mut t: usize = 0;
        proof {
            assert(handle_idxs(raw@) =~= roots_order(*dom, nodes@.take(0), include_node));
        }
        while t < nodes.len()
            invariant
                dom.wf(),
                fuel == dom.arena.n(),
                t <= nodes@.len(),
                handle_idxs(raw@) == roots_order(*dom, nodes@.take(t as int), include_node),
                forall|u: int| 0 <= u < raw@.len() ==> dom.arena.ok(#[trigger] raw@[u]),
            decreases nodes@.len() - t,
        {
            let r = nodes[t];
            let ghost prev = handle_idxs(raw@);
            if dom.arena.is_ok(r) {
                if include_node {
                    let mut sub = collect_order(&dom.arena, r.idx, fuel);
                    raw.append(&mut sub);
                    proof {
                        assert(handle_idxs(raw@) =~= prev + subtree_order(
                            dom.arena,
                            r.idx as int,
                        ));
                    }
                } else {
                    let nk = dom.arena.slots[r.idx].children.len();
                    let mut j: usize = 0;
                    while j < nk
                        invariant
                            dom.wf(),
                            fuel == dom.arena.n(),
                            dom.arena.ok(r),
                            nk == dom.arena.kids(r.idx as int).len(),
                            j <= nk,
                            handle_idxs(raw@) == prev + forest_order(
                                dom.arena,
                                dom.arena.kids(r.idx as int).take(j as int),
                                fuel as nat,
                            ),
                            forall|u: int| 0 <= u < raw@.len() ==> dom.arena.ok(
                                #[trigger] raw@[u],
                            ),
                        decreases nk - j,
                    {
                        let c = dom.arena.slots[r.idx].children[j];
                        proof {
                            assert(dom.arena.kid_at(r.idx as int, j as int) == c as int);
                            assert(dom.arena.live(c as int));
                        }
                        let ghost prev2 = handle_idxs(raw@);
                        let mut sub = collect_order(&dom.arena, c, fuel);
                        raw.append(&mut sub);
                        proof {
                            assert(handle_idxs(raw@) =~= prev2 + order_fuel(
                                dom.arena,
                                c as int,
                                fuel as nat,
                            ));
                            assert(dom.arena.kids(r.idx as int).take(j as int + 1)
                                =~= dom.arena.kids(r.idx as int).take(j as int).push(c));
                            lemma_forest_order_push(
                                dom.arena,
                                dom.arena.kids(r.idx as int).take(j as int),
                                c,
                                fuel as nat,
                            );
                        }
                        j = j + 1;
                    }
                    proof {
                        assert(dom.arena.kids(r.idx as int).take(nk as int) =~= dom.arena.kids(
                            r.idx as int,
                        ));
                    }
                }
            }
            proof {
                assert(nodes@.take(t as int + 1).drop_last() =~= nodes@.take(t as int));
                assert(nodes@.take(t as int + 1).last() == nodes@[t as int]);
                assert(handle_idxs(raw@) =~= roots_order(
                    *dom,
                    nodes@.take(t as int + 1),
                    include_node,
                ));
            }
            t = t + 1;
        }
        proof {
            assert(nodes@.take(nodes@.len() as int) =~= nodes@);
        }
        // keep each slot's first occurrence only
        let mut items: Vec<NodeHandle> = Vec::new();
        let mut u: usize = 0;
        let ghost rawseq = handle_idxs(raw@);
        proof {
            assert(handle_idxs(items@) =~= dedup_ints(rawseq.take(0)));
        }
        while u < raw.len()
            invariant
                u <= raw@.len(),
                rawseq == handle_idxs(raw@),
                handle_idxs(items@) == dedup_ints(rawseq.take(u as int)),
                forall|w: int| 0 <= w < raw@.len() ==> dom.arena.ok(#[trigger] raw@[w]),
                forall|w: int| 0 <= w < items@.len() ==> dom.arena.ok(#[trigger] items@[w]),
            decreases raw@.len() - u,
        {
            let h = raw[u];
            let ghost previtems = handle_idxs(items@);
            proof {
                assert(rawseq.take(u as int + 1).drop_last() =~= rawseq.take(u as int));
                assert(rawseq.take(u as int + 1).last() == rawseq[u as int]);
            }
            let mut seen = false;
            let mut w: usize = 0;
            while w < items.len()
                invariant
                    w <= items@.len(),
                    previtems == handle_idxs(items@),
                    seen == exists|v: int|
                        0 <= v < w && (#[trigger] handle_idxs(items@)[v]) == h.idx as int,
                decreases items@.len() - w,
            {
                if items[w].idx == h.idx {
                    proof {
                        assert(handle_idxs(items@)[w as int] == h.idx as int);
                    }
                    seen = true;
                }
                w = w + 1;
            }
            proof {
                assert(seen == previtems.contains(h.idx as int));
            }
            if !seen {
                items.push(h);
                proof {
                    assert(handle_idxs(items@) =~= previtems.push(h.idx as int));
                }
            }
            u = u + 1;
        }
        proof {
            assert(rawseq.take(raw@.len() as int) =~= rawseq);
            lemma_dedup_nodup(rawseq);
        }
        Matches { items, pos: 0 }
    }

    /// The next candidate in document order, or nothing once the cursor
    /// is exhausted.
    pub fn next_candidate(&mut self) -> (r: Option<NodeHandle>)
        ensures
            final(self).all() == old(self).all(),
            old(self).at() < old(self).all().len() ==> r == Some(
                old(self).all()[old(self).at()],
            ) && final(self).at() == old(self).at() + 1,
            old(self).at() >= old(self).all().len() ==> r is None && final(self).at() == old(
                self,
            ).at(),
    {
        if self.pos < self.items.len() {
            let h = self.items[self.pos];
            self.pos = self.pos + 1;
            Some(h)
        } else {
            None
        }
    }
}

/// An owned, finite, ordered result of a completed query.
pub struct Selection {
    pub nodes: Vec<NodeHandle>,
}

impl Selection {
    /// Wraps a finished result list.
    pub fn new(nodes: Vec<NodeHandle>) -> (s: Selection)
        ensures
            s.nodes@ == nodes@,
    {
        Selection { nodes }
    }

    /// The number of results.
    pub fn len(&self) -> (r: usize)
        ensures
            r == self.nodes@.len(),
    {
        self.nodes.len()
    }

    /// Whether the query matched nothing.
    pub fn is_empty(&self) -> (r: bool)
        ensures
            r == (self.nodes@.len() == 0),
    {
        self.nodes.is_empty()
    }

    /// The result at `idx`, if any.
    pub fn get(&self, idx: usize) -> (r: Option<NodeHandle>)
        ensures
            idx < self.nodes@.len() ==> r == Some(self.nodes@[idx as int]),
            idx >= self.nodes@.len() ==> r is None,
    {
        if idx < self.nodes.len() {
            Some(self.nodes[idx])
        } else {
            None
        }
    }

    /// A copy of the results, for plain iteration.
    pub fn iter(&self) -> (r: Vec<NodeHandle>)
        ensures
            r@ == self.nodes@,
    {
        let mut r: Vec<NodeHandle> = Vec::new();
        let mut i: usize = 0;
        while i < self.nodes.len()
            invariant
                i <= self.nodes@.len(),
                r@ == self.nodes@.take(i as int),
            decreases self.nodes@.len() - i,
        {
            r.push(self.nodes[i]);
            i = i + 1;
            proof {
                assert(r@ =~= self.nodes@.take(i as int));
            }
        }
        proof {
            assert(self.nodes@.take(self.nodes@.len() as int) =~= self.nodes@);
        }
        r
    }
}

} // verus!
