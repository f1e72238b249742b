//! The laws this library states of itself, proved from the contracts of
//! the operations they speak of.

use vstd::prelude::*;
use crate::arena::Arena;
use crate::arena::NodeHandle;
use crate::builder::append_text_rel;
use crate::document::Document;
use crate::node::NodeV;

verus! {

/// Handle generation safety: a handle whose slot was deleted can never
/// resolve again, not even after a new node reuses the slot.  Every
/// mutating operation of the arena keeps retired handles retired, the
/// deletion operations retire the handles of what they deallocate, and a
/// retired handle never resolves.
pub proof fn law_generation_safety(a: Arena, h: NodeHandle)
    requires
        a.retired(h),
    ensures
        !a.ok(h),
{
}

/// The full shape of handle generation safety: a handle live before a
/// deletion of its slot is retired by it, and stays unresolvable
/// through any later operation, since every operation of the arena
/// keeps retired handles retired, whatever new node fills the slot.
pub proof fn law_stale_survives_reuse(pre: Arena, mid: Arena, post: Arena, h: NodeHandle)
    requires
        pre.ok(h),
        Arena::delete_post(pre, mid, h.idx),
        forall|h2: NodeHandle| #[trigger] mid.retired(h2) ==> post.retired(h2),
    ensures
        !mid.ok(h),
        !post.ok(h),
{
    assert(mid.retired(h)) by {
        if pre.gen_of(h.idx as int) < u64::MAX {
            assert(mid.gen_of(h.idx as int) == pre.gen_of(h.idx as int) + 1);
        } else {
            assert(mid.gen_of(h.idx as int) == u64::MAX);
            assert(!mid.live(h.idx as int));
        }
    }
    assert(post.retired(h));
}

/// Append reparents exactly once: appending a node attached under
/// another parent removes its every occurrence from the old parent's
/// children, appends it exactly once to the new parent's, moves the two
/// counts by one each, and leaves every other child list as it was.
pub proof fn law_append_reparents_once(pre: Arena, post: Arena, p: usize, c: usize, q: usize)
    requires
        pre.wf(),
        pre.live(p as int),
        pre.live(c as int),
        pre.parent_of(c as int) == Some(q),
        q != p,
        Arena::append_post(pre, post, p, c),
    ensures
        post.kids(p as int) == pre.kids(p as int).push(c),
        !pre.kids(p as int).contains(c),
        post.kids(q as int) == pre.kids(q as int).remove_value(c),
        !post.kids(q as int).contains(c),
        post.kids(p as int).len() == pre.kids(p as int).len() + 1,
        post.kids(q as int).len() == pre.kids(q as int).len() - 1,
        forall|i: int|
            0 <= i < pre.n() && i != p as int && i != q as int ==> #[trigger] post.kids(i)
                == pre.kids(i),
{
    assert(pre.has_kid(q as int, c as int));
    let jj = choose|jj: int|
        0 <= jj < pre.kids(q as int).len() && pre.kid_at(q as int, jj) == c as int;
    assert(pre.kids(q as int)[jj] == c);
    assert(pre.kids(q as int).contains(c));
    pre.kids(q as int).index_of_first_ensures(c);
    match pre.kids(q as int).index_of_first(c) {
        Some(k) => {
            assert(post.kids(q as int) == pre.kids(q as int).remove(k));
            assert(!post.kids(q as int).contains(c)) by {
                if post.kids(q as int).contains(c) {
                    let j2 = choose|j2: int|
                        0 <= j2 < post.kids(q as int).len() && post.kids(q as int)[j2] == c;
                    if j2 < k {
                        assert(pre.kid_at(q as int, j2) == c as int);
                        assert(pre.kid_at(q as int, k) == c as int);
                    } else {
                        assert(pre.kid_at(q as int, j2 + 1) == c as int);
                        assert(pre.kid_at(q as int, k) == c as int);
                    }
                }
            }
        },
        None => {
            assert(false);
        },
    }
    assert(!pre.kids(p as int).contains(c)) by {
        if pre.kids(p as int).contains(c) {
            let j = choose|j: int|
                0 <= j < pre.kids(p as int).len() && pre.kids(p as int)[j] == c;
            assert(pre.kid_at(p as int, j) == c as int);
            assert(match pre.parent_of(c as int) {
                Some(z) => z as int == p as int,
                None => false,
            });
        }
    }
    assert forall|i: int|
        0 <= i < pre.n() && i != p as int && i != q as int implies #[trigger] post.kids(i)
        == pre.kids(i) by {
        if i == c as int {
        } else {
            assert(post.slots@[i] == pre.slots@[i]);
        }
    }
}

/// Construction-time text coalescing: appending one run of text and
/// then another to the same parent, with nothing in between, leaves the
/// parent with exactly one new text child holding the concatenation.
pub proof fn law_text_append_coalesces(
    s0: Arena,
    s1: Arena,
    s2: Arena,
    parent: NodeHandle,
    t1: Seq<char>,
    t2: Seq<char>,
)
    requires
        append_text_rel(s0, s1, parent, t1),
        append_text_rel(s1, s2, parent, t2),
        s0.kids(parent.idx as int).len() == 0 || !(s0.node_at(
            s0.kids(parent.idx as int).last() as int,
        ) is Text),
    ensures
        s2.kids(parent.idx as int).len() == s0.kids(parent.idx as int).len() + 1,
        s2.node_at(s2.kids(parent.idx as int).last() as int) == (NodeV::Text { text: t1 + t2 }),
{
    let pi = parent.idx as int;
    let h = choose|h: NodeHandle|
        {
            &&& !s0.ok(h)
            &&& s1.ok(h)
            &&& s1.node_at(h.idx as int) == (NodeV::Text { text: t1 })
            &&& s1.kids(pi) == s0.kids(pi).push(h.idx)
            &&& #[trigger] s1.parent_of(h.idx as int) == Some(parent.idx)
            &&& forall|h2: NodeHandle|
                #[trigger] s0.ok(h2) ==> s1.ok(h2) && s1.node_at(h2.idx as int) == s0.node_at(
                    h2.idx as int,
                )
        };
    assert(s1.kids(pi).last() == h.idx);
    assert(s1.node_at(h.idx as int) is Text);
    assert(s1.kids(pi).len() > 0);
    assert(s2.kids(pi) == s1.kids(pi));
    assert(s2.node_at(h.idx as int) == (NodeV::Text { text: t1 + t2 }));
}

/// The two deletions differ on purpose: deleting a single node keeps
/// its children allocated and parentless, while removing a subtree
/// retires the node and every descendant.  The subtree half stands in
/// the contract of the removal itself; this is the single-delete half.
pub proof fn law_delete_orphans_children(pre: Arena, post: Arena, c: usize, j: int)
    requires
        pre.wf(),
        pre.live(c as int),
        Arena::delete_post(pre, post, c),
        0 <= j < pre.kids(c as int).len(),
    ensures
        post.live(pre.kid_at(c as int, j)),
        post.parent_of(pre.kid_at(c as int, j)) is None,
{
    let e = pre.kid_at(c as int, j);
    assert(pre.live(e));
    assert(e != c as int) by {
        if e == c as int {
            assert(match pre.parent_of(e) {
                Some(z) => z as int == c as int,
                None => false,
            });
            pre.lemma_no_self_parent(c as int);
        }
    }
    assert(post.live(e) == pre.live(e));
}

/// The single-delete half of the deletion-semantics difference, at the
/// document level: deleting a node (never the root) turns each of its
/// former children into an orphan — still allocated, parentless and not
/// the root — so each then appears in the document's orphan scan.
pub proof fn law_delete_leaves_orphans(pre: Document, post: Document, node: NodeHandle, j: int)
    requires
        pre.wf(),
        post.root == pre.root,
        node != pre.root,
        pre.arena.ok(node),
        Arena::delete_post(pre.arena, post.arena, node.idx),
        0 <= j < pre.arena.kids(node.idx as int).len(),
    ensures
        post.is_orphan_slot(pre.arena.kid_at(node.idx as int, j)),
{
    let e = pre.arena.kid_at(node.idx as int, j);
    law_delete_orphans_children(pre.arena, post.arena, node.idx, j);
    assert(e != pre.root.idx as int) by {
        if e == pre.root.idx as int {
            assert(match pre.arena.parent_of(e) {
                Some(z) => z as int == node.idx as int,
                None => false,
            });
            assert(pre.arena.parent_of(pre.root.idx as int) is None);
        }
    }
}

/// The subtree half of the deletion-semantics difference, at the
/// document level: a child of a removed node lies inside the removed
/// subtree, so the removal retires its handle too, and a retired handle
/// never resolves.  The hypothesis is the subtree-retirement clause of
/// the removal's own contract.
pub proof fn law_remove_retires_children(pre: Document, post: Document, node: NodeHandle, j: int)
    requires
        pre.wf(),
        pre.arena.ok(node),
        0 <= j < pre.arena.kids(node.idx as int).len(),
        forall|h2: NodeHandle|
            #[trigger] pre.arena.ok(h2) && pre.arena.in_subtree(node.idx as int, h2.idx as int)
                ==> post.arena.retired(h2),
    ensures
        post.arena.retired(pre.arena.handle_for(pre.arena.kid_at(node.idx as int, j))),
        !post.arena.ok(pre.arena.handle_for(pre.arena.kid_at(node.idx as int, j))),
{
    let e = pre.arena.kid_at(node.idx as int, j);
    let h = pre.arena.handle_for(e);
    assert(pre.arena.live(e));
    assert(pre.arena.ok(h));
    pre.arena.lemma_desc_kid(node.idx as int, node.idx as int, j);
    assert(pre.arena.in_subtree(node.idx as int, h.idx as int));
    law_generation_safety(post.arena, h);
}

} // verus!
