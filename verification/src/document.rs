//! The document facade: one arena, one root, a resolved quirks mode.

use vstd::prelude::*;
use crate::arena::Arena;
use crate::arena::NodeHandle;
use crate::node::Comment;
use crate::node::Element;
use crate::node::Node;
use crate::node::NodeV;
use crate::node::QualName;
use crate::node::Text;

verus! {

/// How the parser resolved the document's quirks mode.
#[derive(Clone, Copy, Debug, PartialEq, Eq, Structural)]
pub enum QuirksMode {
    NoQuirks,
    LimitedQuirks,
    Quirks,
}

/// One parsed document: the arena that owns its nodes, the root handle,
/// and the quirks mode.  The root is always present, always of document
/// kind, and never hangs under a parent.
pub struct Document {
    pub arena: Arena,
    pub root: NodeHandle,
    pub quirks: QuirksMode,
}

impl Document {
    /// The document invariant.
    pub open spec fn wf(self) -> bool {
        &&& self.arena.wf()
        &&& self.arena.ok(self.root)
        &&& self.arena.node_at(self.root.idx as int) is Document
        &&& self.arena.parent_of(self.root.idx as int) is None
    }

    /// Builds a document from finished parts.
    pub fn assemble(arena: Arena, root: NodeHandle, quirks: QuirksMode) -> (d: Document)
        requires
            arena.wf(),
            arena.ok(root),
            arena.node_at(root.idx as int) is Document,
            arena.parent_of(root.idx as int) is None,
        ensures
            d.wf(),
            d.arena == arena,
            d.root == root,
            d.quirks == quirks,
    {
        Document { arena, root, quirks }
    }

    /// The view of an element fresh from a bare name in the HTML
    /// namespace: no prefix, no attributes, no id, no classes.
    pub open spec fn bare_html_element(local: Seq<char>) -> NodeV {
        NodeV::Element(
            crate::node::ElementV {
                name: crate::node::QualNameV {
                    prefix: None,
                    ns: crate::node::spec_html_ns(),
                    local,
                },
                id: None,
                classes: Seq::empty(),
                attrs: Seq::empty(),
            },
        )
    }

    /// Synthesizes the minimal HTML5 document and nothing more: a doctype
    /// and a bare `html` element holding a childless bare `head` and a
    /// childless bare `body`, all under a fresh root, with no further
    /// node in the arena.
    pub fn new_html5() -> (d: Document)
        ensures
            d.wf(),
            d.quirks == QuirksMode::NoQuirks,
            d.arena.kids(d.root.idx as int).len() == 2,
            d.arena.node_at(d.arena.kid_at(d.root.idx as int, 0)) == (NodeV::Doctype {
                name: "html"@,
                public_id: Seq::<char>::empty(),
                system_id: Seq::<char>::empty(),
            }),
            d.arena.node_at(d.arena.kid_at(d.root.idx as int, 1)) == Document::bare_html_element(
                "html"@,
            ),
            ({
                let html = d.arena.kid_at(d.root.idx as int, 1);
                &&& d.arena.kids(html).len() == 2
                &&& d.arena.node_at(d.arena.kid_at(html, 0)) == Document::bare_html_element(
                    "head"@,
                )
                &&& d.arena.node_at(d.arena.kid_at(html, 1)) == Document::bare_html_element(
                    "body"@,
                )
                &&& d.arena.kids(d.arena.kid_at(html, 0)).len() == 0
                &&& d.arena.kids(d.arena.kid_at(html, 1)).len() == 0
                &&& d.arena.kids(d.arena.kid_at(d.root.idx as int, 0)).len() == 0
                &&& forall|i: int|
                    #[trigger] d.arena.live(i) <==> (i == d.root.idx as int || i == d.arena.kid_at(
                        d.root.idx as int,
                        0,
                    ) || i == html || i == d.arena.kid_at(html, 0) || i == d.arena.kid_at(html, 1))
            }),
    {
        let mut tree = Arena::new();
        let ghost s0 = tree;
        let root = tree.new_node(Node::Document);
        let ghost s1 = tree;
        let doctype = tree.new_node(
            Node::Doctype(
                crate::node::Doctype {
                    name: String::from_str("html"),
                    public_id: String::new(),
                    system_id: String::new(),
                },
            ),
        );
        let ghost s2 = tree;
        proof {
            Document::lemma_fresh_not_live(s1, s2, doctype, root.idx as int);
            tree.lemma_anc_one(root.idx as int);
            assert(tree.kth_anc(root.idx as int, 1) is None);
            assert(!tree.is_anc(doctype.idx as int, root.idx as int)) by {
                if tree.is_anc(doctype.idx as int, root.idx as int) {
                    let k = choose|k: nat|
                        1 <= k && tree.kth_anc(root.idx as int, k) == Some(doctype.idx as int);
                    tree.lemma_anc_none_stays(root.idx as int, 1, k);
                }
            }
        }
        tree.append(root, doctype);
        let ghost s3 = tree;
        let head_tag = tree.new_node(
            Node::Element(Element::new(QualName::html(String::from_str("head")), Vec::new())),
        );
        let ghost s4 = tree;
        let body_tag = tree.new_node(
            Node::Element(Element::new(QualName::html(String::from_str("body")), Vec::new())),
        );
        let ghost s5 = tree;
        let html_tag = tree.new_node(
            Node::Element(Element::new(QualName::html(String::from_str("html")), Vec::new())),
        );
        let ghost s6 = tree;
        proof {
            Document::lemma_fresh_not_live(s3, s4, head_tag, root.idx as int);
            Document::lemma_fresh_not_live(s3, s4, head_tag, doctype.idx as int);
            Document::lemma_fresh_not_live(s4, s5, body_tag, root.idx as int);
            Document::lemma_fresh_not_live(s4, s5, body_tag, doctype.idx as int);
            Document::lemma_fresh_not_live(s4, s5, body_tag, head_tag.idx as int);
            Document::lemma_fresh_not_live(s5, s6, html_tag, root.idx as int);
            Document::lemma_fresh_not_live(s5, s6, html_tag, doctype.idx as int);
            Document::lemma_fresh_not_live(s5, s6, html_tag, head_tag.idx as int);
            Document::lemma_fresh_not_live(s5, s6, html_tag, body_tag.idx as int);
            Document::lemma_fresh_attach(tree, html_tag, head_tag);
        }
        tree.append(html_tag, head_tag);
        let ghost s7 = tree;
        proof {
            Document::lemma_fresh_attach(tree, html_tag, body_tag);
        }
        tree.append(html_tag, body_tag);
        let ghost s8 = tree;
        proof {
            Document::lemma_fresh_attach(tree, root, html_tag);
        }
        tree.append(root, html_tag);
        proof {
            assert(crate::strutil::views_of(Seq::<String>::empty()) =~= Seq::<Seq<char>>::empty());
            assert(crate::node::attrs_view(Seq::<crate::node::Attr>::empty()) =~= Seq::<
                crate::node::AttrV,
            >::empty());
            // the two child lists, spelled out
            assert(tree.kids(root.idx as int) =~= seq![doctype.idx, html_tag.idx]) by {
                assert(s3.kids(root.idx as int) =~= Seq::<usize>::empty().push(doctype.idx));
                assert(s7.kids(root.idx as int) == s3.kids(root.idx as int)) by {
                    assert(s7.slots@[root.idx as int] == s6.slots@[root.idx as int]);
                }
                assert(s8.kids(root.idx as int) == s7.kids(root.idx as int)) by {
                    assert(s8.slots@[root.idx as int] == s7.slots@[root.idx as int]);
                }
                assert(tree.kids(root.idx as int) == s8.kids(root.idx as int).push(html_tag.idx));
            }
            assert(tree.kids(html_tag.idx as int) =~= seq![head_tag.idx, body_tag.idx]) by {
                assert(s7.kids(html_tag.idx as int) =~= Seq::<usize>::empty().push(head_tag.idx));
                assert(s8.kids(html_tag.idx as int) == s7.kids(html_tag.idx as int).push(
                    body_tag.idx,
                ));
                assert(tree.kids(html_tag.idx as int) == s8.kids(html_tag.idx as int));
            }
            assert(tree.kid_at(root.idx as int, 0) == doctype.idx as int);
            assert(tree.kid_at(root.idx as int, 1) == html_tag.idx as int);
            assert(tree.kid_at(html_tag.idx as int, 0) == head_tag.idx as int);
            assert(tree.kid_at(html_tag.idx as int, 1) == body_tag.idx as int);
            // the three leaves stay childless
            assert(tree.kids(doctype.idx as int).len() == 0) by {
                assert(s3.kids(doctype.idx as int) == s2.kids(doctype.idx as int));
                assert(s7.slots@[doctype.idx as int] == s6.slots@[doctype.idx as int]);
                assert(s8.slots@[doctype.idx as int] == s7.slots@[doctype.idx as int]);
                assert(tree.slots@[doctype.idx as int] == s8.slots@[doctype.idx as int]);
            }
            assert(tree.kids(head_tag.idx as int).len() == 0) by {
                assert(s7.kids(head_tag.idx as int) == s6.kids(head_tag.idx as int));
                assert(s8.slots@[head_tag.idx as int] == s7.slots@[head_tag.idx as int]);
                assert(tree.slots@[head_tag.idx as int] == s8.slots@[head_tag.idx as int]);
            }
            assert(tree.kids(body_tag.idx as int).len() == 0) by {
                assert(s7.slots@[body_tag.idx as int] == s6.slots@[body_tag.idx as int]);
                assert(s8.kids(body_tag.idx as int) == s7.kids(body_tag.idx as int));
                assert(tree.slots@[body_tag.idx as int] == s8.slots@[body_tag.idx as int]);
            }
            // the payloads, preserved from their allocations
            assert(tree.node_at(doctype.idx as int) =~~= (NodeV::Doctype {
                name: "html"@,
                public_id: Seq::<char>::empty(),
                system_id: Seq::<char>::empty(),
            }));
            assert(tree.node_at(head_tag.idx as int) =~~= Document::bare_html_element("head"@));
            assert(tree.node_at(body_tag.idx as int) =~~= Document::bare_html_element("body"@));
            assert(tree.node_at(html_tag.idx as int) =~~= Document::bare_html_element("html"@));
            // the arena holds these five nodes and nothing else
            assert forall|i: int|
                #[trigger] tree.live(i) <==> (i == root.idx as int || i == doctype.idx as int || i
                    == html_tag.idx as int || i == head_tag.idx as int || i
                    == body_tag.idx as int) by {
                assert(!s0.live(i));
                assert(s3.live(i) == s2.live(i)) by {
                    if !(0 <= i < s2.n()) {
                        assert(!s2.live(i) && !s3.live(i));
                    }
                }
                assert(s7.live(i) == s6.live(i)) by {
                    if !(0 <= i < s6.n()) {
                        assert(!s6.live(i) && !s7.live(i));
                    }
                }
                assert(s8.live(i) == s7.live(i)) by {
                    if !(0 <= i < s7.n()) {
                        assert(!s7.live(i) && !s8.live(i));
                    }
                }
                assert(tree.live(i) == s8.live(i)) by {
                    if !(0 <= i < s8.n()) {
                        assert(!s8.live(i) && !tree.live(i));
                    }
                }
            }
        }
        Document { quirks: QuirksMode::NoQuirks, arena: tree, root }
    }

    /// A handle fresh from an allocation never aliases a slot that was
    /// live before it: its slot was dead then, or its generation is new.
    proof fn lemma_fresh_not_live(pre: Arena, post: Arena, h: NodeHandle, i: int)
        requires
            !pre.ok(h),
            post.ok(h),
            pre.live(i),
            post.gen_of(i) == pre.gen_of(i),
        ensures
            h.idx as int != i,
    {
        if h.idx as int == i {
            assert(pre.live(h.idx as int) && pre.gen_of(h.idx as int) == h.gen);
        }
    }

    /// Resolves a handle; a stale handle yields nothing, never a fault
    /// and never another node.
    pub fn get(&self, node: NodeHandle) -> (r: Option<&Node>)
        ensures
            match r {
                Some(n) => self.arena.ok(node) && n@ == self.arena.node_at(node.idx as int),
                None => !self.arena.ok(node),
            },
    {
        self.arena.get(node)
    }

    /// Appends `child` as the last child of `parent`, reparenting it away
    /// from any old position.  The root, a stale handle on either side, or
    /// a cycle-producing pair leaves the document unchanged.
    pub fn append(&mut self, parent: NodeHandle, child: NodeHandle)
        requires
            old(self).wf(),
        ensures
            final(self).wf(),
            final(self).root == old(self).root,
            final(self).quirks == old(self).quirks,
            child == old(self).root || !old(self).arena.can_attach(parent, child) ==> *final(self)
                == *old(self),
            child != old(self).root && old(self).arena.can_attach(parent, child)
                ==> Arena::append_post(old(self).arena, final(self).arena, parent.idx, child.idx),
            forall|h2: NodeHandle| #[trigger] old(self).arena.ok(h2) ==> final(self).arena.ok(h2),
            forall|h2: NodeHandle| #[trigger] old(self).arena.retired(h2) ==> final(self).arena.retired(h2),
    {
        if child.idx == self.root.idx && child.gen == self.root.gen {
            return ;
        }
        let ghost pre = *self;
        self.arena.append(parent, child);
        proof {
            if pre.arena.can_attach(parent, child) {
                assert(Arena::append_post(pre.arena, self.arena, parent.idx, child.idx));
                assert(self.arena.parent_of(self.root.idx as int) is None) by {
                    assert(self.root.idx != child.idx);
                    assert(pre.arena.parent_of(pre.root.idx as int) is None);
                    if self.root.idx == parent.idx {
                    } else {
                        match pre.arena.parent_of(child.idx as int) {
                            None => {},
                            Some(q) => {
                                if self.root.idx as int == q as int {
                                } else {
                                    assert(self.arena.slots@[self.root.idx as int]
                                        == pre.arena.slots@[self.root.idx as int]);
                                }
                            },
                        }
                    }
                }
            }
        }
    }

    /// Detaches and deallocates the node and its whole subtree; all their
    /// handles go stale for good.  The root or a stale handle leaves the
    /// document unchanged.
    pub fn remove(&mut self, node: NodeHandle)
        requires
            old(self).wf(),
        ensures
            final(self).wf(),
            final(self).root == old(self).root,
            final(self).quirks == old(self).quirks,
            node == old(self).root || !old(self).arena.ok(node) ==> *final(self) == *old(self),
            node != old(self).root && old(self).arena.ok(node) ==> final(self).arena.retired(node)
                && (forall|h2: NodeHandle|
                #[trigger] old(self).arena.ok(h2) && old(self).arena.in_subtree(
                    node.idx as int,
                    h2.idx as int,
                ) ==> final(self).arena.retired(h2)) && (forall|h2: NodeHandle|
                #[trigger] old(self).arena.ok(h2) && !old(self).arena.in_subtree(
                    node.idx as int,
                    h2.idx as int,
                ) ==> final(self).arena.ok(h2) && final(self).arena.node_at(h2.idx as int) == old(
                    self,
                ).arena.node_at(h2.idx as int)),
            node != old(self).root && old(self).arena.ok(node) ==> (match old(
                self,
            ).arena.parent_of(node.idx as int) {
                Some(q) => final(self).arena.kids(q as int) == old(self).arena.kids(
                    q as int,
                ).remove_value(node.idx) && final(self).arena.parent_of(q as int) == old(
                    self,
                ).arena.parent_of(q as int),
                None => true,
            }) && (forall|i: int|
                0 <= i < old(self).arena.n() && final(self).arena.live(i) && (match old(
                    self,
                ).arena.parent_of(node.idx as int) {
                    Some(q) => i != q as int,
                    None => true,
                }) ==> #[trigger] final(self).arena.slots@[i] == old(self).arena.slots@[i]),
            node != old(self).root && old(self).arena.ok(node) ==> (forall|i: int|
                0 <= i < old(self).arena.n() ==> ((#[trigger] final(self).arena.live(i)) <==> (old(
                    self,
                ).arena.live(i) && !old(self).arena.in_subtree(node.idx as int, i)))),
            forall|h2: NodeHandle| #[trigger] old(self).arena.retired(h2) ==> final(self).arena.retired(h2),
    {
        if node.idx == self.root.idx && node.gen == self.root.gen {
            return ;
        }
        let ghost pre = *self;
        self.arena.remove_subtree(node);
        proof {
            if pre.arena.ok(node) {
                assert(!pre.arena.in_subtree(node.idx as int, pre.root.idx as int)) by {
                    pre.arena.lemma_anc_one(pre.root.idx as int);
                    if pre.arena.is_anc(node.idx as int, pre.root.idx as int) {
                        let k = choose|k: nat|
                            1 <= k && pre.arena.kth_anc(pre.root.idx as int, k) == Some(
                                node.idx as int,
                            );
                        pre.arena.lemma_anc_none_stays(pre.root.idx as int, 1, k);
                    }
                }
                assert(self.arena.ok(self.root));
                assert(self.arena.node_at(self.root.idx as int) is Document);
                assert(self.arena.parent_of(self.root.idx as int) is None) by {
                    match pre.arena.parent_of(node.idx as int) {
                        Some(q) => {
                            if self.root.idx as int == q as int {
                                assert(self.arena.parent_of(q as int) == pre.arena.parent_of(
                                    q as int,
                                ));
                            } else {
                                assert(self.arena.slots@[self.root.idx as int]
                                    == pre.arena.slots@[self.root.idx as int]);
                            }
                        },
                        None => {
                            assert(self.arena.slots@[self.root.idx as int]
                                == pre.arena.slots@[self.root.idx as int]);
                        },
                    }
                }
            }
        }
    }

    /// Unlinks the node from its parent, keeping it and its whole
    /// subtree allocated, addressable and re-appendable.
    pub fn detach(&mut self, node: NodeHandle)
        requires
            old(self).wf(),
        ensures
            final(self).wf(),
            final(self).root == old(self).root,
            final(self).quirks == old(self).quirks,
            !old(self).arena.ok(node) ==> *final(self) == *old(self),
            old(self).arena.ok(node) ==> Arena::detach_post(
                old(self).arena,
                final(self).arena,
                node.idx,
            ),
            forall|h2: NodeHandle| #[trigger] old(self).arena.ok(h2) ==> final(self).arena.ok(h2),
            forall|h2: NodeHandle| #[trigger] old(self).arena.retired(h2) ==> final(self).arena.retired(h2),
    {
        let ghost pre = *self;
        self.arena.detach(node);
        proof {
            if pre.arena.ok(node) {
                assert(self.arena.parent_of(self.root.idx as int) is None) by {
                    match pre.arena.parent_of(node.idx as int) {
                        None => {
                            assert(self.arena.slots@ == pre.arena.slots@);
                        },
                        Some(q) => {
                            if pre.root.idx as int == node.idx as int {
                            } else if pre.root.idx as int == q as int {
                                assert(self.arena.parent_of(q as int) == pre.arena.parent_of(
                                    q as int,
                                ));
                            } else {
                                assert(self.arena.slots@[pre.root.idx as int]
                                    == pre.arena.slots@[pre.root.idx as int]);
                            }
                        },
                    }
                }
            }
        }
    }

    /// Deletes the single node only: its children stay allocated and
    /// become parentless orphans, deliberately unlike `remove`.  The root
    /// or a stale handle leaves the document unchanged.
    pub fn delete(&mut self, node: NodeHandle)
        requires
            old(self).wf(),
        ensures
            final(self).wf(),
            final(self).root == old(self).root,
            final(self).quirks == old(self).quirks,
            node == old(self).root || !old(self).arena.ok(node) ==> *final(self) == *old(self),
            node != old(self).root && old(self).arena.ok(node) ==> Arena::delete_post(
                old(self).arena,
                final(self).arena,
                node.idx,
            ) && final(self).arena.retired(node),
            forall|h2: NodeHandle|
                #[trigger] old(self).arena.ok(h2) && h2.idx != node.idx ==> final(self).arena.ok(
                    h2,
                ) && final(self).arena.node_at(h2.idx as int) == old(self).arena.node_at(
                    h2.idx as int,
                ),
            forall|h2: NodeHandle| #[trigger] old(self).arena.retired(h2) ==> final(self).arena.retired(h2),
    {
        if node.idx == self.root.idx && node.gen == self.root.gen {
            return ;
        }
        let ghost pre = *self;
        self.arena.remove(node);
        proof {
            if pre.arena.ok(node) {
                assert(self.arena.ok(self.root)) by {
                    assert(pre.arena.ok(pre.root) && pre.root.idx != node.idx);
                }
                assert(self.arena.node_at(self.root.idx as int) is Document);
                assert(self.arena.parent_of(self.root.idx as int) is None) by {
                    assert(Arena::delete_post(pre.arena, self.arena, node.idx));
                    assert(!pre.arena.has_kid(node.idx as int, self.root.idx as int)) by {
                        if pre.arena.has_kid(node.idx as int, self.root.idx as int) {
                            let j = choose|j: int|
                                0 <= j < pre.arena.kids(node.idx as int).len()
                                    && pre.arena.kid_at(node.idx as int, j)
                                    == self.root.idx as int;
                            assert(match pre.arena.parent_of(self.root.idx as int) {
                                Some(z) => z as int == node.idx as int,
                                None => false,
                            });
                        }
                    }
                    assert(self.arena.parent_of(self.root.idx as int) == pre.arena.parent_of(
                        self.root.idx as int,
                    ));
                }
            }
        }
    }

    /// Moves `node` directly in front of `sibling` under the sibling's
    /// parent.  The root as the moved node, stale handles, a sibling
    /// without a parent or a cycle-producing pair leave the document
    /// unchanged.
    pub fn insert_before(&mut self, sibling: NodeHandle, node: NodeHandle)
        requires
            old(self).wf(),
        ensures
            final(self).wf(),
            final(self).root == old(self).root,
            final(self).quirks == old(self).quirks,
            node == old(self).root || !old(self).arena.can_insert_before(sibling, node) ==> *final(self) == *old(self),
            node != old(self).root && old(self).arena.can_insert_before(sibling, node)
                ==> Arena::insert_before_post(
                old(self).arena,
                final(self).arena,
                sibling.idx,
                node.idx,
            ),
            forall|h2: NodeHandle| #[trigger] old(self).arena.ok(h2) ==> final(self).arena.ok(h2),
            forall|h2: NodeHandle| #[trigger] old(self).arena.retired(h2) ==> final(self).arena.retired(h2),
    {
        if node.idx == self.root.idx && node.gen == self.root.gen {
            return ;
        }
        let ghost pre = *self;
        self.arena.insert_before(sibling, node);
        proof {
            if pre.arena.can_insert_before(sibling, node) {
                assert(Arena::insert_before_post(pre.arena, self.arena, sibling.idx, node.idx));
                assert(self.arena.parent_of(self.root.idx as int) is None) by {
                    let p = pre.arena.parent_of(sibling.idx as int)->0;
                    assert(self.root.idx != node.idx);
                    if self.root.idx == p {
                    } else {
                        match pre.arena.parent_of(node.idx as int) {
                            None => {},
                            Some(q) => {
                                if self.root.idx as int == q as int {
                                } else {
                                    assert(self.arena.slots@[self.root.idx as int]
                                        == pre.arena.slots@[self.root.idx as int]);
                                }
                            },
                        }
                    }
                }
            }
        }
    }

    /// Creates a detached element in the HTML namespace, with no
    /// attributes, no id and no classes.
    pub fn create_element(&mut self, name: &str) -> (h: NodeHandle)
        requires
            old(self).wf(),
        ensures
            final(self).wf(),
            final(self).root == old(self).root,
            final(self).quirks == old(self).quirks,
            final(self).arena.ok(h),
            !old(self).arena.ok(h),
            final(self).arena.parent_of(h.idx as int) is None,
            final(self).arena.kids(h.idx as int) == Seq::<usize>::empty(),
            final(self).arena.node_at(h.idx as int) matches NodeV::Element(ev) && ev.name.local
                == name@ && ev.name.ns == crate::node::spec_html_ns() && ev.id is None
                && ev.classes == Seq::<Seq<char>>::empty() && ev.attrs == Seq::<
                crate::node::AttrV,
            >::empty(),
            forall|h2: NodeHandle| #[trigger] old(self).arena.ok(h2) ==> final(self).arena.ok(h2)
                && final(self).arena.node_at(h2.idx as int) == old(self).arena.node_at(
                h2.idx as int,
            ),
            forall|i: int|
                #[trigger] old(self).arena.live(i) ==> final(self).arena.parent_of(i) == old(
                    self,
                ).arena.parent_of(i) && final(self).arena.kids(i) == old(self).arena.kids(i)
                    && final(self).arena.gen_of(i) == old(self).arena.gen_of(i),
            forall|i: int|
                #[trigger] final(self).arena.live(i) <==> (old(self).arena.live(i) || i
                    == h.idx as int),
            forall|h2: NodeHandle| #[trigger] old(self).arena.retired(h2) ==> final(self).arena.retired(h2),
    {
        let qn = QualName::html(name.to_owned());
        let el = Element::new(qn, Vec::new());
        proof {
            assert(crate::node::attrs_view(Seq::<crate::node::Attr>::empty()) =~= Seq::<
                crate::node::AttrV,
            >::empty());
            assert(crate::strutil::views_of(Seq::<String>::empty()) =~= Seq::<Seq<char>>::empty());
        }
        let h = self.arena.new_node(Node::Element(el));
        h
    }

    /// Creates a detached text node.
    pub fn create_text(&mut self, text: &str) -> (h: NodeHandle)
        requires
            old(self).wf(),
        ensures
            final(self).wf(),
            final(self).root == old(self).root,
            final(self).quirks == old(self).quirks,
            final(self).arena.ok(h),
            !old(self).arena.ok(h),
            final(self).arena.parent_of(h.idx as int) is None,
            final(self).arena.kids(h.idx as int) == Seq::<usize>::empty(),
            final(self).arena.node_at(h.idx as int) == (NodeV::Text { text: text@ }),
            forall|h2: NodeHandle| #[trigger] old(self).arena.ok(h2) ==> final(self).arena.ok(h2)
                && final(self).arena.node_at(h2.idx as int) == old(self).arena.node_at(
                h2.idx as int,
            ),
            forall|i: int|
                #[trigger] old(self).arena.live(i) ==> final(self).arena.parent_of(i) == old(
                    self,
                ).arena.parent_of(i) && final(self).arena.kids(i) == old(self).arena.kids(i)
                    && final(self).arena.gen_of(i) == old(self).arena.gen_of(i),
            forall|i: int|
                #[trigger] final(self).arena.live(i) <==> (old(self).arena.live(i) || i
                    == h.idx as int),
            forall|h2: NodeHandle| #[trigger] old(self).arena.retired(h2) ==> final(self).arena.retired(h2),
    {
        self.arena.new_node(Node::Text(Text { text: text.to_owned() }))
    }

    /// Creates a detached comment node.
    pub fn create_comment(&mut self, comment: &str) -> (h: NodeHandle)
        requires
            old(self).wf(),
        ensures
            final(self).wf(),
            final(self).root == old(self).root,
            final(self).quirks == old(self).quirks,
            final(self).arena.ok(h),
            !old(self).arena.ok(h),
            final(self).arena.parent_of(h.idx as int) is None,
            final(self).arena.kids(h.idx as int) == Seq::<usize>::empty(),
            final(self).arena.node_at(h.idx as int) == (NodeV::Comment { text: comment@ }),
            forall|h2: NodeHandle| #[trigger] old(self).arena.ok(h2) ==> final(self).arena.ok(h2)
                && final(self).arena.node_at(h2.idx as int) == old(self).arena.node_at(
                h2.idx as int,
            ),
            forall|i: int|
                #[trigger] old(self).arena.live(i) ==> final(self).arena.parent_of(i) == old(
                    self,
                ).arena.parent_of(i) && final(self).arena.kids(i) == old(self).arena.kids(i)
                    && final(self).arena.gen_of(i) == old(self).arena.gen_of(i),
            forall|i: int|
                #[trigger] final(self).arena.live(i) <==> (old(self).arena.live(i) || i
                    == h.idx as int),
            forall|h2: NodeHandle| #[trigger] old(self).arena.retired(h2) ==> final(self).arena.retired(h2),
    {
        self.arena.new_node(Node::Comment(Comment { comment: comment.to_owned() }))
    }

    /// Whether live slot `i` holds an orphan: a non-root node without a
    /// parent.
    pub open spec fn is_orphan_slot(self, i: int) -> bool {
        self.arena.live(i) && i != self.root.idx as int && self.arena.parent_of(i) is None
    }

    /// The orphans: every live non-root node currently without a parent,
    /// in slot order, each exactly once.
    pub fn orhpans(&self) -> (r: Vec<NodeHandle>)
        requires
            self.wf(),
        ensures
            forall|t: int|
                0 <= t < r@.len() ==> self.is_orphan_slot((#[trigger] r@[t]).idx as int)
                    && self.arena.ok(r@[t]),
            forall|i: int| #[trigger] self.is_orphan_slot(i) ==> exists|t: int|
                0 <= t < r@.len() && r@[t].idx as int == i,
            forall|t1: int, t2: int|
                0 <= t1 < t2 < r@.len() ==> (#[trigger] r@[t1]).idx < (#[trigger] r@[t2]).idx,
    {
        let n = self.arena.slots.len();
        let mut r: Vec<NodeHandle> = Vec::new();
        let mut i: usize = 0;
        while i < n
            invariant
                self.wf(),
                n == self.arena.n(),
                i <= n,
                forall|t: int|
                    0 <= t < r@.len() ==> self.is_orphan_slot((#[trigger] r@[t]).idx as int)
                        && self.arena.ok(r@[t]) && (r@[t].idx as int) < i,
                forall|x: int| 0 <= x < i && #[trigger] self.is_orphan_slot(x) ==> exists|t: int|
                    0 <= t < r@.len() && r@[t].idx as int == x,
                forall|t1: int, t2: int|
                    0 <= t1 < t2 < r@.len() ==> (#[trigger] r@[t1]).idx < (#[trigger] r@[t2]).idx,
            decreases n - i,
        {
            let ghost prev = r@;
            if self.arena.slots[i].node.is_some() && !(i == self.root.idx)
                && self.arena.slots[i].parent.is_none() {
                r.push(NodeHandle { idx: i, gen: self.arena.slots[i].gen });
                proof {
                    assert(r@[r@.len() - 1].idx as int == i as int);
                    assert forall|x: int|
                        0 <= x < i + 1 && #[trigger] self.is_orphan_slot(x) implies exists|t: int|
                        0 <= t < r@.len() && r@[t].idx as int == x by {
                        if x < i {
                            let t = choose|t: int| 0 <= t < prev.len() && prev[t].idx as int == x;
                            assert(r@[t].idx as int == x);
                        }
                    }
                }
            } else {
                proof {
                    assert(!self.is_orphan_slot(i as int));
                    assert forall|x: int|
                        0 <= x < i + 1 && #[trigger] self.is_orphan_slot(x) implies exists|t: int|
                        0 <= t < r@.len() && r@[t].idx as int == x by {
                        if x < i {
                            let t = choose|t: int| 0 <= t < prev.len() && prev[t].idx as int == x;
                            assert(r@[t].idx as int == x);
                        }
                    }
                }
            }
            i = i + 1;
        }
        r
    }

    /// Deletes every node that is an orphan on entry, one by one; an
    /// orphan's children become orphans themselves and stay.  Every
    /// attached node and the root survive with payload and child list
    /// unchanged; a surviving node keeps its parent unless that parent
    /// was an entry-time orphan, in which case it ends parentless.
    pub fn remove_orphans(&mut self)
        requires
            old(self).wf(),
        ensures
            final(self).wf(),
            final(self).root == old(self).root,
            final(self).quirks == old(self).quirks,
            forall|i: int|
                #[trigger] old(self).is_orphan_slot(i) ==> !final(self).arena.ok(
                    old(self).arena.handle_for(i),
                ),
            forall|i: int|
                #[trigger] old(self).arena.live(i) && !old(self).is_orphan_slot(i)
                    ==> final(self).arena.live(i) && final(self).arena.gen_of(i) == old(
                    self,
                ).arena.gen_of(i) && final(self).arena.node_at(i) == old(self).arena.node_at(i)
                    && final(self).arena.kids(i) == old(self).arena.kids(i) && (match old(
                    self,
                ).arena.parent_of(i) {
                    Some(q) => if old(self).is_orphan_slot(q as int) {
                        final(self).arena.parent_of(i) is None
                    } else {
                        final(self).arena.parent_of(i) == old(self).arena.parent_of(i)
                    },
                    None => final(self).arena.parent_of(i) is None,
                }),
            forall|h2: NodeHandle| #[trigger] old(self).arena.retired(h2) ==> final(self).arena.retired(h2),
    {
        let nodes = self.orhpans();
        let ghost pre = *self;
        let mut t: usize = 0;
        while t < nodes.len()
            invariant
                pre == *old(self),
                pre.wf(),
                self.wf(),
                self.root == pre.root,
                self.quirks == pre.quirks,
                t <= nodes@.len(),
                forall|u: int|
                    0 <= u < nodes@.len() ==> pre.is_orphan_slot(
                        (#[trigger] nodes@[u]).idx as int,
                    ) && pre.arena.ok(nodes@[u]),
                forall|i: int| #[trigger] pre.is_orphan_slot(i) ==> exists|u: int|
                    0 <= u < nodes@.len() && nodes@[u].idx as int == i,
                forall|u1: int, u2: int|
                    0 <= u1 < u2 < nodes@.len() ==> (#[trigger] nodes@[u1]).idx
                        < (#[trigger] nodes@[u2]).idx,
                forall|u: int|
                    0 <= u < t ==> !self.arena.ok(#[trigger] nodes@[u]),
                forall|u: int|
                    t <= u < nodes@.len() ==> self.arena.ok(#[trigger] nodes@[u])
                        && self.arena.parent_of(nodes@[u].idx as int) is None,
                forall|i: int|
                    #[trigger] pre.arena.live(i) && !pre.is_orphan_slot(i) ==> self.arena.live(i)
                        && self.arena.gen_of(i) == pre.arena.gen_of(i) && self.arena.node_at(i)
                        == pre.arena.node_at(i) && self.arena.kids(i) == pre.arena.kids(i) && (
                    match pre.arena.parent_of(i) {
                        Some(q) => if (exists|u: int|
                            0 <= u < t && (#[trigger] nodes@[u]).idx == q) {
                            self.arena.parent_of(i) is None
                        } else {
                            self.arena.parent_of(i) == pre.arena.parent_of(i)
                        },
                        None => self.arena.parent_of(i) is None,
                    }),
                forall|h2: NodeHandle| #[trigger] pre.arena.retired(h2) ==> self.arena.retired(h2),
            decreases nodes@.len() - t,
        {
            let h = nodes[t];
            let ghost before = *self;
            self.delete(h);
            proof {
                assert(h != before.root) by {
                    assert(pre.is_orphan_slot(nodes@[t as int].idx as int));
                    assert(h.idx as int != pre.root.idx as int);
                }
                assert(before.arena.ok(h));
                assert(self.arena.retired(h));
                assert(!self.arena.ok(h)) by {
                    if self.arena.ok(h) {
                        assert(self.arena.gen_of(h.idx as int) == h.gen);
                    }
                }
                assert forall|u: int| 0 <= u < t + 1 implies !self.arena.ok(
                    #[trigger] nodes@[u],
                ) by {
                    if u < t {
                        assert(!before.arena.ok(nodes@[u]));
                        if self.arena.ok(nodes@[u]) {
                            assert(nodes@[u].idx != h.idx);
                            assert(before.arena.ok(nodes@[u]) || !self.arena.ok(nodes@[u])) by {
                                if nodes@[u].idx != h.idx && self.arena.ok(nodes@[u]) {
                                    assert(Arena::delete_post(
                                        before.arena,
                                        self.arena,
                                        h.idx,
                                    ));
                                    assert(self.arena.gen_of(nodes@[u].idx as int)
                                        == before.arena.gen_of(nodes@[u].idx as int));
                                    assert(self.arena.live(nodes@[u].idx as int)
                                        == before.arena.live(nodes@[u].idx as int));
                                }
                            }
                        }
                    }
                }
                let ghost hi = h.idx as int;
                assert(before.arena.parent_of(hi) is None) by {
                    assert(before.arena.ok(nodes@[t as int]));
                }
                assert(Arena::delete_post(before.arena, self.arena, h.idx));
                assert forall|u: int| t + 1 <= u < nodes@.len() implies self.arena.ok(
                    #[trigger] nodes@[u],
                ) && self.arena.parent_of(nodes@[u].idx as int) is None by {
                    assert(before.arena.ok(nodes@[u]));
                    assert(nodes@[u].idx != h.idx) by {
                        if u > t {
                            assert(nodes@[t as int].idx < nodes@[u].idx);
                        }
                    }
                    let x = nodes@[u].idx as int;
                    assert(before.arena.parent_of(x) is None);
                    assert(!before.arena.has_kid(hi, x)) by {
                        if before.arena.has_kid(hi, x) {
                            let j = choose|j: int|
                                0 <= j < before.arena.kids(hi).len() && before.arena.kid_at(hi, j)
                                    == x;
                            assert(match before.arena.parent_of(x) {
                                Some(z) => z as int == hi,
                                None => false,
                            });
                        }
                    }
                    assert(self.arena.parent_of(x) == before.arena.parent_of(x));
                }
                // the survivors: payload, child list and (possibly
                // cleared) parent, tracked one deletion further
                assert forall|i: int|
                    #[trigger] pre.arena.live(i) && !pre.is_orphan_slot(i) implies self.arena.live(
                    i,
                ) && self.arena.gen_of(i) == pre.arena.gen_of(i) && self.arena.node_at(i)
                    == pre.arena.node_at(i) && self.arena.kids(i) == pre.arena.kids(i) && (
                match pre.arena.parent_of(i) {
                    Some(q) => if (exists|u: int|
                        0 <= u < t + 1 && (#[trigger] nodes@[u]).idx == q) {
                        self.arena.parent_of(i) is None
                    } else {
                        self.arena.parent_of(i) == pre.arena.parent_of(i)
                    },
                    None => self.arena.parent_of(i) is None,
                }) by {
                    assert(i != hi) by {
                        if i == hi {
                            assert(pre.is_orphan_slot(nodes@[t as int].idx as int));
                        }
                    }
                    assert(before.arena.live(i) && before.arena.gen_of(i) == pre.arena.gen_of(i)
                        && before.arena.node_at(i) == pre.arena.node_at(i) && before.arena.kids(i)
                        == pre.arena.kids(i));
                    assert(self.arena.live(i) && self.arena.gen_of(i) == before.arena.gen_of(i)
                        && self.arena.slots@[i].node == before.arena.slots@[i].node);
                    assert(self.arena.kids(i) == before.arena.kids(i));
                    match pre.arena.parent_of(i) {
                        None => {
                            assert(before.arena.parent_of(i) is None);
                            assert(!before.arena.has_kid(hi, i)) by {
                                if before.arena.has_kid(hi, i) {
                                    let j = choose|j: int|
                                        0 <= j < before.arena.kids(hi).len()
                                            && before.arena.kid_at(hi, j) == i;
                                    assert(match before.arena.parent_of(i) {
                                        Some(z) => z as int == hi,
                                        None => false,
                                    });
                                }
                            }
                            assert(self.arena.parent_of(i) == before.arena.parent_of(i));
                        },
                        Some(q) => {
                            if exists|u: int| 0 <= u < t && (#[trigger] nodes@[u]).idx == q {
                                assert(before.arena.parent_of(i) is None);
                                assert(!before.arena.has_kid(hi, i)) by {
                                    if before.arena.has_kid(hi, i) {
                                        let j = choose|j: int|
                                            0 <= j < before.arena.kids(hi).len()
                                                && before.arena.kid_at(hi, j) == i;
                                        assert(match before.arena.parent_of(i) {
                                            Some(z) => z as int == hi,
                                            None => false,
                                        });
                                    }
                                }
                                assert(self.arena.parent_of(i) == before.arena.parent_of(i));
                                let u0 = choose|u: int|
                                    0 <= u < t && (#[trigger] nodes@[u]).idx == q;
                                assert(0 <= u0 < t + 1 && nodes@[u0].idx == q);
                            } else if q == h.idx {
                                assert(before.arena.parent_of(i) == Some(q));
                                assert(before.arena.has_kid(hi, i)) by {
                                    assert(before.arena.live(i));
                                }
                                let j = choose|j: int|
                                    0 <= j < before.arena.kids(hi).len() && before.arena.kid_at(
                                        hi,
                                        j,
                                    ) == i;
                                assert(self.arena.parent_of(
                                    before.arena.kid_at(hi, j),
                                ) is None);
                                assert(0 <= t < t + 1 && nodes@[t as int].idx == q);
                            } else {
                                assert(before.arena.parent_of(i) == Some(q));
                                assert(!before.arena.has_kid(hi, i)) by {
                                    if before.arena.has_kid(hi, i) {
                                        let j = choose|j: int|
                                            0 <= j < before.arena.kids(hi).len()
                                                && before.arena.kid_at(hi, j) == i;
                                        assert(match before.arena.parent_of(i) {
                                            Some(z) => z as int == hi,
                                            None => false,
                                        });
                                    }
                                }
                                assert(self.arena.parent_of(i) == before.arena.parent_of(i));
                                assert(!(exists|u: int|
                                    0 <= u < t + 1 && (#[trigger] nodes@[u]).idx == q)) by {
                                    if exists|u: int|
                                        0 <= u < t + 1 && (#[trigger] nodes@[u]).idx == q {
                                        let u0 = choose|u: int|
                                            0 <= u < t + 1 && (#[trigger] nodes@[u]).idx == q;
                                        if u0 < t {
                                            assert(nodes@[u0].idx == q);
                                        } else {
                                            assert(nodes@[t as int].idx == q);
                                        }
                                    }
                                }
                            }
                        },
                    }
                }
            }
            t = t + 1;
        }
        proof {
            assert forall|i: int| #[trigger] pre.is_orphan_slot(i) implies !self.arena.ok(
                pre.arena.handle_for(i),
            ) by {
                let u = choose|u: int| 0 <= u < nodes@.len() && nodes@[u].idx as int == i;
                assert(!self.arena.ok(nodes@[u]));
                assert(pre.arena.ok(nodes@[u]));
                assert(nodes@[u] == pre.arena.handle_for(i));
            }
            // an entry-time parent was cleared exactly when it was an
            // entry-time orphan
            assert forall|i: int|
                #[trigger] pre.arena.live(i) && !pre.is_orphan_slot(i) implies (match pre.arena.parent_of(
                i,
            ) {
                Some(q) => if pre.is_orphan_slot(q as int) {
                    self.arena.parent_of(i) is None
                } else {
                    self.arena.parent_of(i) == pre.arena.parent_of(i)
                },
                None => self.arena.parent_of(i) is None,
            }) by {
                match pre.arena.parent_of(i) {
                    Some(q) => {
                        if pre.is_orphan_slot(q as int) {
                            let u0 = choose|u: int|
                                0 <= u < nodes@.len() && nodes@[u].idx as int == q as int;
                            assert(0 <= u0 < nodes@.len() && (nodes@[u0]).idx == q);
                        } else {
                            assert(!(exists|u: int|
                                0 <= u < nodes@.len() && (#[trigger] nodes@[u]).idx == q)) by {
                                if exists|u: int|
                                    0 <= u < nodes@.len() && (#[trigger] nodes@[u]).idx == q {
                                    let u0 = choose|u: int|
                                        0 <= u < nodes@.len() && (#[trigger] nodes@[u]).idx == q;
                                    assert(pre.is_orphan_slot(nodes@[u0].idx as int));
                                }
                            }
                        }
                    },
                    None => {},
                }
            }
        }
    }

    /// The children of the addressed node, first to last.
    pub fn children(&self, node: NodeHandle) -> (r: Vec<NodeHandle>)
        requires
            self.wf(),
        ensures
            !self.arena.ok(node) ==> r@.len() == 0,
            self.arena.ok(node) ==> r@.len() == self.arena.kids(node.idx as int).len() && (
            forall|j: int|
                0 <= j < r@.len() ==> (#[trigger] r@[j]).idx == self.arena.kids(node.idx as int)[j]
                    && self.arena.ok(r@[j])),
    {
        self.arena.children_of(node)
    }

    /// The parent of the addressed node.
    pub fn parent(&self, node: NodeHandle) -> (r: Option<NodeHandle>)
        requires
            self.wf(),
        ensures
            match r {
                Some(ph) => self.arena.ok(node) && self.arena.parent_of(node.idx as int) == Some(
                    ph.idx,
                ) && self.arena.ok(ph),
                None => !self.arena.ok(node) || self.arena.parent_of(node.idx as int) is None,
            },
    {
        self.arena.parent(node)
    }

    /// The value of the named no-namespace attribute, when the handle
    /// addresses an element carrying it.
    pub fn attr(&self, node: NodeHandle, name: &str) -> (r: Option<&String>)
        requires
            self.wf(),
        ensures
            match r {
                Some(v) => self.arena.ok(node) && (self.arena.node_at(
                    node.idx as int,
                ) matches NodeV::Element(ev) && crate::node::attr_find(
                    ev.attrs,
                    Seq::empty(),
                    name@,
                ) == Some(v@)),
                None => !self.arena.ok(node) || !(self.arena.node_at(
                    node.idx as int,
                ) is Element) || (self.arena.node_at(node.idx as int) matches NodeV::Element(ev)
                    && crate::node::attr_find(ev.attrs, Seq::empty(), name@) is None),
            },
    {
        match self.arena.get(node) {
            None => None,
            Some(n) => match n.as_element() {
                None => None,
                Some(e) => e.attr(name),
            },
        }
    }

    /// A short name for the addressed node's kind: the element's own
    /// name, a fixed word for the other rendered kinds, and nothing for
    /// the roots, processing instructions and stale handles.
    pub fn node_type(&self, node: NodeHandle) -> (r: String)
        requires
            self.wf(),
        ensures
            !self.arena.ok(node) ==> r@ == Seq::<char>::empty(),
            self.arena.ok(node) ==> r@ == (match self.arena.node_at(node.idx as int) {
                NodeV::Comment { .. } => "comment"@,
                NodeV::Doctype { .. } => "doctype"@,
                NodeV::Element(e) => e.name.local,
                NodeV::Fragment => "fragment"@,
                NodeV::Text { .. } => "text"@,
                _ => Seq::<char>::empty(),
            }),
    {
        match self.arena.get(node) {
            None => String::new(),
            Some(n) => match n {
                Node::Comment(_) => String::from_str("comment"),
                Node::Doctype(_) => String::from_str("doctype"),
                Node::Element(e) => e.name.local.as_str().to_owned(),
                Node::Fragment => String::from_str("fragment"),
                Node::Text(_) => String::from_str("text"),
                _ => String::new(),
            },
        }
    }

    /// Replaces the text of a text node; anything else is left unchanged.
    pub fn set_text(&mut self, node: NodeHandle, text: &str)
        requires
            old(self).wf(),
        ensures
            final(self).wf(),
            final(self).root == old(self).root,
            final(self).quirks == old(self).quirks,
            !(old(self).arena.ok(node) && old(self).arena.node_at(node.idx as int) is Text)
                ==> *final(self) == *old(self),
            old(self).arena.ok(node) && old(self).arena.node_at(node.idx as int) is Text ==> final(self).arena.node_at(node.idx as int) == (NodeV::Text { text: text@ }) && Arena::payload_update(
                old(self).arena,
                final(self).arena,
                node.idx as int,
            ),
    {
        let ghost pre = *self;
        self.arena.text_set(node, text);
        proof {
            if pre.arena.ok(node) && pre.arena.node_at(node.idx as int) is Text {
                assert(node.idx as int != pre.root.idx as int) by {
                    if node.idx as int == pre.root.idx as int {
                        assert(pre.arena.node_at(pre.root.idx as int) is Document);
                    }
                }
                assert(self.arena.slots@[pre.root.idx as int]
                    == pre.arena.slots@[pre.root.idx as int]);
            }
        }
    }

    /// Sets an attribute on an element, under the same no-namespace key
    /// `attr` and `remove_attr` use, so that reading the name back
    /// yields the value just set; anything else is left unchanged.
    pub fn set_attr(&mut self, node: NodeHandle, attr: &str, value: &str)
        requires
            old(self).wf(),
        ensures
            final(self).wf(),
            final(self).root == old(self).root,
            final(self).quirks == old(self).quirks,
            !(old(self).arena.ok(node) && old(self).arena.node_at(node.idx as int) is Element)
                ==> *final(self) == *old(self),
            old(self).arena.ok(node) && old(self).arena.node_at(node.idx as int) is Element
                ==> ({
                &&& Arena::payload_update(old(self).arena, final(self).arena, node.idx as int)
                &&& final(self).arena.node_at(node.idx as int) matches NodeV::Element(ev) && {
                let old_ev = old(self).arena.node_at(node.idx as int)->Element_0;
                ev.attrs == crate::node::attrs_insert(
                    old_ev.attrs,
                    crate::node::AttrV {
                        name: crate::node::QualNameV {
                            prefix: None,
                            ns: Seq::empty(),
                            local: attr@,
                        },
                        value: value@,
                    },
                ) && crate::node::attr_find(ev.attrs, Seq::empty(), attr@) == Some(value@)
                    && ev.name == old_ev.name && ev.id == old_ev.id && ev.classes
                    == old_ev.classes
            }
            }),
    {
        let ghost pre = *self;
        self.arena.el_set_attr(node, attr, value);
        proof {
            if pre.arena.ok(node) && pre.arena.node_at(node.idx as int) is Element {
                assert(node.idx as int != pre.root.idx as int) by {
                    if node.idx as int == pre.root.idx as int {
                        assert(pre.arena.node_at(pre.root.idx as int) is Document);
                    }
                }
                assert(self.arena.slots@[pre.root.idx as int]
                    == pre.arena.slots@[pre.root.idx as int]);
                crate::node::lemma_attrs_insert_find(
                    pre.arena.node_at(node.idx as int)->Element_0.attrs,
                    crate::node::AttrV {
                        name: crate::node::QualNameV {
                            prefix: None,
                            ns: Seq::empty(),
                            local: attr@,
                        },
                        value: value@,
                    },
                );
            }
        }
    }

    /// Removes an attribute from an element, under the same
    /// no-namespace key `set_attr` writes, so that reading the name
    /// back yields nothing; anything else is left unchanged.
    pub fn remove_attr(&mut self, node: NodeHandle, attr: &str)
        requires
            old(self).wf(),
        ensures
            final(self).wf(),
            final(self).root == old(self).root,
            final(self).quirks == old(self).quirks,
            !(old(self).arena.ok(node) && old(self).arena.node_at(node.idx as int) is Element)
                ==> *final(self) == *old(self),
            old(self).arena.ok(node) && old(self).arena.node_at(node.idx as int) is Element
                ==> ({
                &&& Arena::payload_update(old(self).arena, final(self).arena, node.idx as int)
                &&& final(self).arena.node_at(node.idx as int) matches NodeV::Element(ev) && {
                let old_ev = old(self).arena.node_at(node.idx as int)->Element_0;
                ev.attrs == crate::node::attrs_remove(old_ev.attrs, Seq::empty(), attr@)
                    && crate::node::attr_find(ev.attrs, Seq::empty(), attr@) is None
                    && !crate::node::has_key(ev.attrs, Seq::empty(), attr@) && ev.name
                    == old_ev.name && ev.id == old_ev.id && ev.classes == old_ev.classes
            }
            }),
    {
        let ghost pre = *self;
        self.arena.el_remove_attr(node, attr);
        proof {
            if pre.arena.ok(node) && pre.arena.node_at(node.idx as int) is Element {
                assert(node.idx as int != pre.root.idx as int) by {
                    if node.idx as int == pre.root.idx as int {
                        assert(pre.arena.node_at(pre.root.idx as int) is Document);
                    }
                }
                assert(self.arena.slots@[pre.root.idx as int]
                    == pre.arena.slots@[pre.root.idx as int]);
                crate::node::lemma_attrs_remove_find(
                    pre.arena.node_at(node.idx as int)->Element_0.attrs,
                    Seq::<char>::empty(),
                    attr@,
                );
            }
        }
    }

    /// Adds a class to an element, unless an identical one is present;
    /// anything else is left unchanged.
    pub fn append_class(&mut self, node: NodeHandle, class: &str)
        requires
            old(self).wf(),
        ensures
            final(self).wf(),
            final(self).root == old(self).root,
            final(self).quirks == old(self).quirks,
            !(old(self).arena.ok(node) && old(self).arena.node_at(node.idx as int) is Element)
                ==> *final(self) == *old(self),
            old(self).arena.ok(node) && old(self).arena.node_at(node.idx as int) is Element
                ==> ({
                &&& Arena::payload_update(old(self).arena, final(self).arena, node.idx as int)
                &&& final(self).arena.node_at(node.idx as int) matches NodeV::Element(ev) && {
                let old_ev = old(self).arena.node_at(node.idx as int)->Element_0;
                ev.classes == (if old_ev.classes.contains(class@) {
                    old_ev.classes
                } else {
                    old_ev.classes.push(class@)
                }) && ev.name == old_ev.name && ev.id == old_ev.id && ev.attrs == old_ev.attrs
            }
            }),
    {
        let ghost pre = *self;
        self.arena.el_append_class(node, class);
        proof {
            if pre.arena.ok(node) && pre.arena.node_at(node.idx as int) is Element {
                assert(node.idx as int != pre.root.idx as int) by {
                    if node.idx as int == pre.root.idx as int {
                        assert(pre.arena.node_at(pre.root.idx as int) is Document);
                    }
                }
                assert(self.arena.slots@[pre.root.idx as int]
                    == pre.arena.slots@[pre.root.idx as int]);
            }
        }
    }

    /// Removes a class from an element when present exactly; anything
    /// else is left unchanged.
    pub fn remove_class(&mut self, node: NodeHandle, class: &str)
        requires
            old(self).wf(),
        ensures
            final(self).wf(),
            final(self).root == old(self).root,
            final(self).quirks == old(self).quirks,
            !(old(self).arena.ok(node) && old(self).arena.node_at(node.idx as int) is Element)
                ==> *final(self) == *old(self),
            old(self).arena.ok(node) && old(self).arena.node_at(node.idx as int) is Element
                ==> ({
                &&& Arena::payload_update(old(self).arena, final(self).arena, node.idx as int)
                &&& final(self).arena.node_at(node.idx as int) matches NodeV::Element(ev) && {
                let old_ev = old(self).arena.node_at(node.idx as int)->Element_0;
                ev.classes == old_ev.classes.remove_value(class@) && ev.name == old_ev.name
                    && ev.id == old_ev.id && ev.attrs == old_ev.attrs
            }
            }),
    {
        let ghost pre = *self;
        self.arena.el_remove_class(node, class);
        proof {
            if pre.arena.ok(node) && pre.arena.node_at(node.idx as int) is Element {
                assert(node.idx as int != pre.root.idx as int) by {
                    if node.idx as int == pre.root.idx as int {
                        assert(pre.arena.node_at(pre.root.idx as int) is Document);
                    }
                }
                assert(self.arena.slots@[pre.root.idx as int]
                    == pre.arena.slots@[pre.root.idx as int]);
            }
        }
    }

    /// A parentless node that is no ancestor of an attachment target can
    /// always be attached there.
    proof fn lemma_fresh_attach(a: Arena, parent: NodeHandle, child: NodeHandle)
        requires
            a.wf(),
            a.ok(parent),
            a.ok(child),
            parent.idx != child.idx,
            a.parent_of(parent.idx as int) is None,
        ensures
            a.can_attach(parent, child),
    {
        a.lemma_anc_one(parent.idx as int);
        assert(a.kth_anc(parent.idx as int, 1) is None);
        if a.is_anc(child.idx as int, parent.idx as int) {
            let k = choose|k: nat|
                1 <= k && a.kth_anc(parent.idx as int, k) == Some(child.idx as int);
            a.lemma_anc_none_stays(parent.idx as int, 1, k);
        }
    }
}

} // verus!
