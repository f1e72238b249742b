//! The construction adapter: the operation set a streaming HTML parser
//! drives to build the tree incrementally.

use vstd::prelude::*;
use crate::arena::Arena;
use crate::arena::NodeHandle;
use crate::document::Document;
use crate::document::QuirksMode;
use crate::node::Attr;
use crate::node::Comment;
use crate::node::Doctype;
use crate::node::Element;
use crate::node::Node;
use crate::node::NodeV;
use crate::node::ProcessingInstruction;
use crate::node::QualName;
use crate::node::Text;

verus! {

/// Either an existing node or a run of text to place in the tree.
pub enum NodeOrText {
    AppendNode(NodeHandle),
    AppendText(String),
}

/// The construction state: the growing arena, its root, the quirks mode
/// reported so far, and the parser's recoverable error messages, kept
/// but never surfaced as failure.
pub struct DocumentBuilder {
    pub arena: Arena,
    pub root: NodeHandle,
    pub quirks: QuirksMode,
    pub errors: Vec<String>,
}

/// What appending text to `parent` does: when the parent's last child is
/// already a text node the text concatenates onto it and no node
/// appears; otherwise a fresh text node is appended.
pub open spec fn append_text_rel(pre: Arena, post: Arena, parent: NodeHandle, text: Seq<char>) -> bool {
    let pi = parent.idx as int;
    if pre.kids(pi).len() > 0 && pre.node_at(pre.kids(pi).last() as int) is Text {
        let last = pre.kids(pi).last() as int;
        &&& Arena::payload_update(pre, post, last)
        &&& post.node_at(last) == (NodeV::Text {
            text: pre.node_at(last)->Text_text + text,
        })
        &&& post.kids(pi) == pre.kids(pi)
    } else {
        exists|h: NodeHandle|
            {
                &&& !pre.ok(h)
                &&& post.ok(h)
                &&& post.node_at(h.idx as int) == (NodeV::Text { text })
                &&& post.kids(pi) == pre.kids(pi).push(h.idx)
                &&& #[trigger] post.parent_of(h.idx as int) == Some(parent.idx)
                &&& forall|h2: NodeHandle|
                    #[trigger] pre.ok(h2) ==> post.ok(h2) && post.node_at(h2.idx as int)
                        == pre.node_at(h2.idx as int)
            }
    }
}

/// What placing text in front of `sibling` does: with no parent nothing
/// moves; a preceding text sibling takes the concatenation; otherwise a
/// fresh text node lands directly before `sibling`.
pub open spec fn insert_text_rel(pre: Arena, post: Arena, sibling: NodeHandle, text: Seq<char>) -> bool {
    match pre.parent_of(sibling.idx as int) {
        None => post == pre,
        Some(p) => {
            let ks = pre.kids(p as int);
            let jh = ks.index_of_first(sibling.idx)->0;
            if jh >= 1 && pre.node_at(ks[jh - 1] as int) is Text {
                &&& Arena::payload_update(pre, post, ks[jh - 1] as int)
                &&& post.node_at(ks[jh - 1] as int) == (NodeV::Text {
                    text: pre.node_at(ks[jh - 1] as int)->Text_text + text,
                })
            } else {
                exists|hh: NodeHandle|
                    {
                        &&& !pre.ok(hh)
                        &&& post.ok(hh)
                        &&& post.node_at(hh.idx as int) == (NodeV::Text { text })
                        &&& #[trigger] post.parent_of(hh.idx as int) == Some(p)
                        &&& post.kids(p as int) == ks.insert(jh, hh.idx)
                        &&& forall|h2: NodeHandle|
                            #[trigger] pre.ok(h2) ==> post.ok(h2) && post.node_at(h2.idx as int)
                                == pre.node_at(h2.idx as int)
                    }
            }
        },
    }
}

impl DocumentBuilder {
    /// The builder invariant: the arena is sound and the root is a
    /// parentless document node.
    pub open spec fn wf(self) -> bool {
        &&& self.arena.wf()
        &&& self.arena.ok(self.root)
        &&& self.arena.node_at(self.root.idx as int) is Document
        &&& self.arena.parent_of(self.root.idx as int) is None
    }

    /// Starts a fresh build: an arena holding only the document root.
    pub fn new() -> (b: DocumentBuilder)
        ensures
            b.wf(),
            b.quirks == QuirksMode::NoQuirks,
            b.arena.kids(b.root.idx as int).len() == 0,
            b.errors@.len() == 0,
            forall|i: int| #[trigger] b.arena.live(i) <==> i == b.root.idx as int,
    {
        let mut tree = Arena::new();
        let root = tree.new_node(Node::Document);
        DocumentBuilder { errors: Vec::new(), arena: tree, root, quirks: QuirksMode::NoQuirks }
    }

    /// Converts the finished state into a document; the builder is spent.
    pub fn finish(self) -> (d: Document)
        requires
            self.wf(),
        ensures
            d.wf(),
            d.arena == self.arena,
            d.root == self.root,
            d.quirks == self.quirks,
    {
        Document::assemble(self.arena, self.root, self.quirks)
    }

    /// Records a recoverable parse error; building always goes on.
    pub fn parse_error(&mut self, msg: String)
        requires
            old(self).wf(),
        ensures
            final(self).wf(),
            final(self).arena == old(self).arena,
            final(self).root == old(self).root,
            final(self).errors@ == old(self).errors@.push(msg),
    {
        self.errors.push(msg);
    }

    /// The handle of the document root.
    pub fn get_document(&self) -> (r: NodeHandle)
        ensures
            r == self.root,
    {
        self.root
    }

    /// The qualified name of the element the handle addresses.
    pub fn elem_name(&self, target: NodeHandle) -> (r: QualName)
        requires
            self.wf(),
            self.arena.ok(target),
            self.arena.node_at(target.idx as int) is Element,
        ensures
            r@ == self.arena.node_at(target.idx as int)->Element_0.name,
    {
        match self.arena.get(target) {
            Some(n) => match n.as_element() {
                Some(e) => e.name.duplicate(),
                None => {
                    proof {
                        assert(false);
                    }
                    QualName::html(String::new())
                },
            },
            None => {
                proof {
                    assert(false);
                }
                QualName::html(String::new())
            },
        }
    }

    /// Creates a detached element from a name and raw attributes.  A
    /// `template` element additionally receives a fragment child, since
    /// template contents live in a separate subtree.
    pub fn create_element(&mut self, name: QualName, attrs: Vec<Attr>) -> (h: NodeHandle)
        requires
            old(self).wf(),
        ensures
            final(self).wf(),
            final(self).root == old(self).root,
            final(self).quirks == old(self).quirks,
            final(self).arena.ok(h),
            !old(self).arena.ok(h),
            final(self).arena.node_at(h.idx as int) matches NodeV::Element(ev) && ev.name == name@
                && (match crate::node::find_by_local(crate::node::attrs_view(attrs@), "id"@) {
                Some(a) => ev.id == Some(a.value),
                None => ev.id is None,
            }) && (match crate::node::find_by_local(crate::node::attrs_view(attrs@), "class"@) {
                Some(a) => ev.classes == crate::strutil::dedup_first(
                    crate::strutil::split_ws(a.value),
                ),
                None => ev.classes == Seq::<Seq<char>>::empty(),
            }) && ev.attrs == crate::node::attrs_fold(crate::node::attrs_view(attrs@)),
            name@.ns == crate::node::spec_html_ns() && name@.local == "template"@
                ==> final(self).arena.kids(h.idx as int).len() == 1 && final(self).arena.node_at(
                final(self).arena.kid_at(h.idx as int, 0),
            ) is Fragment,
            !(name@.ns == crate::node::spec_html_ns() && name@.local == "template"@)
                ==> final(self).arena.kids(h.idx as int).len() == 0 && final(self).arena.parent_of(
                h.idx as int,
            ) is None,
            forall|h2: NodeHandle| #[trigger] old(self).arena.ok(h2) ==> final(self).arena.ok(h2)
                && final(self).arena.node_at(h2.idx as int) == old(self).arena.node_at(
                h2.idx as int,
            ),
            forall|i: int|
                #[trigger] old(self).arena.live(i) ==> final(self).arena.parent_of(i) == old(
                    self,
                ).arena.parent_of(i) && final(self).arena.kids(i) == old(self).arena.kids(i)
                    && final(self).arena.gen_of(i) == old(self).arena.gen_of(i),
            !(name@.ns == crate::node::spec_html_ns() && name@.local == "template"@)
                ==> (forall|i: int|
                #[trigger] final(self).arena.live(i) <==> (old(self).arena.live(i) || i
                    == h.idx as int)),
            name@.ns == crate::node::spec_html_ns() && name@.local == "template"@
                ==> (forall|i: int|
                #[trigger] final(self).arena.live(i) <==> (old(self).arena.live(i) || i
                    == h.idx as int || i == final(self).arena.kid_at(h.idx as int, 0))),
    {
        let ns_is_html = crate::strutil::str_eq(name.ns.as_str(), "http://www.w3.org/1999/xhtml");
        let is_template = ns_is_html && crate::strutil::str_eq(name.local.as_str(), "template");
        proof {
            reveal_strlit("http://www.w3.org/1999/xhtml");
        }
        let node = self.arena.new_node(Node::Element(Element::new(name, attrs)));
        if is_template {
            let child = self.arena.new_node(Node::Fragment);
            proof {
                self.arena.lemma_anc_one(node.idx as int);
                assert(self.arena.kth_anc(node.idx as int, 1) is None);
                if self.arena.is_anc(child.idx as int, node.idx as int) {
                    let k = choose|k: nat|
                        1 <= k && self.arena.kth_anc(node.idx as int, k) == Some(
                            child.idx as int,
                        );
                    self.arena.lemma_anc_none_stays(node.idx as int, 1, k);
                }
            }
            self.arena.append(node, child);
        }
        node
    }

    /// Creates a detached comment node.
    pub fn create_comment(&mut self, text: String) -> (h: NodeHandle)
        requires
            old(self).wf(),
        ensures
            final(self).wf(),
            final(self).root == old(self).root,
            final(self).quirks == old(self).quirks,
            final(self).arena.ok(h),
            !old(self).arena.ok(h),
            final(self).arena.node_at(h.idx as int) == (NodeV::Comment { text: text@ }),
            final(self).arena.parent_of(h.idx as int) is None,
            final(self).arena.kids(h.idx as int) == Seq::<usize>::empty(),
            forall|h2: NodeHandle| #[trigger] old(self).arena.ok(h2) ==> final(self).arena.ok(h2)
                && final(self).arena.node_at(h2.idx as int) == old(self).arena.node_at(
                h2.idx as int,
            ),
            forall|i: int|
                #[trigger] old(self).arena.live(i) ==> final(self).arena.parent_of(i) == old(
                    self,
                ).arena.parent_of(i) && final(self).arena.kids(i) == old(self).arena.kids(i)
                    && final(self).arena.gen_of(i) == old(self).arena.gen_of(i),
            forall|i: int|
                #[trigger] final(self).arena.live(i) <==> (old(self).arena.live(i) || i
                    == h.idx as int),
    {
        self.arena.new_node(Node::Comment(Comment { comment: text }))
    }

    /// Creates a detached processing instruction.
    pub fn create_pi(&mut self, target: String, data: String) -> (h: NodeHandle)
        requires
            old(self).wf(),
        ensures
            final(self).wf(),
            final(self).root == old(self).root,
            final(self).quirks == old(self).quirks,
            final(self).arena.ok(h),
            !old(self).arena.ok(h),
            final(self).arena.node_at(h.idx as int) == (NodeV::ProcessingInstruction {
                target: target@,
                data: data@,
            }),
            final(self).arena.parent_of(h.idx as int) is None,
            final(self).arena.kids(h.idx as int) == Seq::<usize>::empty(),
            forall|h2: NodeHandle| #[trigger] old(self).arena.ok(h2) ==> final(self).arena.ok(h2)
                && final(self).arena.node_at(h2.idx as int) == old(self).arena.node_at(
                h2.idx as int,
            ),
            forall|i: int|
                #[trigger] old(self).arena.live(i) ==> final(self).arena.parent_of(i) == old(
                    self,
                ).arena.parent_of(i) && final(self).arena.kids(i) == old(self).arena.kids(i)
                    && final(self).arena.gen_of(i) == old(self).arena.gen_of(i),
            forall|i: int|
                #[trigger] final(self).arena.live(i) <==> (old(self).arena.live(i) || i
                    == h.idx as int),
    {
        self.arena.new_node(Node::ProcessingInstruction(ProcessingInstruction { target, data }))
    }

    /// Appends a node or a run of text under `parent`.  Appended text
    /// concatenates onto the parent's current last child when that child
    /// is already text, instead of creating a new node.
    pub fn append(&mut self, parent: NodeHandle, child: NodeOrText)
        requires
            old(self).wf(),
        ensures
            final(self).wf(),
            final(self).root == old(self).root,
            final(self).quirks == old(self).quirks,
            child matches NodeOrText::AppendNode(id) ==> ((id != old(self).root && old(
                self,
            ).arena.can_attach(parent, id)) ==> Arena::append_post(
                old(self).arena,
                final(self).arena,
                parent.idx,
                id.idx,
            )),
            child matches NodeOrText::AppendNode(id) ==> ((id == old(self).root || !old(
                self,
            ).arena.can_attach(parent, id)) ==> *final(self) == *old(self)),
            child matches NodeOrText::AppendText(t) ==> (old(self).arena.ok(parent)
                ==> append_text_rel(old(self).arena, final(self).arena, parent, t@)),
            child matches NodeOrText::AppendText(t) ==> (!old(self).arena.ok(parent)
                ==> *final(self) == *old(self)),
    {
        match child {
            NodeOrText::AppendNode(id) => {
                let ghost pre = *self;
                if id.idx == self.root.idx && id.gen == self.root.gen {
                    return ;
                }
                self.arena.append(parent, id);
                proof {
                    if pre.arena.can_attach(parent, id) {
                        assert(self.arena.parent_of(self.root.idx as int) is None) by {
                            assert(self.root.idx != id.idx);
                            if self.root.idx == parent.idx {
                            } else {
                                match pre.arena.parent_of(id.idx as int) {
                                    None => {},
                                    Some(q) => {
                                        if self.root.idx as int == q as int {
                                        } else {
                                            assert(self.arena.slots@[self.root.idx as int]
                                                == pre.arena.slots@[self.root.idx as int]);
                                        }
                                    },
                                }
                            }
                        }
                    }
                }
            },
            NodeOrText::AppendText(text) => {
                self.append_text(parent, text);
            },
        }
    }

    /// Appends a run of text under `parent`, concatenating onto an
    /// existing final text child where possible.
    fn append_text(&mut self, parent: NodeHandle, text: String)
        requires
            old(self).wf(),
        ensures
            final(self).wf(),
            final(self).root == old(self).root,
            final(self).quirks == old(self).quirks,
            old(self).arena.ok(parent) ==> append_text_rel(
                old(self).arena,
                final(self).arena,
                parent,
                text@,
            ),
            !old(self).arena.ok(parent) ==> *final(self) == *old(self),
    {
        let ghost pre = *self;
        if !self.arena.is_ok(parent) {
            return ;
        }
        let last = self.arena.last_child(parent);
        let can_concat = match last {
            Some(lh) => match self.arena.get(lh) {
                Some(n) => n.is_text(),
                None => false,
            },
            None => false,
        };
        if can_concat {
            let lh = match last {
                Some(lh) => lh,
                None => {
                    proof {
                        assert(false);
                    }
                    parent
                },
            };
            self.arena.text_concat(lh, text.as_str());
            proof {
                let pi = parent.idx as int;
                assert(pre.arena.kids(pi).len() > 0);
                assert(lh.idx == pre.arena.kids(pi).last());
                assert(pre.arena.node_at(lh.idx as int) is Text);
                assert(self.arena.kids(pi) == pre.arena.kids(pi)) by {
                    if pi != lh.idx as int {
                        assert(self.arena.slots@[pi] == pre.arena.slots@[pi]);
                    }
                }
                assert(self.arena.parent_of(self.root.idx as int) is None) by {
                    if self.root.idx as int != lh.idx as int {
                        assert(self.arena.slots@[self.root.idx as int]
                            == pre.arena.slots@[self.root.idx as int]);
                    }
                }
                assert(self.arena.node_at(self.root.idx as int) is Document) by {
                    assert(pre.arena.node_at(self.root.idx as int) is Document);
                    if self.root.idx as int == lh.idx as int {
                        assert(pre.arena.node_at(lh.idx as int) is Text);
                    }
                }
            }
        } else {
            let ghost mid0 = *self;
            let child = self.arena.new_node(Node::Text(Text { text }));
            proof {
                self.arena.lemma_anc_one(parent.idx as int);
                // the fresh node is parentless, so it is no ancestor
                assert(!self.arena.is_anc(child.idx as int, parent.idx as int)) by {
                    if self.arena.is_anc(child.idx as int, parent.idx as int) {
                        let k = choose|k: nat|
                            1 <= k && self.arena.kth_anc(parent.idx as int, k) == Some(
                                child.idx as int,
                            );
                        Arena::lemma_childless_not_anc(
                            self.arena,
                            child.idx as int,
                            parent.idx as int,
                            k,
                        );
                    }
                }
                assert(self.arena.can_attach(parent, child));
            }
            let ghost mid = *self;
            self.arena.append(parent, child);
            proof {
                let pi = parent.idx as int;
                assert(Arena::append_post(mid.arena, self.arena, parent.idx, child.idx));
                assert(self.arena.kids(pi) =~= pre.arena.kids(pi).push(child.idx)) by {
                    assert(mid.arena.kids(pi) == pre.arena.kids(pi));
                }
                assert(self.arena.parent_of(self.root.idx as int) is None) by {
                    assert(self.root.idx != child.idx);
                    if self.root.idx == parent.idx {
                    } else {
                        assert(self.arena.slots@[self.root.idx as int]
                            == mid.arena.slots@[self.root.idx as int]);
                    }
                }
                if pre.arena.ok(parent) {
                    assert(append_text_rel(pre.arena, self.arena, parent, text@)) by {
                        assert(!pre.arena.ok(child)) by {
                            if pre.arena.ok(child) {
                                assert(mid0.arena.ok(child));
                            }
                        }
                        assert(self.arena.ok(child));
                        assert(self.arena.node_at(child.idx as int) == (NodeV::Text {
                            text: text@,
                        }));
                        assert(self.arena.parent_of(child.idx as int) == Some(parent.idx));
                        assert forall|h2: NodeHandle| #[trigger] pre.arena.ok(h2) implies
                            self.arena.ok(h2) && self.arena.node_at(h2.idx as int)
                            == pre.arena.node_at(h2.idx as int) by {
                            assert(mid.arena.ok(h2));
                            assert(mid.arena.node_at(h2.idx as int) == pre.arena.node_at(
                                h2.idx as int,
                            ));
                        }
                    }
                }
            }
        }
    }

    /// Places `child` by the nominal parent's state: an already attached
    /// nominal parent takes it as its preceding sibling, otherwise the
    /// fallback parent receives a plain append.  This mirrors foster
    /// parenting around table elements.
    pub fn append_based_on_parent_node(
        &mut self,
        element: NodeHandle,
        prev_element: NodeHandle,
        child: NodeOrText,
    )
        requires
            old(self).wf(),
        ensures
            final(self).wf(),
            final(self).root == old(self).root,
            final(self).quirks == old(self).quirks,
            child matches NodeOrText::AppendText(t) ==> ((old(self).arena.ok(element) && old(
                self,
            ).arena.parent_of(element.idx as int) is Some) ==> insert_text_rel(
                old(self).arena,
                final(self).arena,
                element,
                t@,
            )),
            child matches NodeOrText::AppendText(t) ==> ((!(old(self).arena.ok(element) && old(
                self,
            ).arena.parent_of(element.idx as int) is Some) && old(self).arena.ok(prev_element)
                && prev_element != old(self).root) ==> append_text_rel(
                old(self).arena,
                final(self).arena,
                prev_element,
                t@,
            )),
            child matches NodeOrText::AppendNode(id) ==> ((!(old(self).arena.ok(element) && old(
                self,
            ).arena.parent_of(element.idx as int) is Some) && id != old(self).root && old(
                self,
            ).arena.can_attach(prev_element, id)) ==> Arena::append_post(
                old(self).arena,
                final(self).arena,
                prev_element.idx,
                id.idx,
            )),
            child matches NodeOrText::AppendNode(id) ==> ((old(self).arena.ok(element) && old(
                self,
            ).arena.parent_of(element.idx as int) is Some) ==> exists|mid: Arena|
                {
                    &&& (old(self).arena.ok(id) ==> Arena::detach_post(
                        old(self).arena,
                        mid,
                        id.idx,
                    ))
                    &&& (!old(self).arena.ok(id) ==> mid == old(self).arena)
                    &&& ((id != old(self).root && #[trigger] mid.parent_of(
                        element.idx as int,
                    ) is Some && mid.ok(element)) ==> ((mid.can_insert_before(element, id)
                        ==> Arena::insert_before_post(
                        mid,
                        final(self).arena,
                        element.idx,
                        id.idx,
                    )) && (!mid.can_insert_before(element, id) ==> final(self).arena == mid)))
                    &&& ((id == old(self).root || mid.parent_of(element.idx as int) is None
                        || !mid.ok(element)) ==> final(self).arena == mid)
                }),
    {
        let attached = match self.arena.parent(element) {
            Some(_) => true,
            None => false,
        };
        if attached {
            self.append_before_sibling(element, child);
        } else {
            self.append(prev_element, child);
        }
    }

    /// Adds a doctype node directly under the document root.
    pub fn append_doctype_to_document(
        &mut self,
        name: String,
        public_id: String,
        system_id: String,
    )
        requires
            old(self).wf(),
        ensures
            final(self).wf(),
            final(self).root == old(self).root,
            final(self).quirks == old(self).quirks,
            final(self).arena.kids(old(self).root.idx as int).len() == old(self).arena.kids(
                old(self).root.idx as int,
            ).len() + 1,
            final(self).arena.node_at(
                final(self).arena.kids(old(self).root.idx as int).last() as int,
            ) == (NodeV::Doctype { name: name@, public_id: public_id@, system_id: system_id@ }),
            exists|h: NodeHandle|
                {
                    &&& !old(self).arena.ok(h)
                    &&& final(self).arena.ok(h)
                    &&& final(self).arena.node_at(h.idx as int) == (NodeV::Doctype {
                        name: name@,
                        public_id: public_id@,
                        system_id: system_id@,
                    })
                    &&& #[trigger] final(self).arena.parent_of(h.idx as int) == Some(
                        old(self).root.idx,
                    )
                    &&& final(self).arena.kids(old(self).root.idx as int) == old(self).arena.kids(
                        old(self).root.idx as int,
                    ).push(h.idx)
                    &&& forall|h2: NodeHandle|
                        #[trigger] old(self).arena.ok(h2) ==> final(self).arena.ok(h2)
                            && final(self).arena.node_at(h2.idx as int) == old(self).arena.node_at(
                            h2.idx as int,
                        )
                    &&& forall|i: int|
                        #[trigger] old(self).arena.live(i) && i != old(self).root.idx as int
                            ==> final(self).arena.parent_of(i) == old(self).arena.parent_of(i)
                            && final(self).arena.kids(i) == old(self).arena.kids(i)
                    &&& forall|i: int|
                        #[trigger] final(self).arena.live(i) <==> (old(self).arena.live(i) || i
                            == h.idx as int)
                },
    {
        let ghost pre = *self;
        let node = self.arena.new_node(Node::Doctype(Doctype { name, public_id, system_id }));
        proof {
            assert(self.arena.can_attach(self.root, node)) by {
                self.arena.lemma_anc_one(self.root.idx as int);
                if self.arena.is_anc(node.idx as int, self.root.idx as int) {
                    let k = choose|k: nat|
                        1 <= k && self.arena.kth_anc(self.root.idx as int, k) == Some(
                            node.idx as int,
                        );
                    self.arena.lemma_anc_none_stays(self.root.idx as int, 1, k);
                }
            }
        }
        let ghost mid = *self;
        let root = self.root;
        self.arena.append(root, node);
        proof {
            assert(Arena::append_post(mid.arena, self.arena, root.idx, node.idx));
            assert(self.arena.kids(root.idx as int) == mid.arena.kids(root.idx as int).push(
                node.idx,
            ));
            assert(mid.arena.kids(root.idx as int) == pre.arena.kids(root.idx as int));
            // the fresh doctype node witnesses the published relation
            assert(!pre.arena.ok(node));
            assert(self.arena.ok(node)) by {
                assert(mid.arena.ok(node));
            }
            assert(self.arena.parent_of(node.idx as int) == Some(pre.root.idx));
            assert forall|h2: NodeHandle| #[trigger] pre.arena.ok(h2) implies self.arena.ok(h2)
                && self.arena.node_at(h2.idx as int) == pre.arena.node_at(h2.idx as int) by {
                assert(mid.arena.ok(h2));
                assert(mid.arena.node_at(h2.idx as int) == pre.arena.node_at(h2.idx as int));
            }
            assert forall|i: int|
                #[trigger] pre.arena.live(i) && i != pre.root.idx as int implies self.arena.parent_of(
                i,
            ) == pre.arena.parent_of(i) && self.arena.kids(i) == pre.arena.kids(i) by {
                assert(mid.arena.live(i));
                assert(i != node.idx as int) by {
                    if i == node.idx as int {
                        assert(!pre.arena.live(node.idx as int));
                    }
                }
                assert(self.arena.slots@[i] == mid.arena.slots@[i]);
                assert(mid.arena.parent_of(i) == pre.arena.parent_of(i));
                assert(mid.arena.kids(i) == pre.arena.kids(i));
            }
            assert forall|i: int|
                #[trigger] self.arena.live(i) <==> (pre.arena.live(i) || i
                    == node.idx as int) by {
                if 0 <= i < mid.arena.n() {
                    assert(self.arena.live(i) == mid.arena.live(i));
                } else {
                    assert(!self.arena.live(i) && !mid.arena.live(i) && !pre.arena.live(i));
                }
            }
        }
    }

    /// The fragment child that holds a template element's contents.
    /// Asking this of a node without children breaks the adapter
    /// contract, so the caller must not.
    pub fn get_template_contents(&mut self, target: NodeHandle) -> (r: NodeHandle)
        requires
            old(self).wf(),
            old(self).arena.ok(target),
            old(self).arena.kids(target.idx as int).len() > 0,
        ensures
            *final(self) == *old(self),
            final(self).arena.ok(r),
            r.idx == old(self).arena.kids(target.idx as int)[0],
    {
        match self.arena.first_child(target) {
            Some(c) => c,
            None => {
                proof {
                    assert(false);
                }
                target
            },
        }
    }

    /// Whether the two handles address the same node.
    pub fn same_node(&self, x: NodeHandle, y: NodeHandle) -> (r: bool)
        ensures
            r == (x == y),
    {
        x.idx == y.idx && x.gen == y.gen
    }

    /// Records the quirks mode the parser resolved.
    pub fn set_quirks_mode(&mut self, mode: QuirksMode)
        requires
            old(self).wf(),
        ensures
            final(self).wf(),
            final(self).arena == old(self).arena,
            final(self).root == old(self).root,
            final(self).quirks == mode,
    {
        self.quirks = mode;
    }

    /// Places a node or text directly in front of `sibling`.  A node is
    /// first detached from wherever it lives; text concatenates onto the
    /// sibling's preceding text node where there is one.  A sibling
    /// without a parent takes nothing, though a node operand is detached
    /// all the same.
    pub fn append_before_sibling(&mut self, sibling: NodeHandle, new_node: NodeOrText)
        requires
            old(self).wf(),
        ensures
            final(self).wf(),
            final(self).root == old(self).root,
            final(self).quirks == old(self).quirks,
            new_node matches NodeOrText::AppendNode(id) ==> exists|mid: Arena|
                {
                    &&& (old(self).arena.ok(id) ==> Arena::detach_post(
                        old(self).arena,
                        mid,
                        id.idx,
                    ))
                    &&& (!old(self).arena.ok(id) ==> mid == old(self).arena)
                    &&& ((id != old(self).root && #[trigger] mid.parent_of(
                        sibling.idx as int,
                    ) is Some && mid.ok(sibling)) ==> ((mid.can_insert_before(sibling, id)
                        ==> Arena::insert_before_post(
                        mid,
                        final(self).arena,
                        sibling.idx,
                        id.idx,
                    )) && (!mid.can_insert_before(sibling, id) ==> final(self).arena == mid)))
                    &&& ((id == old(self).root || mid.parent_of(sibling.idx as int) is None
                        || !mid.ok(sibling)) ==> final(self).arena == mid)
                },
            new_node matches NodeOrText::AppendText(t) ==> (old(self).arena.ok(sibling)
                ==> insert_text_rel(old(self).arena, final(self).arena, sibling, t@)),
    {
        match new_node {
            NodeOrText::AppendNode(id) => {
                let ghost pre0 = *self;
                self.arena.detach(id);
                let ghost mid = self.arena;
                let has_parent = match self.arena.parent(sibling) {
                    Some(_) => true,
                    None => false,
                };
                if has_parent {
                    if !(id.idx == self.root.idx && id.gen == self.root.gen) {
                        let ghost pre = *self;
                        self.arena.insert_before(sibling, id);
                        proof {
                            if pre.arena.can_insert_before(sibling, id) {
                                assert(self.arena.parent_of(self.root.idx as int) is None) by {
                                    let p = pre.arena.parent_of(sibling.idx as int)->0;
                                    assert(self.root.idx != id.idx);
                                    if self.root.idx == p {
                                    } else {
                                        match pre.arena.parent_of(id.idx as int) {
                                            None => {},
                                            Some(q) => {
                                                if self.root.idx as int == q as int {
                                                } else {
                                                    assert(self.arena.slots@[self.root.idx as int]
                                                        == pre.arena.slots@[self.root.idx as int]);
                                                }
                                            },
                                        }
                                    }
                                }
                            }
                        }
                    }
                }
                proof {
                    // the arena after the detach witnesses the contract
                    assert((old(self).arena.ok(id) ==> Arena::detach_post(
                        old(self).arena,
                        mid,
                        id.idx,
                    )) && (!old(self).arena.ok(id) ==> mid == old(self).arena));
                }
            },
            NodeOrText::AppendText(text) => {
                let ghost pre0 = *self;
                let prev = self.arena.prev_sibling(sibling);
                let ghost was_ok = pre0.arena.ok(sibling);
                proof {
                    if was_ok {
                        match pre0.arena.parent_of(sibling.idx as int) {
                            None => {},
                            Some(p) => {
                                let ks = pre0.arena.kids(p as int);
                                assert(pre0.arena.has_kid(p as int, sibling.idx as int));
                                let jj = choose|jj: int|
                                    0 <= jj < ks.len() && pre0.arena.kid_at(p as int, jj)
                                        == sibling.idx as int;
                                assert(ks[jj] == sibling.idx);
                                assert(ks.contains(sibling.idx));
                                ks.index_of_first_ensures(sibling.idx);
                            },
                        }
                    }
                }
                let can_concat = match prev {
                    Some(ph) => match self.arena.get(ph) {
                        Some(n) => n.is_text(),
                        None => false,
                    },
                    None => false,
                };
                if can_concat {
                    let ph = match prev {
                        Some(ph) => ph,
                        None => {
                            proof {
                                assert(false);
                            }
                            sibling
                        },
                    };
                    let ghost pre = *self;
                    self.arena.text_concat(ph, text.as_str());
                    proof {
                        assert(self.arena.parent_of(self.root.idx as int) is None) by {
                            if self.root.idx as int != ph.idx as int {
                                assert(self.arena.slots@[self.root.idx as int]
                                    == pre.arena.slots@[self.root.idx as int]);
                            }
                        }
                        assert(self.arena.node_at(self.root.idx as int) is Document) by {
                            if self.root.idx as int == ph.idx as int {
                                assert(pre.arena.node_at(ph.idx as int) is Text);
                            }
                        }
                        // the found sibling sits directly before `sibling`
                        if was_ok {
                            let p = pre0.arena.parent_of(sibling.idx as int)->0;
                            let ks = pre0.arena.kids(p as int);
                            let jh = ks.index_of_first(sibling.idx)->0;
                            let j = choose|j: int|
                                1 <= j < ks.len() && #[trigger] ks[j] == sibling.idx && ph.idx
                                    == ks[j - 1];
                            assert(j == jh) by {
                                ks.index_of_first_ensures(sibling.idx);
                                if jh < j {
                                    assert(pre0.arena.kid_at(p as int, jh) == sibling.idx as int);
                                    assert(pre0.arena.kid_at(p as int, j) == sibling.idx as int);
                                } else if j < jh {
                                    assert(ks[j] != sibling.idx);
                                }
                            }
                            assert(pre0.arena.node_at(ks[jh - 1] as int) is Text);
                            assert(insert_text_rel(pre0.arena, self.arena, sibling, text@));
                        }
                    }
                } else {
                    let has_parent = match self.arena.parent(sibling) {
                        Some(_) => true,
                        None => false,
                    };
                    if has_parent {
                        let child = self.arena.new_node(Node::Text(Text { text }));
                        let ghost mid1 = *self;
                        proof {
                            // a fresh childless node is nobody's ancestor
                            assert(mid1.arena.can_insert_before(sibling, child)) by {
                                let p = mid1.arena.parent_of(sibling.idx as int)->0;
                                assert(mid1.arena.live(p as int));
                                assert(child.idx != p) by {
                                    if child.idx == p {
                                        assert(!pre0.arena.ok(child));
                                    }
                                }
                                if mid1.arena.is_anc(child.idx as int, p as int) {
                                    let k = choose|k: nat|
                                        1 <= k && mid1.arena.kth_anc(p as int, k) == Some(
                                            child.idx as int,
                                        );
                                    Arena::lemma_childless_not_anc(
                                        mid1.arena,
                                        child.idx as int,
                                        p as int,
                                        k,
                                    );
                                }
                            }
                        }
                        self.arena.insert_before(sibling, child);
                        proof {
                            assert(Arena::insert_before_post(
                                mid1.arena,
                                self.arena,
                                sibling.idx,
                                child.idx,
                            ));
                            assert(self.arena.parent_of(self.root.idx as int) is None) by {
                                let p = mid1.arena.parent_of(sibling.idx as int)->0;
                                assert(self.root.idx != child.idx);
                                if self.root.idx == p {
                                } else {
                                    assert(self.arena.slots@[self.root.idx as int]
                                        == mid1.arena.slots@[self.root.idx as int]);
                                }
                            }
                            if was_ok {
                                let p = pre0.arena.parent_of(sibling.idx as int)->0;
                                let ks = pre0.arena.kids(p as int);
                                let jh = ks.index_of_first(sibling.idx)->0;
                                ks.index_of_first_ensures(sibling.idx);
                                assert(!(jh >= 1 && pre0.arena.node_at(
                                    ks[jh - 1] as int,
                                ) is Text)) by {
                                    match prev {
                                        None => {
                                            assert(ks.len() > 0 && ks[0] == sibling.idx);
                                            assert(jh == 0) by {
                                                if jh > 0 {
                                                    assert(ks[0] != sibling.idx);
                                                }
                                            }
                                        },
                                        Some(ph) => {
                                            let j = choose|j: int|
                                                1 <= j < ks.len() && #[trigger] ks[j]
                                                    == sibling.idx && ph.idx == ks[j - 1];
                                            assert(j == jh) by {
                                                if jh < j {
                                                    assert(pre0.arena.kid_at(p as int, jh)
                                                        == sibling.idx as int);
                                                    assert(pre0.arena.kid_at(p as int, j)
                                                        == sibling.idx as int);
                                                } else if j < jh {
                                                    assert(ks[j] != sibling.idx);
                                                }
                                            }
                                            assert(pre0.arena.ok(ph));
                                            assert(!(pre0.arena.node_at(
                                                ph.idx as int,
                                            ) is Text));
                                        },
                                    }
                                }
                                assert(mid1.arena.kids(p as int) == ks);
                                assert(mid1.arena.parent_of(child.idx as int) is None);
                                assert(self.arena.kids(p as int) == ks.insert(jh, child.idx)) by {
                                    let base = mid1.arena.kids(p as int);
                                    let pos = base.index_of_first(sibling.idx)->0;
                                    assert(base == ks);
                                }
                                assert(self.arena.ok(child));
                                assert(self.arena.node_at(child.idx as int) == (NodeV::Text {
                                    text: text@,
                                }));
                                assert(self.arena.parent_of(child.idx as int) == Some(p));
                                assert(!pre0.arena.ok(child));
                                assert forall|h2: NodeHandle| #[trigger] pre0.arena.ok(h2) implies
                                    self.arena.ok(h2) && self.arena.node_at(h2.idx as int)
                                    == pre0.arena.node_at(h2.idx as int) by {
                                    assert(mid1.arena.ok(h2));
                                    assert(mid1.arena.node_at(h2.idx as int)
                                        == pre0.arena.node_at(h2.idx as int));
                                }
                                assert(insert_text_rel(pre0.arena, self.arena, sibling, text@));
                            }
                        }
                    } else {
                        proof {
                            if was_ok {
                                assert(pre0.arena.parent_of(sibling.idx as int) is None);
                                assert(insert_text_rel(pre0.arena, self.arena, sibling, text@));
                            }
                        }
                    }
                }
            },
        }
    }

    /// Adds each incoming attribute to the element only when no
    /// attribute of that name is present: the first occurrence wins.
    pub fn add_attrs_if_missing(&mut self, target: NodeHandle, attrs: Vec<Attr>)
        requires
            old(self).wf(),
        ensures
            final(self).wf(),
            final(self).root == old(self).root,
            final(self).quirks == old(self).quirks,
            final(self).errors == old(self).errors,
            !(old(self).arena.ok(target) && old(self).arena.node_at(target.idx as int) is Element)
                ==> *final(self) == *old(self),
            old(self).arena.ok(target) && old(self).arena.node_at(target.idx as int) is Element
                ==> ({
                &&& Arena::payload_update(old(self).arena, final(self).arena, target.idx as int)
                &&& final(self).arena.node_at(target.idx as int) matches NodeV::Element(ev) && {
                let old_ev = old(self).arena.node_at(target.idx as int)->Element_0;
                ev.attrs == crate::node::attrs_merge(old_ev.attrs, crate::node::attrs_view(attrs@))
                    && ev.name == old_ev.name && ev.id == old_ev.id && ev.classes
                    == old_ev.classes
            }
            }),
    {
        let ghost pre = *self;
        self.arena.el_merge_missing(target, attrs);
        proof {
            if pre.arena.ok(target) && pre.arena.node_at(target.idx as int) is Element {
                assert(target.idx as int != pre.root.idx as int) by {
                    if target.idx as int == pre.root.idx as int {
                        assert(pre.arena.node_at(pre.root.idx as int) is Document);
                    }
                }
                assert(self.arena.slots@[pre.root.idx as int]
                    == pre.arena.slots@[pre.root.idx as int]);
            }
        }
    }

    /// Unlinks the node from its parent; it stays allocated.
    pub fn remove_from_parent(&mut self, target: NodeHandle)
        requires
            old(self).wf(),
        ensures
            final(self).wf(),
            final(self).root == old(self).root,
            old(self).arena.ok(target) ==> Arena::detach_post(
                old(self).arena,
                final(self).arena,
                target.idx,
            ),
    {
        let ghost pre = *self;
        self.arena.detach(target);
        proof {
            if pre.arena.ok(target) {
                assert(self.arena.parent_of(self.root.idx as int) is None) by {
                    match pre.arena.parent_of(target.idx as int) {
                        None => {
                            assert(self.arena.slots@ == pre.arena.slots@);
                        },
                        Some(q) => {
                            if pre.root.idx as int == target.idx as int {
                            } else if pre.root.idx as int == q as int {
                                assert(self.arena.parent_of(q as int) == pre.arena.parent_of(
                                    q as int,
                                ));
                            } else {
                                assert(self.arena.slots@[pre.root.idx as int]
                                    == pre.arena.slots@[pre.root.idx as int]);
                            }
                        },
                    }
                }
            }
        }
    }

    /// Moves all of `node`'s children, in order, to the end of
    /// `new_parent`'s children.  When both handles resolve, the two
    /// differ and the new parent does not sit inside `node`'s subtree,
    /// the node is left childless and the new parent gains exactly the
    /// old children, in order, after its own.
    #[verifier::rlimit(60)]
    pub fn reparent_children(&mut self, node: NodeHandle, new_parent: NodeHandle)
        requires
            old(self).wf(),
        ensures
            final(self).wf(),
            final(self).root == old(self).root,
            final(self).quirks == old(self).quirks,
            forall|h2: NodeHandle|
                #[trigger] old(self).arena.ok(h2) ==> final(self).arena.ok(h2)
                    && final(self).arena.node_at(h2.idx as int) == old(self).arena.node_at(
                    h2.idx as int,
                ),
            forall|h2: NodeHandle| #[trigger] old(self).arena.retired(h2)
                ==> final(self).arena.retired(h2),
            (old(self).arena.ok(node) && old(self).arena.ok(new_parent) && node.idx
                != new_parent.idx && !old(self).arena.in_subtree(
                node.idx as int,
                new_parent.idx as int,
            )) ==> final(self).arena.kids(node.idx as int) == Seq::<usize>::empty()
                && final(self).arena.kids(new_parent.idx as int) == old(self).arena.kids(
                new_parent.idx as int,
            ) + old(self).arena.kids(node.idx as int),
    {
        let ghost a0 = old(self).arena;
        let ghost hyp = a0.ok(node) && a0.ok(new_parent) && node.idx != new_parent.idx
            && !a0.in_subtree(node.idx as int, new_parent.idx as int);
        let ghost ni = node.idx as int;
        let ghost pi = new_parent.idx as int;
        let kids = self.arena.children_of(node);
        proof {
            if hyp {
                assert(a0.kids(ni).skip(0) =~= a0.kids(ni));
                assert(a0.kids(pi) + a0.kids(ni).take(0) =~= a0.kids(pi));
                assert forall|u: int| 0 <= u < a0.kids(ni).len() implies a0.parent_of(
                    #[trigger] a0.kids(ni)[u] as int,
                ) == Some(node.idx) by {
                    assert(a0.kid_at(ni, u) == a0.kids(ni)[u] as int);
                }
            }
        }
        let mut t: usize = 0;
        while t < kids.len()
            invariant
                old(self).wf(),
                a0 == old(self).arena,
                hyp == (a0.ok(node) && a0.ok(new_parent) && node.idx != new_parent.idx
                    && !a0.in_subtree(ni, pi)),
                ni == node.idx as int,
                pi == new_parent.idx as int,
                self.wf(),
                self.root == old(self).root,
                self.quirks == old(self).quirks,
                t <= kids@.len(),
                hyp ==> kids@.len() == a0.kids(ni).len() && (forall|u: int|
                    0 <= u < kids@.len() ==> (#[trigger] kids@[u]).idx == a0.kids(ni)[u]
                        && a0.ok(kids@[u])),
                forall|h2: NodeHandle|
                    #[trigger] old(self).arena.ok(h2) ==> self.arena.ok(h2) && self.arena.node_at(
                        h2.idx as int,
                    ) == old(self).arena.node_at(h2.idx as int),
                forall|h2: NodeHandle| #[trigger] old(self).arena.retired(h2)
                    ==> self.arena.retired(h2),
                hyp ==> self.arena.kids(ni) == a0.kids(ni).skip(t as int),
                hyp ==> self.arena.kids(pi) == a0.kids(pi) + a0.kids(ni).take(t as int),
                hyp ==> forall|u: int|
                    t <= u < a0.kids(ni).len() ==> self.arena.parent_of(
                        #[trigger] a0.kids(ni)[u] as int,
                    ) == Some(node.idx),
                hyp ==> forall|m: nat| #[trigger] self.arena.kth_anc(pi, m) == a0.kth_anc(pi, m),
                self.arena.n() == a0.n(),
            decreases kids@.len() - t,
        {
            let ch = kids[t];
            proof {
                if hyp {
                    assert(ch.idx == a0.kids(ni)[t as int]);
                    assert(self.arena.parent_of(ch.idx as int) == Some(node.idx));
                    assert(self.arena.ok(ch)) by {
                        assert(a0.ok(kids@[t as int]));
                    }
                    // a child of `node` is never the root, which hangs nowhere
                    assert(!(ch.idx == self.root.idx && ch.gen == self.root.gen)) by {
                        if ch.idx == self.root.idx {
                            assert(self.arena.parent_of(self.root.idx as int) is None);
                        }
                    }
                }
            }
            if !(ch.idx == self.root.idx && ch.gen == self.root.gen) {
                let ghost pre = *self;
                proof {
                    if hyp {
                        // in the starting arena the child lies inside the
                        // subtree of `node`, the new parent outside it
                        assert(a0.is_anc(ni, ch.idx as int)) by {
                            a0.lemma_anc_one(ch.idx as int);
                            assert(a0.parent_of(ch.idx as int) == Some(node.idx)) by {
                                assert(a0.kid_at(ni, t as int) == ch.idx as int);
                            }
                            assert(a0.kth_anc(ch.idx as int, 1) == Some(ni));
                        }
                        assert(ch.idx != new_parent.idx) by {
                            if ch.idx == new_parent.idx {
                                assert(a0.in_subtree(ni, pi));
                            }
                        }
                        // the new parent's ancestor chain in the current
                        // arena is still its starting chain, which never
                        // reaches the child
                        assert(!pre.arena.is_anc(ch.idx as int, pi)) by {
                            if pre.arena.is_anc(ch.idx as int, pi) {
                                let k = choose|k: nat|
                                    1 <= k && pre.arena.kth_anc(pi, k) == Some(ch.idx as int);
                                assert(a0.kth_anc(pi, k) == Some(ch.idx as int));
                                let k2 = choose|k2: nat|
                                    1 <= k2 && a0.kth_anc(ch.idx as int, k2) == Some(ni);
                                a0.lemma_anc_add(pi, k, k2);
                                assert(a0.kth_anc(pi, k + k2) == Some(ni));
                                assert(a0.is_anc(ni, pi));
                            }
                        }
                        assert(pre.arena.can_attach(new_parent, ch));
                    }
                }
                self.arena.append(new_parent, ch);
                proof {
                    if hyp {
                        assert(Arena::append_post(pre.arena, self.arena, new_parent.idx, ch.idx));
                        let oldkids = pre.arena.kids(ni);
                        assert(oldkids == a0.kids(ni).skip(t as int));
                        assert(oldkids[0] == ch.idx) by {
                            assert(a0.kids(ni).skip(t as int)[0] == a0.kids(ni)[t as int]);
                        }
                        // the child leaves the front of the remaining list
                        assert(self.arena.kids(ni) == a0.kids(ni).skip(t as int + 1)) by {
                            assert(oldkids.contains(ch.idx));
                            oldkids.index_of_first_ensures(ch.idx);
                            match oldkids.index_of_first(ch.idx) {
                                Some(k0) => {
                                    assert(k0 == 0) by {
                                        if k0 > 0 {
                                            assert(oldkids[0] != ch.idx);
                                        }
                                    }
                                    assert(self.arena.kids(ni) == oldkids.remove(0));
                                    assert(oldkids.remove(0) =~= a0.kids(ni).skip(t as int + 1));
                                },
                                None => {
                                    assert(false);
                                },
                            }
                        }
                        assert(self.arena.kids(pi) =~= a0.kids(pi) + a0.kids(ni).take(
                            t as int + 1,
                        )) by {
                            assert(self.arena.kids(pi) == pre.arena.kids(pi).push(ch.idx));
                        }
                        // the other remaining children keep their slots
                        assert forall|u: int|
                            t + 1 <= u < a0.kids(ni).len() implies self.arena.parent_of(
                            #[trigger] a0.kids(ni)[u] as int,
                        ) == Some(node.idx) by {
                            let r = a0.kids(ni)[u] as int;
                            assert(r != ch.idx as int) by {
                                assert(a0.kid_at(ni, t as int) == ch.idx as int);
                                assert(a0.kid_at(ni, u) == r);
                            }
                            assert(r != pi) by {
                                if r == pi {
                                    a0.lemma_anc_one(r);
                                    assert(a0.parent_of(r) == Some(node.idx)) by {
                                        assert(a0.kid_at(ni, u) == r);
                                    }
                                    assert(a0.kth_anc(pi, 1) == Some(ni));
                                    assert(a0.is_anc(ni, pi));
                                }
                            }
                            if r == ni {
                                assert(a0.kid_at(ni, u) == r);
                                assert(match a0.parent_of(ni) {
                                    Some(z) => z as int == ni,
                                    None => false,
                                });
                                a0.lemma_no_self_parent(ni);
                                assert(false);
                            }
                            assert(a0.live(r)) by {
                                assert(a0.kid_at(ni, u) == r);
                            }
                            assert(0 <= r < pre.arena.n());
                            assert(self.arena.slots@[r] == pre.arena.slots@[r]);
                        }
                        // the new parent's chain is untouched: the moved
                        // child was not on it
                        assert forall|m: nat| #[trigger] self.arena.kth_anc(pi, m) == a0.kth_anc(
                            pi,
                            m,
                        ) by {
                            assert forall|m2: nat| m2 < m implies #[trigger] pre.arena.kth_anc(
                                pi,
                                m2,
                            ) != Some(ch.idx as int) by {
                                assert(pre.arena.kth_anc(pi, m2) == a0.kth_anc(pi, m2));
                                if m2 == 0 {
                                    assert(a0.kth_anc(pi, 0) == Some(pi));
                                } else {
                                    if a0.kth_anc(pi, m2) == Some(ch.idx as int) {
                                        let k2 = choose|k2: nat|
                                            1 <= k2 && a0.kth_anc(ch.idx as int, k2) == Some(ni);
                                        a0.lemma_anc_add(pi, m2, k2);
                                        assert(a0.is_anc(ni, pi));
                                    }
                                }
                            }
                            assert forall|j: int| #[trigger] pre.arena.live(j) <==> self.arena.live(
                                j,
                            ) by {}
                            assert forall|j: int|
                                #[trigger] pre.arena.live(j) && j != ch.idx as int
                                    implies self.arena.parent_of(j) == pre.arena.parent_of(j) by {
                                if j == pi {
                                } else if j == ni {
                                } else {
                                    assert(self.arena.slots@[j] == pre.arena.slots@[j]);
                                }
                            }
                            Arena::lemma_anc_agree(pre.arena, self.arena, pi, ch.idx as int, m);
                        }
                    }
                }
            } else {
                proof {
                    if hyp {
                        assert(false);
                    }
                }
            }
            t = t + 1;
        }
        proof {
            if hyp {
                assert(self.arena.kids(ni) =~= Seq::<usize>::empty()) by {
                    assert(self.arena.kids(ni) == a0.kids(ni).skip(kids@.len() as int));
                }
                assert(self.arena.kids(pi) =~= a0.kids(pi) + a0.kids(ni)) by {
                    assert(self.arena.kids(pi) == a0.kids(pi) + a0.kids(ni).take(
                        kids@.len() as int,
                    ));
                    assert(a0.kids(ni).take(kids@.len() as int) =~= a0.kids(ni));
                }
            }
        }
    }

}

} // verus!
