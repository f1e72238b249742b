//! The selector matching surface: the per-node predicates a generic CSS
//! matcher evaluates against a read-only view of the tree.  Structural
//! tests on non-elements report false, never a fault.

use vstd::prelude::*;
use crate::arena::NodeHandle;
use crate::document::Document;
use crate::node::AttrV;
use crate::node::CaseSensitivity;
use crate::node::NodeV;
use crate::node::cs_match;
use crate::node::spec_has_class;
use crate::strutil::str_eq;

verus! {

/// The element view at a live slot, when the node there is an element.
pub open spec fn element_at(d: Document, i: int) -> Option<crate::node::ElementV> {
    if d.arena.live(i) {
        match d.arena.node_at(i) {
            NodeV::Element(e) => Some(e),
            _ => None,
        }
    } else {
        None
    }
}

/// Whether the handle addresses an element with this local name.
pub fn has_local_name(d: &Document, h: NodeHandle, name: &str) -> (r: bool)
    requires
        d.wf(),
    ensures
        r == (d.arena.ok(h) && (element_at(*d, h.idx as int) matches Some(e) && e.name.local
            == name@)),
{
    match d.get(h) {
        Some(n) => match n.as_element() {
            Some(e) => str_eq(e.name.local.as_str(), name),
            None => false,
        },
        None => false,
    }
}

/// Whether the handle addresses an element in this namespace.
pub fn has_namespace(d: &Document, h: NodeHandle, ns: &str) -> (r: bool)
    requires
        d.wf(),
    ensures
        r == (d.arena.ok(h) && (element_at(*d, h.idx as int) matches Some(e) && e.name.ns
            == ns@)),
{
    match d.get(h) {
        Some(n) => match n.as_element() {
            Some(e) => str_eq(e.name.ns.as_str(), ns),
            None => false,
        },
        None => false,
    }
}

/// Whether both handles address elements of the same qualified name.
pub fn is_same_type(d: &Document, h1: NodeHandle, h2: NodeHandle) -> (r: bool)
    requires
        d.wf(),
    ensures
        r == (d.arena.ok(h1) && d.arena.ok(h2) && (element_at(*d, h1.idx as int) matches Some(
            e1,
        ) && (element_at(*d, h2.idx as int) matches Some(e2) && e1.name == e2.name))),
{
    let n1 = match d.get(h1) {
        Some(n) => n,
        None => {
            return false;
        },
    };
    let n2 = match d.get(h2) {
        Some(n) => n,
        None => {
            return false;
        },
    };
    let e1 = match n1.as_element() {
        Some(e) => e,
        None => {
            return false;
        },
    };
    let e2 = match n2.as_element() {
        Some(e) => e,
        None => {
            return false;
        },
    };
    let prefix_eq = match (&e1.name.prefix, &e2.name.prefix) {
        (Some(p1), Some(p2)) => str_eq(p1.as_str(), p2.as_str()),
        (None, None) => true,
        _ => false,
    };
    prefix_eq && str_eq(e1.name.ns.as_str(), e2.name.ns.as_str()) && str_eq(
        e1.name.local.as_str(),
        e2.name.local.as_str(),
    )
}

/// Whether the handle addresses an element whose id matches under the
/// chosen case sensitivity.
pub fn has_id(d: &Document, h: NodeHandle, id: &str, case_sensitivity: CaseSensitivity) -> (r:
    bool)
    requires
        d.wf(),
    ensures
        r == (d.arena.ok(h) && (element_at(*d, h.idx as int) matches Some(e) && (
        e.id matches Some(v) && cs_match(case_sensitivity, id@, v)))),
{
    match d.get(h) {
        Some(n) => match n.as_element() {
            Some(e) => match e.id() {
                Some(v) => case_sensitivity.eq_str(id, v),
                None => false,
            },
            None => false,
        },
        None => false,
    }
}

/// Whether the handle addresses an element carrying a matching class.
pub fn has_class(d: &Document, h: NodeHandle, name: &str, case_sensitivity: CaseSensitivity) -> (r:
    bool)
    requires
        d.wf(),
    ensures
        r == (d.arena.ok(h) && (element_at(*d, h.idx as int) matches Some(e) && spec_has_class(
            e.classes,
            name@,
            case_sensitivity,
        ))),
{
    match d.get(h) {
        Some(n) => match n.as_element() {
            Some(e) => e.has_class(name, case_sensitivity),
            None => false,
        },
        None => false,
    }
}

/// A namespace constraint on an attribute selector.
pub enum NsConstraint {
    Any,
    Specific(String),
}

/// Whether an attribute's namespace satisfies the constraint.
pub open spec fn ns_matches(cons_any: bool, cons_ns: Seq<char>, a: AttrV) -> bool {
    cons_any || a.name.ns == cons_ns
}

/// The values of the attributes with this local name whose namespace
/// satisfies the constraint, in stored order.
pub open spec fn matching_values(
    attrs: Seq<AttrV>,
    cons_any: bool,
    cons_ns: Seq<char>,
    local: Seq<char>,
) -> Seq<Seq<char>>
    decreases attrs.len(),
{
    if attrs.len() == 0 {
        Seq::empty()
    } else {
        let p = matching_values(attrs.drop_last(), cons_any, cons_ns, local);
        if attrs.last().name.local == local && ns_matches(cons_any, cons_ns, attrs.last()) {
            p.push(attrs.last().value)
        } else {
            p
        }
    }
}

/// The attribute values an attribute selector must evaluate its
/// operation against: empty for a non-element or a stale handle.  The
/// external evaluator tests each value.
pub fn attr_values_matching(d: &Document, h: NodeHandle, cons: &NsConstraint, local: &str) -> (r:
    Vec<String>)
    requires
        d.wf(),
    ensures
        d.arena.ok(h) ==> (element_at(*d, h.idx as int) matches Some(e)
            ==> crate::strutil::views_of(r@) == matching_values(
            e.attrs,
            *cons is Any,
            match cons {
                NsConstraint::Specific(ns) => ns@,
                NsConstraint::Any => Seq::empty(),
            },
            local@,
        )),
        !(d.arena.ok(h) && element_at(*d, h.idx as int) is Some) ==> r@.len() == 0,
{
    let mut r: Vec<String> = Vec::new();
    let e = match d.get(h) {
        Some(n) => match n.as_element() {
            Some(e) => e,
            None => {
                return r;
            },
        },
        None => {
            return r;
        },
    };
    let ghost cons_any = *cons is Any;
    let ghost cons_ns = match cons {
        NsConstraint::Specific(ns) => ns@,
        NsConstraint::Any => Seq::empty(),
    };
    let mut i: usize = 0;
    proof {
        assert(crate::strutil::views_of(r@) =~= matching_values(
            e@.attrs.take(0),
            cons_any,
            cons_ns,
            local@,
        ));
    }
    while i < e.attrs.len()
        invariant
            i <= e.attrs@.len(),
            cons_any == (*cons is Any),
            cons_ns == (match cons {
                NsConstraint::Specific(ns) => ns@,
                NsConstraint::Any => Seq::empty(),
            }),
            crate::strutil::views_of(r@) == matching_values(
                e@.attrs.take(i as int),
                cons_any,
                cons_ns,
                local@,
            ),
        decreases e.attrs@.len() - i,
    {
        let ghost prev = crate::strutil::views_of(r@);
        proof {
            assert(e@.attrs.take(i as int + 1).drop_last() =~= e@.attrs.take(i as int));
            assert(e@.attrs.take(i as int + 1).last() == e@.attrs[i as int]);
        }
        let local_hit = str_eq(e.attrs[i].name.local.as_str(), local);
        let ns_hit = match cons {
            NsConstraint::Any => true,
            NsConstraint::Specific(ns) => str_eq(e.attrs[i].name.ns.as_str(), ns.as_str()),
        };
        if local_hit && ns_hit {
            r.push(e.attrs[i].value.as_str().to_owned());
            proof {
                assert(crate::strutil::views_of(r@) =~= prev.push(e@.attrs[i as int].value));
            }
        }
        i = i + 1;
    }
    proof {
        assert(e@.attrs.take(e.attrs@.len() as int) =~= e@.attrs);
    }
    r
}

/// Whether no child of the handle is an element or a non-empty text
/// run.
pub fn is_empty_el(d: &Document, h: NodeHandle) -> (r: bool)
    requires
        d.wf(),
    ensures
        d.arena.ok(h) ==> r == (forall|j: int|
            0 <= j < d.arena.kids(h.idx as int).len() ==> {
                let cv = d.arena.node_at(#[trigger] d.arena.kid_at(h.idx as int, j));
                !(cv is Element) && !(cv matches NodeV::Text { text } && text.len() > 0)
            }),
        !d.arena.ok(h) ==> r == true,
{
    if !self_ok(d, h) {
        return true;
    }
    let nk = d.arena.slots[h.idx].children.len();
    let mut j: usize = 0;
    while j < nk
        invariant
            d.wf(),
            d.arena.ok(h),
            nk == d.arena.kids(h.idx as int).len(),
            j <= nk,
            forall|j2: int|
                0 <= j2 < j ==> {
                    let cv = d.arena.node_at(#[trigger] d.arena.kid_at(h.idx as int, j2));
                    !(cv is Element) && !(cv matches NodeV::Text { text } && text.len() > 0)
                },
        decreases nk - j,
    {
        let c = d.arena.slots[h.idx].children[j];
        proof {
            assert(d.arena.kid_at(h.idx as int, j as int) == c as int);
            assert(d.arena.live(c as int));
        }
        match &d.arena.slots[c].node {
            Some(n) => match n {
                crate::node::Node::Element(_) => {
                    return false;
                },
                crate::node::Node::Text(t) => {
                    if !t.text.as_str().is_empty() {
                        return false;
                    }
                },
                _ => {},
            },
            None => {
                proof {
                    assert(false);
                }
            },
        }
        j = j + 1;
    }
    true
}

/// Whether the handle's immediate parent is the document node.
pub fn is_root_el(d: &Document, h: NodeHandle) -> (r: bool)
    requires
        d.wf(),
    ensures
        r == (d.arena.ok(h) && (d.arena.parent_of(h.idx as int) matches Some(p)
            && d.arena.node_at(p as int) is Document)),
{
    match d.parent(h) {
        Some(ph) => match d.get(ph) {
            Some(n) => n.is_document(),
            None => {
                proof {
                    assert(false);
                }
                false
            },
        },
        None => false,
    }
}

/// The nearest preceding sibling that is an element, skipping others:
/// the answer is the closest earlier sibling that is an element, and
/// nothing when every earlier sibling is something else.
pub fn prev_element_sibling(d: &Document, h: NodeHandle) -> (r: Option<NodeHandle>)
    requires
        d.wf(),
    ensures
        match r {
            Some(sh) => d.arena.ok(h) && d.arena.ok(sh) && (d.arena.parent_of(
                h.idx as int,
            ) matches Some(p) && {
                let ks = d.arena.kids(p as int);
                exists|js: int, jh: int|
                    0 <= js < jh < ks.len() && #[trigger] ks[js] == sh.idx && #[trigger] ks[jh]
                        == h.idx && element_at(*d, ks[js] as int) is Some && (forall|j: int|
                        js < j < jh ==> element_at(*d, #[trigger] ks[j] as int) is None)
            }),
            None => !d.arena.ok(h) || d.arena.parent_of(h.idx as int) is None || (
            d.arena.parent_of(h.idx as int) matches Some(p) && {
                let ks = d.arena.kids(p as int);
                exists|jh: int|
                    0 <= jh < ks.len() && #[trigger] ks[jh] == h.idx && (forall|j: int|
                        0 <= j < jh ==> element_at(*d, #[trigger] ks[j] as int) is None)
            }),
        },
{
    if !d.arena.is_ok(h) {
        return None;
    }
    let p = match d.arena.parent(h) {
        Some(p) => p,
        None => {
            return None;
        },
    };
    let kids = d.arena.children_of(p);
    proof {
        assert(d.arena.has_kid(p.idx as int, h.idx as int));
        let jj = choose|jj: int|
            0 <= jj < d.arena.kids(p.idx as int).len() && d.arena.kid_at(p.idx as int, jj)
                == h.idx as int;
        assert(d.arena.kids(p.idx as int)[jj] == h.idx);
    }
    let mut pos: usize = 0;
    let mut found = false;
    let mut j: usize = 0;
    while j < kids.len()
        invariant
            d.wf(),
            d.arena.ok(p),
            kids@.len() == d.arena.kids(p.idx as int).len(),
            forall|t: int|
                0 <= t < kids@.len() ==> (#[trigger] kids@[t]).idx == d.arena.kids(
                    p.idx as int,
                )[t] && d.arena.ok(kids@[t]),
            j <= kids@.len(),
            found ==> pos < kids@.len() && d.arena.kids(p.idx as int)[pos as int] == h.idx,
            !found ==> forall|t: int|
                0 <= t < j ==> d.arena.kids(p.idx as int)[t] != h.idx,
        decreases kids@.len() - j,
    {
        if kids[j].idx == h.idx {
            pos = j;
            found = true;
        }
        j = j + 1;
    }
    proof {
        if !found {
            let jj = choose|jj: int|
                0 <= jj < d.arena.kids(p.idx as int).len() && d.arena.kid_at(p.idx as int, jj)
                    == h.idx as int;
            assert(d.arena.kids(p.idx as int)[jj] != h.idx);
            assert(false);
        }
    }
    let mut k: usize = pos;
    while k > 0
        invariant
            d.wf(),
            d.arena.ok(h),
            d.arena.ok(p),
            d.arena.parent_of(h.idx as int) == Some(p.idx),
            kids@.len() == d.arena.kids(p.idx as int).len(),
            forall|t: int|
                0 <= t < kids@.len() ==> (#[trigger] kids@[t]).idx == d.arena.kids(
                    p.idx as int,
                )[t] && d.arena.ok(kids@[t]),
            pos < kids@.len(),
            d.arena.kids(p.idx as int)[pos as int] == h.idx,
            k <= pos,
            forall|j2: int|
                k <= j2 < pos ==> element_at(*d, d.arena.kids(p.idx as int)[j2] as int) is None,
        decreases k,
    {
        k = k - 1;
        let cand = kids[k];
        proof {
            assert(d.arena.kid_at(p.idx as int, k as int) == cand.idx as int);
        }
        let is_el = match d.get(cand) {
            Some(n) => n.is_element(),
            None => false,
        };
        if is_el {
            proof {
                assert(element_at(*d, cand.idx as int) is Some);
                assert(d.arena.kids(p.idx as int)[k as int] == cand.idx);
            }
            return Some(cand);
        }
        proof {
            assert(element_at(*d, cand.idx as int) is None);
        }
    }
    proof {
        assert(forall|j2: int|
            0 <= j2 < pos ==> element_at(*d, d.arena.kids(p.idx as int)[j2] as int) is None);
        assert(d.arena.kids(p.idx as int)[pos as int] == h.idx);
    }
    None
}

/// The nearest following sibling that is an element, skipping others:
/// the answer is the closest later sibling that is an element, and
/// nothing when every later sibling is something else.
pub fn next_element_sibling(d: &Document, h: NodeHandle) -> (r: Option<NodeHandle>)
    requires
        d.wf(),
    ensures
        match r {
            Some(sh) => d.arena.ok(h) && d.arena.ok(sh) && (d.arena.parent_of(
                h.idx as int,
            ) matches Some(p) && {
                let ks = d.arena.kids(p as int);
                exists|jh: int, js: int|
                    0 <= jh < js < ks.len() && #[trigger] ks[jh] == h.idx && #[trigger] ks[js]
                        == sh.idx && element_at(*d, ks[js] as int) is Some && (forall|j: int|
                        jh < j < js ==> element_at(*d, #[trigger] ks[j] as int) is None)
            }),
            None => !d.arena.ok(h) || d.arena.parent_of(h.idx as int) is None || (
            d.arena.parent_of(h.idx as int) matches Some(p) && {
                let ks = d.arena.kids(p as int);
                exists|jh: int|
                    0 <= jh < ks.len() && #[trigger] ks[jh] == h.idx && (forall|j: int|
                        jh < j < ks.len() ==> element_at(*d, #[trigger] ks[j] as int) is None)
            }),
        },
{
    if !d.arena.is_ok(h) {
        return None;
    }
    let p = match d.arena.parent(h) {
        Some(p) => p,
        None => {
            return None;
        },
    };
    let kids = d.arena.children_of(p);
    proof {
        assert(d.arena.has_kid(p.idx as int, h.idx as int));
        let jj = choose|jj: int|
            0 <= jj < d.arena.kids(p.idx as int).len() && d.arena.kid_at(p.idx as int, jj)
                == h.idx as int;
        assert(d.arena.kids(p.idx as int)[jj] == h.idx);
    }
    let mut pos: usize = 0;
    let mut found = false;
    let mut j: usize = 0;
    while j < kids.len()
        invariant
            d.wf(),
            d.arena.ok(p),
            kids@.len() == d.arena.kids(p.idx as int).len(),
            forall|t: int|
                0 <= t < kids@.len() ==> (#[trigger] kids@[t]).idx == d.arena.kids(
                    p.idx as int,
                )[t] && d.arena.ok(kids@[t]),
            j <= kids@.len(),
            found ==> pos < kids@.len() && d.arena.kids(p.idx as int)[pos as int] == h.idx,
            !found ==> forall|t: int|
                0 <= t < j ==> d.arena.kids(p.idx as int)[t] != h.idx,
        decreases kids@.len() - j,
    {
        if kids[j].idx == h.idx {
            pos = j;
            found = true;
        }
        j = j + 1;
    }
    proof {
        if !found {
            let jj = choose|jj: int|
                0 <= jj < d.arena.kids(p.idx as int).len() && d.arena.kid_at(p.idx as int, jj)
                    == h.idx as int;
            assert(d.arena.kids(p.idx as int)[jj] != h.idx);
            assert(false);
        }
    }
    let mut k: usize = pos + 1;
    while k < kids.len()
        invariant
            d.wf(),
            d.arena.ok(h),
            d.arena.ok(p),
            d.arena.parent_of(h.idx as int) == Some(p.idx),
            kids@.len() == d.arena.kids(p.idx as int).len(),
            forall|t: int|
                0 <= t < kids@.len() ==> (#[trigger] kids@[t]).idx == d.arena.kids(
                    p.idx as int,
                )[t] && d.arena.ok(kids@[t]),
            pos < kids@.len(),
            d.arena.kids(p.idx as int)[pos as int] == h.idx,
            pos < k,
            forall|j2: int|
                pos < j2 < k && j2 < kids@.len() ==> element_at(
                    *d,
                    d.arena.kids(p.idx as int)[j2] as int,
                ) is None,
        decreases kids@.len() - k,
    {
        let cand = kids[k];
        proof {
            assert(d.arena.kid_at(p.idx as int, k as int) == cand.idx as int);
        }
        let is_el = match d.get(cand) {
            Some(n) => n.is_element(),
            None => false,
        };
        if is_el {
            proof {
                assert(element_at(*d, cand.idx as int) is Some);
                assert(d.arena.kids(p.idx as int)[k as int] == cand.idx);
            }
            return Some(cand);
        }
        proof {
            assert(element_at(*d, cand.idx as int) is None);
        }
        k = k + 1;
    }
    proof {
        assert(forall|j2: int|
            pos < j2 < kids@.len() ==> element_at(*d, d.arena.kids(p.idx as int)[j2] as int)
                is None);
        assert(d.arena.kids(p.idx as int)[pos as int] == h.idx);
    }
    None
}

/// Whether the handle addresses a `link` element.
pub fn is_link(d: &Document, h: NodeHandle) -> (r: bool)
    requires
        d.wf(),
    ensures
        r == (d.arena.ok(h) && (element_at(*d, h.idx as int) matches Some(e) && e.name.local
            == "link"@)),
{
    has_local_name(d, h, "link")
}

fn self_ok(d: &Document, h: NodeHandle) -> (r: bool)
    ensures
        r == d.arena.ok(h),
{
    d.arena.is_ok(h)
}

/// A pseudo-class outside the tree-structural set.  This library
/// supports none: every match test reports a non-match.
pub struct NonTSPseudoClass;

impl NonTSPseudoClass {
    /// Never an active or hover state.
    pub fn is_active_or_hover(&self) -> (r: bool)
        ensures
            !r,
    {
        false
    }

    /// Never a user action state.
    pub fn is_user_action_state(&self) -> (r: bool)
        ensures
            !r,
    {
        false
    }

    /// Never of zero specificity.
    pub fn has_zero_specificity(&self) -> (r: bool)
        ensures
            !r,
    {
        false
    }

    /// No node matches an unsupported pseudo-class.
    pub fn matches_node(&self, d: &Document, h: NodeHandle) -> (r: bool)
        ensures
            !r,
    {
        false
    }
}

/// A pseudo-element.  This library supports none: no node matches one.
pub struct PseudoElement;

impl PseudoElement {
    /// No node matches an unsupported pseudo-element.
    pub fn matches_node(&self, d: &Document, h: NodeHandle) -> (r: bool)
        ensures
            !r,
    {
        false
    }
}

} // verus!
