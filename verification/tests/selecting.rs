//! Tests that drive the verified per-node predicates and the query
//! cursor from the real generic CSS matcher.

use std::fmt;

use domjohnson::{
    Attr, CaseSensitivity as LibCase, Document, DocumentBuilder, MatchScope, Matches, NodeHandle,
    NodeOrText, NsConstraint, QualName, Selection,
};
use selectors::attr::{AttrSelectorOperation, CaseSensitivity, NamespaceConstraint};
use selectors::matching;
use selectors::parser::{self, SelectorList};
use selectors::{Element, OpaqueElement};

/// A compiled CSS selector list; immutable and reusable across
/// documents and queries.  Construction fails on invalid CSS text.
struct Matcher {
    selector_list: SelectorList<InnerSelector>,
}

impl Matcher {
    fn new(sel: &str) -> Result<Matcher, cssparser::ParseError<'_, parser::SelectorParseErrorKind<'_>>> {
        let mut input = cssparser::ParserInput::new(sel);
        let mut parser = cssparser::Parser::new(&mut input);
        SelectorList::parse(&InnerSelectorParser, &mut parser)
            .map(|selector_list| Matcher { selector_list })
    }

    fn match_handle(&self, doc: &Document, handle: NodeHandle) -> bool {
        let mut ctx = matching::MatchingContext::new(
            matching::MatchingMode::Normal,
            None,
            None,
            matching::QuirksMode::NoQuirks,
        );
        let el = ElementRef { doc, handle };
        matching::matches_selector_list(&self.selector_list, &el, &mut ctx)
    }
}

/// A string with the selector plumbing the generic matcher asks of
/// attribute values.
#[derive(Clone, Debug, Default, Eq, PartialEq)]
struct CssString(String);

impl<'a> From<&'a str> for CssString {
    fn from(s: &'a str) -> Self {
        CssString(s.to_string())
    }
}

impl AsRef<str> for CssString {
    fn as_ref(&self) -> &str {
        &self.0
    }
}

impl cssparser::ToCss for CssString {
    fn to_css<W>(&self, dest: &mut W) -> fmt::Result
    where
        W: fmt::Write,
    {
        dest.write_str(&self.0)
    }
}

/// A local name, identifier or namespace prefix in a selector.
#[derive(Clone, Debug, Default, Eq, PartialEq)]
struct CssLocalName(String);

impl<'a> From<&'a str> for CssLocalName {
    fn from(s: &'a str) -> Self {
        CssLocalName(s.to_string())
    }
}

impl cssparser::ToCss for CssLocalName {
    fn to_css<W>(&self, dest: &mut W) -> fmt::Result
    where
        W: fmt::Write,
    {
        dest.write_str(&self.0)
    }
}

/// A namespace url in a selector.
#[derive(Clone, Debug, Default, Eq, PartialEq)]
struct CssNamespace(String);

/// A (document, handle) pair seen as the matcher's element.
#[derive(Clone)]
struct ElementRef<'a> {
    doc: &'a Document,
    handle: NodeHandle,
}

impl fmt::Debug for ElementRef<'_> {
    fn fmt(&self, f: &mut fmt::Formatter) -> fmt::Result {
        f.write_str("ElementRef")
    }
}

fn lib_case(cs: CaseSensitivity) -> LibCase {
    match cs {
        CaseSensitivity::CaseSensitive => LibCase::CaseSensitive,
        CaseSensitivity::AsciiCaseInsensitive => LibCase::AsciiCaseInsensitive,
    }
}

impl<'a> Element for ElementRef<'a> {
    type Impl = InnerSelector;

    fn opaque(&self) -> OpaqueElement {
        OpaqueElement::new(self.doc.get(self.handle).expect("node"))
    }

    fn parent_element(&self) -> Option<Self> {
        self.doc.parent(self.handle).map(|h| ElementRef { doc: self.doc, handle: h })
    }

    fn parent_node_is_shadow_root(&self) -> bool {
        false
    }

    fn containing_shadow_host(&self) -> Option<Self> {
        None
    }

    fn is_pseudo_element(&self) -> bool {
        false
    }

    fn prev_sibling_element(&self) -> Option<Self> {
        domjohnson::prev_element_sibling(self.doc, self.handle)
            .map(|h| ElementRef { doc: self.doc, handle: h })
    }

    fn next_sibling_element(&self) -> Option<Self> {
        domjohnson::next_element_sibling(self.doc, self.handle)
            .map(|h| ElementRef { doc: self.doc, handle: h })
    }

    fn is_html_element_in_html_document(&self) -> bool {
        domjohnson::has_namespace(self.doc, self.handle, "http://www.w3.org/1999/xhtml")
    }

    fn has_local_name(&self, name: &CssLocalName) -> bool {
        domjohnson::has_local_name(self.doc, self.handle, &name.0)
    }

    fn has_namespace(&self, ns: &CssNamespace) -> bool {
        domjohnson::has_namespace(self.doc, self.handle, &ns.0)
    }

    fn is_same_type(&self, other: &Self) -> bool {
        domjohnson::is_same_type(self.doc, self.handle, other.handle)
    }

    fn attr_matches(
        &self,
        ns: &NamespaceConstraint<&CssNamespace>,
        local_name: &CssLocalName,
        operation: &AttrSelectorOperation<&CssString>,
    ) -> bool {
        let cons = match ns {
            NamespaceConstraint::Any => NsConstraint::Any,
            NamespaceConstraint::Specific(url) => NsConstraint::Specific(url.0.clone()),
        };
        domjohnson::attr_values_matching(self.doc, self.handle, &cons, &local_name.0)
            .iter()
            .any(|v| operation.eval_str(v))
    }

    fn match_non_ts_pseudo_class<F>(
        &self,
        _pc: &NonTSPseudoClass,
        _context: &mut matching::MatchingContext<Self::Impl>,
        _flags_setter: &mut F,
    ) -> bool
    where
        F: FnMut(&Self, matching::ElementSelectorFlags),
    {
        false
    }

    fn match_pseudo_element(
        &self,
        _pe: &PseudoElement,
        _context: &mut matching::MatchingContext<Self::Impl>,
    ) -> bool {
        false
    }

    fn is_link(&self) -> bool {
        domjohnson::is_link(self.doc, self.handle)
    }

    fn is_html_slot_element(&self) -> bool {
        true
    }

    fn has_id(&self, id: &CssLocalName, case_sensitivity: CaseSensitivity) -> bool {
        domjohnson::has_id(self.doc, self.handle, &id.0, lib_case(case_sensitivity))
    }

    fn has_class(&self, name: &CssLocalName, case_sensitivity: CaseSensitivity) -> bool {
        domjohnson::has_class(self.doc, self.handle, &name.0, lib_case(case_sensitivity))
    }

    fn imported_part(&self, _name: &CssLocalName) -> Option<CssLocalName> {
        None
    }

    fn is_part(&self, _name: &CssLocalName) -> bool {
        false
    }

    fn is_empty(&self) -> bool {
        domjohnson::is_empty_el(self.doc, self.handle)
    }

    fn is_root(&self) -> bool {
        domjohnson::is_root_el(self.doc, self.handle)
    }
}

struct InnerSelectorParser;

impl<'i> parser::Parser<'i> for InnerSelectorParser {
    type Impl = InnerSelector;
    type Error = parser::SelectorParseErrorKind<'i>;
}

#[derive(Debug, Clone)]
struct InnerSelector;

impl parser::SelectorImpl for InnerSelector {
    type ExtraMatchingData = String;
    type AttrValue = CssString;
    type Identifier = CssLocalName;
    type LocalName = CssLocalName;
    type NamespaceUrl = CssNamespace;
    type NamespacePrefix = CssLocalName;
    type BorrowedLocalName = CssLocalName;
    type BorrowedNamespaceUrl = CssNamespace;

    type NonTSPseudoClass = NonTSPseudoClass;
    type PseudoElement = PseudoElement;
}

#[derive(Clone, Eq, PartialEq)]
struct NonTSPseudoClass;

impl parser::NonTSPseudoClass for NonTSPseudoClass {
    type Impl = InnerSelector;

    fn is_active_or_hover(&self) -> bool {
        false
    }

    fn is_user_action_state(&self) -> bool {
        false
    }
}

impl cssparser::ToCss for NonTSPseudoClass {
    fn to_css<W>(&self, dest: &mut W) -> fmt::Result
    where
        W: fmt::Write,
    {
        dest.write_str("")
    }
}

#[derive(Clone, Eq, PartialEq)]
struct PseudoElement;

impl parser::PseudoElement for PseudoElement {
    type Impl = InnerSelector;
}

impl cssparser::ToCss for PseudoElement {
    fn to_css<W>(&self, dest: &mut W) -> fmt::Result
    where
        W: fmt::Write,
    {
        dest.write_str("")
    }
}


fn select_from(dom: &Document, node: NodeHandle, sel: &str) -> Selection {
    let matcher = Matcher::new(sel).expect("invalid css selector");
    let mut m = Matches::from_one(dom, node, MatchScope::ChildrenOnly);
    let mut out = Vec::new();
    while let Some(h) = m.next_candidate() {
        if matcher.match_handle(dom, h) {
            out.push(h);
        }
    }
    Selection::new(out)
}

fn select_in(dom: &Document, selection: &Selection, sel: &str) -> Selection {
    let matcher = Matcher::new(sel).expect("invalid css selector");
    let roots = selection.iter();
    let mut m = Matches::from_list(dom, &roots, MatchScope::IncludeNode);
    let mut out = Vec::new();
    while let Some(h) = m.next_candidate() {
        if matcher.match_handle(dom, h) {
            out.push(h);
        }
    }
    Selection::new(out)
}

fn html_name(local: &str) -> QualName {
    QualName {
        prefix: None,
        ns: "http://www.w3.org/1999/xhtml".to_string(),
        local: local.to_string(),
    }
}

fn attr(local: &str, value: &str) -> Attr {
    Attr {
        name: QualName { prefix: None, ns: String::new(), local: local.to_string() },
        value: value.to_string(),
    }
}

/// `<div><p class="a">x</p><p class="b">y</p></div>` under the root.
fn sample() -> (Document, NodeHandle, NodeHandle, NodeHandle) {
    let mut b = DocumentBuilder::new();
    let root = b.get_document();
    let div = b.create_element(html_name("div"), Vec::new());
    b.append(root, NodeOrText::AppendNode(div));
    let pa = b.create_element(html_name("p"), vec![attr("class", "a")]);
    b.append(div, NodeOrText::AppendNode(pa));
    b.append(pa, NodeOrText::AppendText("x".to_string()));
    let pb = b.create_element(html_name("p"), vec![attr("class", "b")]);
    b.append(div, NodeOrText::AppendNode(pb));
    b.append(pb, NodeOrText::AppendText("y".to_string()));
    (b.finish(), div, pa, pb)
}

#[test]
fn selector_scoping_tag() {
    let (doc, div, pa, pb) = sample();
    let both = select_from(&doc, div, "p");
    assert_eq!(both.len(), 2);
    assert_eq!(both.get(0).unwrap().idx, pa.idx);
    assert_eq!(both.get(1).unwrap().idx, pb.idx);
}

#[test]
fn selector_scoping_class() {
    let (doc, div, pa, _pb) = sample();
    let only_a = select_from(&doc, div, ".a");
    assert_eq!(only_a.len(), 1);
    assert_eq!(only_a.get(0).unwrap().idx, pa.idx);
}

#[test]
fn selector_scoping_excludes_the_scope_root() {
    let (doc, _div, pa, _pb) = sample();
    let none = select_from(&doc, pa, "p");
    assert!(none.is_empty());
}

#[test]
fn selection_refinement_includes_members() {
    let (doc, div, pa, pb) = sample();
    let ps = select_from(&doc, div, "p");
    let narrowed = select_in(&doc, &ps, ".b");
    assert_eq!(narrowed.len(), 1);
    assert_eq!(narrowed.get(0).unwrap().idx, pb.idx);
    // include-self scope keeps the members themselves eligible
    let again = select_in(&doc, &ps, "p");
    assert_eq!(again.len(), 2);
    assert_eq!(again.get(0).unwrap().idx, pa.idx);
}

#[test]
fn attribute_selectors() {
    let mut b = DocumentBuilder::new();
    let root = b.get_document();
    let div = b.create_element(html_name("div"), Vec::new());
    b.append(root, NodeOrText::AppendNode(div));
    let p = b.create_element(html_name("p"), vec![attr("lang", "en-GB")]);
    b.append(div, NodeOrText::AppendNode(p));
    let doc = b.finish();
    assert_eq!(select_from(&doc, div, "[lang]").len(), 1);
    assert_eq!(select_from(&doc, div, "[lang=\"en-GB\"]").len(), 1);
    assert_eq!(select_from(&doc, div, "[lang^=\"en\"]").len(), 1);
    assert_eq!(select_from(&doc, div, "[lang=\"fr\"]").len(), 0);
}

#[test]
fn id_selector() {
    let mut b = DocumentBuilder::new();
    let root = b.get_document();
    let div = b.create_element(html_name("div"), Vec::new());
    b.append(root, NodeOrText::AppendNode(div));
    let p = b.create_element(html_name("p"), vec![attr("id", "chief")]);
    b.append(div, NodeOrText::AppendNode(p));
    let doc = b.finish();
    let hit = select_from(&doc, div, "#chief");
    assert_eq!(hit.len(), 1);
    assert_eq!(hit.get(0).unwrap().idx, p.idx);
    assert_eq!(select_from(&doc, div, "#other").len(), 0);
}

#[test]
fn invalid_selector_is_refused() {
    assert!(Matcher::new("p[").is_err());
    assert!(Matcher::new("p").is_ok());
}

#[test]
fn dedup_across_overlapping_roots() {
    let (doc, div, pa, _pb) = sample();
    // the same root twice still yields each match once
    let doubled = Selection::new(vec![div, div]);
    let ps = select_in(&doc, &doubled, "p");
    assert_eq!(ps.len(), 2);
    assert_eq!(ps.get(0).unwrap().idx, pa.idx);
}

#[test]
fn adjacent_sibling_combinator() {
    let (doc, div, _pa, pb) = sample();
    let second = select_from(&doc, div, "p + p");
    assert_eq!(second.len(), 1);
    assert_eq!(second.get(0).unwrap().idx, pb.idx);
}

#[test]
fn empty_pseudo_class() {
    let mut b = DocumentBuilder::new();
    let root = b.get_document();
    let div = b.create_element(html_name("div"), Vec::new());
    b.append(root, NodeOrText::AppendNode(div));
    let full = b.create_element(html_name("p"), Vec::new());
    b.append(div, NodeOrText::AppendNode(full));
    b.append(full, NodeOrText::AppendText("x".to_string()));
    let hollow = b.create_element(html_name("span"), Vec::new());
    b.append(div, NodeOrText::AppendNode(hollow));
    let doc = b.finish();
    let empties = select_from(&doc, div, "span:empty");
    assert_eq!(empties.len(), 1);
    assert_eq!(empties.get(0).unwrap().idx, hollow.idx);
    assert_eq!(select_from(&doc, div, "p:empty").len(), 0);
}

#[test]
fn root_pseudo_class() {
    let mut b = DocumentBuilder::new();
    let root = b.get_document();
    let html = b.create_element(html_name("html"), Vec::new());
    b.append(root, NodeOrText::AppendNode(html));
    let inner = b.create_element(html_name("div"), Vec::new());
    b.append(html, NodeOrText::AppendNode(inner));
    let doc = b.finish();
    let roots = select_from(&doc, doc.root, ":root");
    assert_eq!(roots.len(), 1);
    assert_eq!(roots.get(0).unwrap().idx, html.idx);
}
