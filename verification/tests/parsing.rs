//! Tests that drive the verified construction adapter from the real
//! streaming HTML parser, and check the serialization round trip.

use std::borrow::Cow;
use std::collections::HashMap;

use domjohnson::{
    Attr, Document, DocumentBuilder, NodeHandle, NodeOrText, QualName, QuirksMode,
};
use html5ever::interface::{
    ElementFlags, NodeOrText as H5NodeOrText, QuirksMode as H5QuirksMode, TreeSink,
};
use html5ever::tendril::{StrTendril, TendrilSink};
use html5ever::{Attribute, ExpandedName};

struct Harness {
    builder: DocumentBuilder,
    names: HashMap<(usize, u64), html5ever::QualName>,
}

fn plain_name(name: &html5ever::QualName) -> QualName {
    QualName {
        prefix: name.prefix.as_ref().map(|p| p.to_string()),
        ns: name.ns.to_string(),
        local: name.local.to_string(),
    }
}

fn plain_attrs(attrs: Vec<Attribute>) -> Vec<Attr> {
    attrs
        .into_iter()
        .map(|a| Attr { name: plain_name(&a.name), value: a.value.to_string() })
        .collect()
}

fn plain_child(child: H5NodeOrText<NodeHandle>) -> NodeOrText {
    match child {
        H5NodeOrText::AppendNode(h) => NodeOrText::AppendNode(h),
        H5NodeOrText::AppendText(t) => NodeOrText::AppendText(t.to_string()),
    }
}

impl TreeSink for Harness {
    type Handle = NodeHandle;
    type Output = Document;

    fn finish(self) -> Document {
        self.builder.finish()
    }

    fn parse_error(&mut self, msg: Cow<'static, str>) {
        self.builder.parse_error(msg.into_owned());
    }

    fn get_document(&mut self) -> NodeHandle {
        self.builder.get_document()
    }

    fn elem_name<'a>(&'a self, target: &'a NodeHandle) -> ExpandedName<'a> {
        self.names.get(&(target.idx, target.gen)).expect("element name").expanded()
    }

    fn create_element(
        &mut self,
        name: html5ever::QualName,
        attrs: Vec<Attribute>,
        _flags: ElementFlags,
    ) -> NodeHandle {
        let h = self.builder.create_element(plain_name(&name), plain_attrs(attrs));
        self.names.insert((h.idx, h.gen), name);
        h
    }

    fn create_comment(&mut self, text: StrTendril) -> NodeHandle {
        self.builder.create_comment(text.to_string())
    }

    fn create_pi(&mut self, target: StrTendril, data: StrTendril) -> NodeHandle {
        self.builder.create_pi(target.to_string(), data.to_string())
    }

    fn append(&mut self, parent: &NodeHandle, child: H5NodeOrText<NodeHandle>) {
        self.builder.append(*parent, plain_child(child));
    }

    fn append_based_on_parent_node(
        &mut self,
        element: &NodeHandle,
        prev_element: &NodeHandle,
        child: H5NodeOrText<NodeHandle>,
    ) {
        self.builder.append_based_on_parent_node(*element, *prev_element, plain_child(child));
    }

    fn append_doctype_to_document(
        &mut self,
        name: StrTendril,
        public_id: StrTendril,
        system_id: StrTendril,
    ) {
        self.builder.append_doctype_to_document(
            name.to_string(),
            public_id.to_string(),
            system_id.to_string(),
        );
    }

    fn get_template_contents(&mut self, target: &NodeHandle) -> NodeHandle {
        if self.builder.arena.children_of(*target).is_empty() {
            panic!("template element without contents");
        }
        self.builder.get_template_contents(*target)
    }

    fn same_node(&self, x: &NodeHandle, y: &NodeHandle) -> bool {
        self.builder.same_node(*x, *y)
    }

    fn set_quirks_mode(&mut self, mode: H5QuirksMode) {
        let q = match mode {
            H5QuirksMode::Quirks => QuirksMode::Quirks,
            H5QuirksMode::LimitedQuirks => QuirksMode::LimitedQuirks,
            H5QuirksMode::NoQuirks => QuirksMode::NoQuirks,
        };
        self.builder.set_quirks_mode(q);
    }

    fn append_before_sibling(&mut self, sibling: &NodeHandle, new_node: H5NodeOrText<NodeHandle>) {
        self.builder.append_before_sibling(*sibling, plain_child(new_node));
    }

    fn add_attrs_if_missing(&mut self, target: &NodeHandle, attrs: Vec<Attribute>) {
        self.builder.add_attrs_if_missing(*target, plain_attrs(attrs));
    }

    fn remove_from_parent(&mut self, target: &NodeHandle) {
        self.builder.remove_from_parent(*target);
    }

    fn reparent_children(&mut self, node: &NodeHandle, new_parent: &NodeHandle) {
        self.builder.reparent_children(*node, *new_parent);
    }
}

fn parse(html: &str) -> Document {
    let sink = Harness { builder: DocumentBuilder::new(), names: HashMap::new() };
    let parser = html5ever::parse_document(sink, html5ever::ParseOpts::default());
    parser.one(html)
}

/// One node's shape, for structural comparison: kind, name and text,
/// with the shapes of its children.
fn shape(doc: &Document, h: NodeHandle) -> String {
    let node = doc.get(h).unwrap();
    let own = if node.is_document() {
        "document".to_string()
    } else if node.is_fragment() {
        "fragment".to_string()
    } else if let Some(d) = node.as_doctype() {
        let mut s = "doctype ".to_string();
        s.push_str(d.name());
        s
    } else if let Some(t) = node.as_text() {
        let mut s = "text ".to_string();
        s.push_str(t.get());
        s
    } else if let Some(c) = node.as_comment() {
        let mut s = "comment ".to_string();
        s.push_str(c.text());
        s
    } else if let Some(e) = node.as_element() {
        let mut s = "element ".to_string();
        s.push_str(e.name());
        s
    } else {
        "pi".to_string()
    };
    let mut out = String::new();
    out.push('(');
    out.push_str(&own);
    for k in doc.children(h) {
        out.push(' ');
        out.push_str(&shape(doc, k));
    }
    out.push(')');
    out
}

#[test]
fn parse_builds_expected_tree() {
    let doc = parse("<html><body><h1>Title</h1></body></html>");
    let kids = doc.children(doc.root);
    // html5ever synthesizes html/head/body even without a doctype
    let html = *kids.last().unwrap();
    let html_el = doc.get(html).unwrap().as_element().unwrap();
    assert_eq!(html_el.name(), "html");
    let html_kids = doc.children(html);
    assert_eq!(doc.get(html_kids[0]).unwrap().as_element().unwrap().name(), "head");
    let body = html_kids[1];
    assert_eq!(doc.get(body).unwrap().as_element().unwrap().name(), "body");
    let body_kids = doc.children(body);
    assert_eq!(body_kids.len(), 1);
    assert_eq!(doc.get(body_kids[0]).unwrap().as_element().unwrap().name(), "h1");
    let h1_kids = doc.children(body_kids[0]);
    assert_eq!(h1_kids.len(), 1);
    assert_eq!(doc.get(h1_kids[0]).unwrap().as_text().unwrap().get(), "Title");
}

#[test]
fn serialization_round_trip() {
    let doc = parse("<html><body><h1>Title</h1></body></html>");
    let rendered = doc.html(doc.root);
    let doc2 = parse(&rendered);
    assert_eq!(shape(&doc, doc.root), shape(&doc2, doc2.root));
}

#[test]
fn parse_merges_adjacent_text() {
    let doc = parse("<html><body>Hello, <!--x-->World!</body></html>");
    // the comment separates the runs; removing it does not re-merge, but
    // a run split only by tokenization comes out as one node
    let doc2 = parse("<html><body>Hello, World!</body></html>");
    let kids = doc2.children(doc2.root);
    let html = *kids.last().unwrap();
    let body = doc2.children(html)[1];
    let body_kids = doc2.children(body);
    assert_eq!(body_kids.len(), 1);
    assert_eq!(doc2.get(body_kids[0]).unwrap().as_text().unwrap().get(), "Hello, World!");
    // while the comment-split version holds three children
    let kids1 = doc.children(doc.root);
    let html1 = *kids1.last().unwrap();
    let body1 = doc.children(html1)[1];
    assert_eq!(doc.children(body1).len(), 3);
}

#[test]
fn parse_records_quirks_mode() {
    let quirky = parse("<html></html>");
    assert_eq!(quirky.quirks, QuirksMode::Quirks);
    let standard = parse("<!DOCTYPE html><html></html>");
    assert_eq!(standard.quirks, QuirksMode::NoQuirks);
}

#[test]
fn parse_keeps_attributes() {
    let doc = parse("<!DOCTYPE html><html><body><p id=\"x\" class=\"a b\">t</p></body></html>");
    let kids = doc.children(doc.root);
    let html = *kids.last().unwrap();
    let body = doc.children(html)[1];
    let p = doc.children(body)[0];
    let el = doc.get(p).unwrap().as_element().unwrap();
    assert_eq!(el.id(), Some("x"));
    assert!(el.has_class("a", domjohnson::CaseSensitivity::CaseSensitive));
    assert!(el.has_class("b", domjohnson::CaseSensitivity::CaseSensitive));
    assert_eq!(el.attr("id").unwrap(), "x");
}

#[test]
fn parse_never_fails_on_malformed_markup() {
    let doc = parse("<p><b>unclosed <div></p>");
    assert!(doc.get(doc.root).unwrap().is_document());
    let rendered = doc.html(doc.root);
    assert!(rendered.contains("<b>"));
}
