//! Tests of the arena, the document facade, the construction adapter
//! and the serializer, through the public surface alone.

use domjohnson::{
    Attr, CaseSensitivity, Document, DocumentBuilder, Element, Node, NodeOrText, QualName,
};

fn html_name(local: &str) -> QualName {
    QualName {
        prefix: None,
        ns: "http://www.w3.org/1999/xhtml".to_string(),
        local: local.to_string(),
    }
}

fn attr(local: &str, value: &str) -> Attr {
    Attr {
        name: QualName { prefix: None, ns: String::new(), local: local.to_string() },
        value: value.to_string(),
    }
}

fn body_of(doc: &Document) -> domjohnson::NodeHandle {
    let kids = doc.children(doc.root);
    let html = kids[1];
    let html_kids = doc.children(html);
    html_kids[1]
}

#[test]
fn new_html5_shape() {
    let doc = Document::new_html5();
    let kids = doc.children(doc.root);
    assert_eq!(kids.len(), 2);
    let doctype = doc.get(kids[0]).unwrap();
    assert!(doctype.is_doctype());
    assert_eq!(doctype.as_doctype().unwrap().name(), "html");
    let html = doc.get(kids[1]).unwrap();
    assert_eq!(html.as_element().unwrap().name(), "html");
    let html_kids = doc.children(kids[1]);
    assert_eq!(html_kids.len(), 2);
    assert_eq!(doc.get(html_kids[0]).unwrap().as_element().unwrap().name(), "head");
    assert_eq!(doc.get(html_kids[1]).unwrap().as_element().unwrap().name(), "body");
}

#[test]
fn new_html5_renders_minimal_document() {
    let doc = Document::new_html5();
    assert_eq!(
        doc.html(doc.root),
        "<!DOCTYPE html><html><head></head><body></body></html>"
    );
}

#[test]
fn generation_safety_after_delete_and_reuse() {
    let mut doc = Document::new_html5();
    let h = doc.create_element("div");
    assert!(doc.get(h).is_some());
    doc.delete(h);
    assert!(doc.get(h).is_none());
    // the freed slot is reused by the next allocation
    let h2 = doc.create_element("span");
    assert_eq!(h2.idx, h.idx);
    assert_ne!(h2.gen, h.gen);
    assert!(doc.get(h).is_none());
    assert_eq!(doc.get(h2).unwrap().as_element().unwrap().name(), "span");
}

#[test]
fn generation_safety_after_remove_subtree() {
    let mut doc = Document::new_html5();
    let body = body_of(&doc);
    let div = doc.create_element("div");
    let p = doc.create_element("p");
    doc.append(body, div);
    doc.append(div, p);
    doc.remove(div);
    assert!(doc.get(div).is_none());
    assert!(doc.get(p).is_none());
    let reused = doc.create_element("em");
    assert!(doc.get(div).is_none());
    assert!(doc.get(p).is_none());
    assert!(doc.get(reused).is_some());
}

#[test]
fn append_reparents_exactly_once() {
    let mut doc = Document::new_html5();
    let body = body_of(&doc);
    let p1 = doc.create_element("div");
    let p2 = doc.create_element("div");
    let c = doc.create_element("span");
    doc.append(body, p1);
    doc.append(body, p2);
    doc.append(p1, c);
    assert_eq!(doc.children(p1).len(), 1);
    assert_eq!(doc.children(p2).len(), 0);
    doc.append(p2, c);
    assert_eq!(doc.children(p1).len(), 0);
    assert_eq!(doc.children(p2).len(), 1);
    assert_eq!(doc.children(p2)[0].idx, c.idx);
}

#[test]
fn orphan_detection() {
    let mut doc = Document::new_html5();
    let h = doc.create_element("div");
    // the synthesized document contributes no orphan of its own
    let orphans = doc.orhpans();
    assert_eq!(orphans.len(), 1);
    assert_eq!(orphans[0], h);
    let body = body_of(&doc);
    doc.append(body, h);
    assert!(doc.orhpans().is_empty());
    doc.detach(h);
    let orphans = doc.orhpans();
    assert_eq!(orphans.len(), 1);
    assert_eq!(orphans[0], h);
}

#[test]
fn remove_orphans_spares_attached_and_orphans_children() {
    let mut doc = Document::new_html5();
    let body = body_of(&doc);
    let keep = doc.create_element("div");
    doc.append(body, keep);
    let orphan = doc.create_element("div");
    let child = doc.create_element("p");
    doc.append(orphan, child);
    doc.remove_orphans();
    assert!(doc.get(orphan).is_none());
    // attached nodes survive in place
    assert!(doc.get(keep).is_some());
    assert_eq!(doc.parent(keep).map(|p| p.idx), Some(body.idx));
    // the orphan's child survives, now parentless and itself an orphan
    assert!(doc.get(child).is_some());
    assert!(doc.parent(child).is_none());
    let orphans = doc.orhpans();
    assert_eq!(orphans.len(), 1);
    assert_eq!(orphans[0].idx, child.idx);
}

#[test]
fn remove_orphans_deletes_each() {
    let mut doc = Document::new_html5();
    let a = doc.create_element("div");
    let b = doc.create_element("span");
    doc.remove_orphans();
    assert!(doc.get(a).is_none());
    assert!(doc.get(b).is_none());
    // the root and the synthesized document survive
    assert!(doc.get(doc.root).is_some());
}

#[test]
fn delete_orphans_children_remove_retires_them() {
    let mut doc = Document::new_html5();
    let body = body_of(&doc);
    let parent = doc.create_element("div");
    let c1 = doc.create_element("p");
    let c2 = doc.create_element("p");
    doc.append(body, parent);
    doc.append(parent, c1);
    doc.append(parent, c2);

    // delete: the children persist, parentless
    doc.delete(parent);
    assert!(doc.get(parent).is_none());
    assert!(doc.get(c1).is_some());
    assert!(doc.get(c2).is_some());
    let orphans = doc.orhpans();
    assert!(orphans.iter().any(|o| o.idx == c1.idx));
    assert!(orphans.iter().any(|o| o.idx == c2.idx));

    // remove: node and all descendants stop resolving
    let parent2 = doc.create_element("div");
    let c3 = doc.create_element("p");
    doc.append(body, parent2);
    doc.append(parent2, c3);
    doc.remove(parent2);
    assert!(doc.get(parent2).is_none());
    assert!(doc.get(c3).is_none());
}

#[test]
fn insert_before_orders_siblings() {
    let mut doc = Document::new_html5();
    let body = body_of(&doc);
    let a = doc.create_element("a");
    let b = doc.create_element("b");
    let c = doc.create_element("i");
    doc.append(body, a);
    doc.append(body, c);
    doc.insert_before(c, b);
    let kids = doc.children(body);
    assert_eq!(kids.len(), 3);
    assert_eq!(doc.get(kids[0]).unwrap().as_element().unwrap().name(), "a");
    assert_eq!(doc.get(kids[1]).unwrap().as_element().unwrap().name(), "b");
    assert_eq!(doc.get(kids[2]).unwrap().as_element().unwrap().name(), "i");
}

#[test]
fn append_refuses_cycles_and_root() {
    let mut doc = Document::new_html5();
    let body = body_of(&doc);
    let outer = doc.create_element("div");
    let inner = doc.create_element("div");
    doc.append(body, outer);
    doc.append(outer, inner);
    // appending an ancestor below its descendant changes nothing
    doc.append(inner, outer);
    assert_eq!(doc.children(inner).len(), 0);
    assert_eq!(doc.children(outer).len(), 1);
    // the root can never be appended anywhere
    let root = doc.root;
    doc.append(body, root);
    assert!(!doc.children(body).iter().any(|k| k.idx == root.idx));
}

#[test]
fn construction_text_concatenates() {
    let mut b = DocumentBuilder::new();
    let root = b.get_document();
    let el = b.create_element(html_name("p"), Vec::new());
    b.append(root, NodeOrText::AppendNode(el));
    b.append(el, NodeOrText::AppendText("Hello, ".to_string()));
    b.append(el, NodeOrText::AppendText("World!".to_string()));
    let doc = b.finish();
    let kids = doc.children(el);
    assert_eq!(kids.len(), 1);
    let text = doc.get(kids[0]).unwrap().as_text().unwrap();
    assert_eq!(text.get(), "Hello, World!");
}

#[test]
fn construction_text_before_sibling_concatenates() {
    let mut b = DocumentBuilder::new();
    let root = b.get_document();
    let el = b.create_element(html_name("p"), Vec::new());
    b.append(root, NodeOrText::AppendNode(el));
    let marker = b.create_element(html_name("b"), Vec::new());
    b.append(el, NodeOrText::AppendText("one ".to_string()));
    b.append(el, NodeOrText::AppendNode(marker));
    b.append_before_sibling(marker, NodeOrText::AppendText("two".to_string()));
    let doc = b.finish();
    let kids = doc.children(el);
    assert_eq!(kids.len(), 2);
    assert_eq!(doc.get(kids[0]).unwrap().as_text().unwrap().get(), "one two");
}

#[test]
fn template_gets_fragment_contents() {
    let mut b = DocumentBuilder::new();
    let t = b.create_element(html_name("template"), Vec::new());
    let contents = b.get_template_contents(t);
    let doc = b.finish();
    assert!(doc.get(contents).unwrap().is_fragment());
}

#[test]
fn add_attrs_if_missing_keeps_first() {
    let mut b = DocumentBuilder::new();
    let el = b.create_element(html_name("p"), vec![attr("id", "first")]);
    b.add_attrs_if_missing(el, vec![attr("id", "second"), attr("lang", "en")]);
    let doc = b.finish();
    let element = doc.get(el).unwrap().as_element().unwrap();
    assert_eq!(element.attr("id").unwrap(), "first");
    assert_eq!(element.attr("lang").unwrap(), "en");
}

#[test]
fn reparent_children_moves_all() {
    let mut b = DocumentBuilder::new();
    let root = b.get_document();
    let from = b.create_element(html_name("div"), Vec::new());
    let to = b.create_element(html_name("div"), Vec::new());
    b.append(root, NodeOrText::AppendNode(from));
    b.append(root, NodeOrText::AppendNode(to));
    let a = b.create_element(html_name("a"), Vec::new());
    let bb = b.create_element(html_name("b"), Vec::new());
    b.append(from, NodeOrText::AppendNode(a));
    b.append(from, NodeOrText::AppendNode(bb));
    b.reparent_children(from, to);
    let doc = b.finish();
    assert_eq!(doc.children(from).len(), 0);
    let kids = doc.children(to);
    assert_eq!(kids.len(), 2);
    assert_eq!(doc.get(kids[0]).unwrap().as_element().unwrap().name(), "a");
    assert_eq!(doc.get(kids[1]).unwrap().as_element().unwrap().name(), "b");
}

#[test]
fn element_from_attrs_fills_id_and_classes() {
    let el = Element::new(
        html_name("p"),
        vec![attr("id", "chief"), attr("class", "a b  a"), attr("lang", "en")],
    );
    assert_eq!(el.id(), Some("chief"));
    let classes = el.classes();
    assert_eq!(classes.len(), 2);
    assert_eq!(classes[0], "a");
    assert_eq!(classes[1], "b");
    assert!(el.has_class("a", CaseSensitivity::CaseSensitive));
    assert!(!el.has_class("A", CaseSensitivity::CaseSensitive));
    assert!(el.has_class("A", CaseSensitivity::AsciiCaseInsensitive));
    assert!(!el.has_class("c", CaseSensitivity::AsciiCaseInsensitive));
    assert_eq!(el.attr("lang").unwrap(), "en");
}

#[test]
fn element_class_and_attr_updates() {
    let mut el = Element::new(html_name("p"), vec![attr("class", "a")]);
    el.append_class("b");
    el.append_class("a");
    assert_eq!(el.classes().len(), 2);
    el.remove_class("a");
    assert!(!el.has_class("a", CaseSensitivity::CaseSensitive));
    assert!(el.has_class("b", CaseSensitivity::CaseSensitive));
    el.remove_class("missing");
    assert_eq!(el.classes().len(), 1);

    assert!(!el.has_attr("title", CaseSensitivity::CaseSensitive));
    el.set_attr("title", "x");
    assert!(el.has_attr("title", CaseSensitivity::CaseSensitive));
    assert!(el.has_attr("TITLE", CaseSensitivity::AsciiCaseInsensitive));
    // set-then-get round trip: the setter writes the key the getter reads
    assert_eq!(el.attr("title").unwrap(), "x");
    el.set_attr("title", "z");
    assert_eq!(el.attr("title").unwrap(), "z");
    // set-then-remove round trip
    el.remove_attr("title");
    assert_eq!(el.attr("title"), None);
    assert!(!el.has_attr("title", CaseSensitivity::CaseSensitive));
    let mut el2 = Element::new(html_name("p"), vec![attr("title", "y")]);
    assert_eq!(el2.attr("title").unwrap(), "y");
    el2.remove_attr("title");
    assert_eq!(el2.attr("title"), None);
}

#[test]
fn text_nodes_concat_and_set() {
    let mut doc = Document::new_html5();
    let t = doc.create_text("one");
    doc.set_text(t, "two");
    let read = doc.get(t).unwrap().as_text().unwrap();
    assert_eq!(read.get(), "two");
}

#[test]
fn serialization_escapes_text() {
    let mut doc = Document::new_html5();
    let body = body_of(&doc);
    let div = doc.create_element("div");
    let t = doc.create_text("a<b & c");
    doc.append(body, div);
    doc.append(div, t);
    assert_eq!(doc.html(div), "<div>a&lt;b &amp; c</div>");
    assert_eq!(doc.inner_html(div), "a&lt;b &amp; c");
    // the collected text itself is unescaped
    let parts = doc.text(div);
    assert_eq!(parts.len(), 1);
    assert_eq!(parts[0], "a<b & c");
}

#[test]
fn serialization_of_comment_and_attrs() {
    let mut b = DocumentBuilder::new();
    let root = b.get_document();
    let el = b.create_element(html_name("p"), vec![attr("lang", "en")]);
    b.append(root, NodeOrText::AppendNode(el));
    let c = b.create_comment("note".to_string());
    b.append(el, NodeOrText::AppendNode(c));
    let doc = b.finish();
    assert_eq!(doc.html(el), "<p lang=\"en\"><!--note--></p>");
}

#[test]
fn doctype_node_accessors() {
    let mut b = DocumentBuilder::new();
    b.append_doctype_to_document("html".to_string(), "pub".to_string(), "sys".to_string());
    let doc = b.finish();
    let kids = doc.children(doc.root);
    assert_eq!(kids.len(), 1);
    let d = doc.get(kids[0]).unwrap().as_doctype().unwrap();
    assert_eq!(d.name(), "html");
    assert_eq!(d.public_id(), "pub");
    assert_eq!(d.system_id(), "sys");
}

#[test]
fn node_kind_queries() {
    let mut doc = Document::new_html5();
    let e = doc.create_element("p");
    let t = doc.create_text("x");
    let c = doc.create_comment("y");
    assert!(doc.get(e).unwrap().is_element());
    assert!(doc.get(t).unwrap().is_text());
    assert!(doc.get(c).unwrap().is_comment());
    assert!(doc.get(doc.root).unwrap().is_document());
    assert!(!doc.get(e).unwrap().is_text());
    assert!(doc.get(t).unwrap().as_element().is_none());
    assert!(doc.get(c).unwrap().as_comment().is_some());
    match doc.get(e).unwrap() {
        Node::Element(el) => assert_eq!(el.name(), "p"),
        _ => panic!("expected an element"),
    }
}

#[test]
fn stale_handles_leave_operations_inert() {
    let mut doc = Document::new_html5();
    let body = body_of(&doc);
    let gone = doc.create_element("div");
    doc.delete(gone);
    let before = doc.children(body).len();
    doc.append(body, gone);
    assert_eq!(doc.children(body).len(), before);
    doc.detach(gone);
    doc.remove(gone);
    doc.delete(gone);
    assert!(doc.get(gone).is_none());
    assert_eq!(doc.html(gone), "");
}

#[test]
fn selection_basics() {
    let mut doc = Document::new_html5();
    let a = doc.create_element("a");
    let b = doc.create_element("b");
    let sel = domjohnson::Selection::new(vec![a, b]);
    assert_eq!(sel.len(), 2);
    assert!(!sel.is_empty());
    assert_eq!(sel.get(0), Some(a));
    assert_eq!(sel.get(1), Some(b));
    assert_eq!(sel.get(2), None);
    let copied = sel.iter();
    assert_eq!(copied.len(), 2);
    let empty = domjohnson::Selection::new(Vec::new());
    assert!(empty.is_empty());
    let _ = doc.get(a);
}

#[test]
fn attrs_listing_keeps_order_and_last_value() {
    let el = Element::new(
        html_name("p"),
        vec![attr("a", "1"), attr("b", "2"), attr("a", "3")],
    );
    let pairs = el.attrs();
    assert_eq!(pairs.len(), 2);
    assert_eq!(pairs[0].0, "a");
    assert_eq!(pairs[0].1, "3");
    assert_eq!(pairs[1].0, "b");
    assert_eq!(pairs[1].1, "2");
}

#[test]
fn split_whitespace_words_splits_runs() {
    let words = domjohnson::split_whitespace_words("  one\ttwo  three\n");
    assert_eq!(words, vec!["one", "two", "three"]);
    let none = domjohnson::split_whitespace_words("   ");
    assert!(none.is_empty());
}

#[test]
fn processing_instruction_emits_no_markup() {
    let mut b = DocumentBuilder::new();
    let root = b.get_document();
    let pi = b.create_pi("target".to_string(), "data".to_string());
    b.append(root, NodeOrText::AppendNode(pi));
    let doc = b.finish();
    assert!(doc.get(pi).unwrap().as_processing_instruction().is_some());
    assert_eq!(doc.html(doc.root), "");
}

#[test]
fn document_level_element_mutators() {
    let mut doc = Document::new_html5();
    let div = doc.create_element("div");
    doc.set_attr(div, "title", "x");
    assert!(doc.get(div).unwrap().as_element().unwrap().has_attr(
        "title",
        CaseSensitivity::CaseSensitive,
    ));
    assert_eq!(doc.attr(div, "title").unwrap(), "x");
    // the setter and the remover share the no-namespace key, so the
    // pair cancels
    doc.remove_attr(div, "title");
    assert!(doc.attr(div, "title").is_none());
    assert!(!doc.get(div).unwrap().as_element().unwrap().has_attr(
        "title",
        CaseSensitivity::CaseSensitive,
    ));
    // a parser-produced no-namespace attribute is removable the same way
    let p = Element::new(html_name("p"), vec![attr("title", "y")]);
    let mut doc2 = Document::new_html5();
    let ph = doc2.arena.new_node(Node::Element(p));
    doc2.remove_attr(ph, "title");
    assert!(doc2.get(ph).unwrap().as_element().unwrap().attr("title").is_none());
    doc.append_class(div, "wide");
    doc.append_class(div, "wide");
    assert_eq!(doc.get(div).unwrap().as_element().unwrap().classes().len(), 1);
    doc.remove_class(div, "wide");
    assert!(doc.get(div).unwrap().as_element().unwrap().classes().is_empty());
    // a set attribute serializes as a plain name, without a namespace
    // prefix
    doc.set_attr(div, "data-k", "v");
    let body = body_of(&doc);
    doc.append(body, div);
    assert!(doc.html(doc.root).contains("data-k=\"v\""));
    // element operations leave non-elements untouched
    let t = doc.create_text("x");
    doc.set_attr(t, "a", "b");
    assert!(doc.get(t).unwrap().is_text());
}

#[test]
fn document_attr_lookup() {
    let mut b = DocumentBuilder::new();
    let el = b.create_element(html_name("p"), vec![attr("lang", "en")]);
    let doc = b.finish();
    assert_eq!(doc.attr(el, "lang").unwrap(), "en");
    assert_eq!(doc.attr(el, "title"), None);
    let mut doc = doc;
    let t = doc.create_text("x");
    assert_eq!(doc.attr(t, "lang"), None);
}

#[test]
fn node_type_names_each_kind() {
    let mut doc = Document::new_html5();
    let kids = doc.children(doc.root);
    assert_eq!(doc.node_type(kids[0]), "doctype");
    assert_eq!(doc.node_type(kids[1]), "html");
    assert_eq!(doc.node_type(doc.root), "");
    let t = doc.create_text("x");
    let c = doc.create_comment("y");
    assert_eq!(doc.node_type(t), "text");
    assert_eq!(doc.node_type(c), "comment");
    doc.delete(t);
    assert_eq!(doc.node_type(t), "");
}
