//! The node model: the closed set of node kinds and the element sub-model
//! of id, classes and attributes.

use vstd::prelude::*;
use crate::strutil::seq_eq_ci;
use crate::strutil::split_ws;
use crate::strutil::str_eq;

verus! {

/// Mathematical view of a qualified name.
pub struct QualNameV {
    pub prefix: Option<Seq<char>>,
    pub ns: Seq<char>,
    pub local: Seq<char>,
}

/// A qualified name: an optional prefix, a namespace url and a local name.
#[derive(Clone, Debug)]
pub struct QualName {
    pub prefix: Option<String>,
    pub ns: String,
    pub local: String,
}

impl View for QualName {
    type V = QualNameV;

    open spec fn view(&self) -> QualNameV {
        QualNameV {
            prefix: match self.prefix {
                Some(p) => Some(p@),
                None => None,
            },
            ns: self.ns@,
            local: self.local@,
        }
    }
}

impl QualName {
    /// A name in the HTML namespace, without a prefix.
    pub fn html(local: String) -> (r: QualName)
        ensures
            r@.ns == spec_html_ns(),
            r@.local == local@,
            r@.prefix is None,
    {
        QualName { prefix: None, ns: html_ns_string(), local }
    }
}

/// The HTML namespace url.
pub open spec fn spec_html_ns() -> Seq<char> {
    "http://www.w3.org/1999/xhtml"@
}

/// The HTML namespace url as a string.
pub fn html_ns_string() -> (r: String)
    ensures
        r@ == spec_html_ns(),
{
    String::from_str("http://www.w3.org/1999/xhtml")
}

/// Mathematical view of one attribute.
pub struct AttrV {
    pub name: QualNameV,
    pub value: Seq<char>,
}

/// One attribute: a qualified name and a value.
#[derive(Clone, Debug)]
pub struct Attr {
    pub name: QualName,
    pub value: String,
}

impl View for Attr {
    type V = AttrV;

    open spec fn view(&self) -> AttrV {
        AttrV { name: self.name@, value: self.value@ }
    }
}

/// The views of a sequence of attributes.
pub open spec fn attrs_view(s: Seq<Attr>) -> Seq<AttrV> {
    s.map_values(|a: Attr| a@)
}

/// Whether `a` is named by namespace `ns` and local name `local`.
/// The attribute map is deliberately keyed by namespace and local name
/// alone: a prefix is presentation, not identity, and the parser hands
/// attributes over prefix-free, so two attributes differing only in
/// prefix count as the same key here.
pub open spec fn key_matches(a: AttrV, ns: Seq<char>, local: Seq<char>) -> bool {
    a.name.ns == ns && a.name.local == local
}

/// Whether some attribute with the given name is present.
pub open spec fn has_key(attrs: Seq<AttrV>, ns: Seq<char>, local: Seq<char>) -> bool {
    exists|j: int| 0 <= j < attrs.len() && key_matches(attrs[j], ns, local)
}

/// Every attribute name occurs at most once.
pub open spec fn attr_keys_unique(attrs: Seq<AttrV>) -> bool {
    forall|i: int, j: int|
        0 <= i < j < attrs.len() ==> !(attrs[j].name.ns == attrs[i].name.ns && attrs[j].name.local
            == attrs[i].name.local)
}

/// The value of the attribute named by `ns` and `local`, if present.
pub open spec fn attr_find(attrs: Seq<AttrV>, ns: Seq<char>, local: Seq<char>) -> Option<
    Seq<char>,
>
    decreases attrs.len(),
{
    if attrs.len() == 0 {
        None
    } else if key_matches(attrs[0], ns, local) {
        Some(attrs[0].value)
    } else {
        attr_find(attrs.drop_first(), ns, local)
    }
}

/// The first attribute whose local name is `local`, whatever its namespace.
pub open spec fn find_by_local(attrs: Seq<AttrV>, local: Seq<char>) -> Option<AttrV>
    decreases attrs.len(),
{
    if attrs.len() == 0 {
        None
    } else if attrs[0].name.local == local {
        Some(attrs[0])
    } else {
        find_by_local(attrs.drop_first(), local)
    }
}

/// `attrs` after a map-style insertion of `a`: an attribute already named
/// the same keeps its place and its stored name and takes the new value;
/// otherwise `a` is appended.
pub open spec fn attrs_insert(attrs: Seq<AttrV>, a: AttrV) -> Seq<AttrV> {
    if has_key(attrs, a.name.ns, a.name.local) {
        let j = choose|j: int| 0 <= j < attrs.len() && key_matches(attrs[j], a.name.ns, a.name.local);
        attrs.update(j, AttrV { name: attrs[j].name, value: a.value })
    } else {
        attrs.push(a)
    }
}

/// Map-style insertion of each of `s` in turn, first occurrence keeping
/// its place and the last value winning.
pub open spec fn attrs_fold(s: Seq<AttrV>) -> Seq<AttrV>
    decreases s.len(),
{
    if s.len() == 0 {
        Seq::empty()
    } else {
        attrs_insert(attrs_fold(s.drop_last()), s.last())
    }
}

/// Map-style insertion keeps every attribute name unique.
pub proof fn lemma_attrs_insert_unique(attrs: Seq<AttrV>, a: AttrV)
    requires
        attr_keys_unique(attrs),
    ensures
        attr_keys_unique(attrs_insert(attrs, a)),
{
    if has_key(attrs, a.name.ns, a.name.local) {
        let j = choose|j: int|
            0 <= j < attrs.len() && key_matches(attrs[j], a.name.ns, a.name.local);
        let out = attrs.update(j, AttrV { name: attrs[j].name, value: a.value });
        assert forall|x: int, y: int| 0 <= x < y < out.len() implies !(out[y].name.ns
            == out[x].name.ns && out[y].name.local == out[x].name.local) by {
            assert(out[x].name == attrs[x].name);
            assert(out[y].name == attrs[y].name);
        }
    }
}

/// A folded attribute list has unique names.
pub proof fn lemma_attrs_fold_unique(s: Seq<AttrV>)
    ensures
        attr_keys_unique(attrs_fold(s)),
    decreases s.len(),
{
    if s.len() == 0 {
    } else {
        lemma_attrs_fold_unique(s.drop_last());
        lemma_attrs_insert_unique(attrs_fold(s.drop_last()), s.last());
    }
}

/// A doctype: name, public identifier and system identifier.
#[derive(Clone, Debug)]
pub struct Doctype {
    pub name: String,
    pub public_id: String,
    pub system_id: String,
}

impl Doctype {
    /// Returns the doctype name.
    pub fn name(&self) -> (r: &str)
        ensures
            r@ == self.name@,
    {
        self.name.as_str()
    }

    /// Returns the doctype public ID.
    pub fn public_id(&self) -> (r: &str)
        ensures
            r@ == self.public_id@,
    {
        self.public_id.as_str()
    }

    /// Returns the doctype system ID.
    pub fn system_id(&self) -> (r: &str)
        ensures
            r@ == self.system_id@,
    {
        self.system_id.as_str()
    }
}

/// An HTML comment.
#[derive(Clone, Debug)]
pub struct Comment {
    pub comment: String,
}

impl Comment {
    /// Returns the comment text.
    pub fn text(&self) -> (r: &str)
        ensures
            r@ == self.comment@,
    {
        self.comment.as_str()
    }
}

/// HTML text.
#[derive(Clone, Debug)]
pub struct Text {
    pub text: String,
}

impl Text {
    /// Appends `s` at the end of the text in place.
    pub fn concat(&mut self, s: &str)
        ensures
            final(self).text@ == old(self).text@ + s@,
    {
        self.text.append(s);
    }

    /// Replaces the whole text.
    pub fn set_text(&mut self, text: &str)
        ensures
            final(self).text@ == text@,
    {
        self.text = text.to_owned();
    }

    /// Returns the text.
    pub fn get(&self) -> (r: &str)
        ensures
            r@ == self.text@,
    {
        self.text.as_str()
    }
}

/// An HTML processing instruction.
#[derive(Clone, Debug)]
pub struct ProcessingInstruction {
    pub target: String,
    pub data: String,
}

/// Mathematical view of an element.
pub struct ElementV {
    pub name: QualNameV,
    pub id: Option<Seq<char>>,
    pub classes: Seq<Seq<char>>,
    pub attrs: Seq<AttrV>,
}

/// An HTML element: its qualified name, its id, its classes and its
/// attributes, the attributes keeping their insertion order.
#[derive(Debug)]
pub struct Element {
    pub name: QualName,
    pub id: Option<String>,
    pub classes: Vec<String>,
    pub attrs: Vec<Attr>,
}

impl View for Element {
    type V = ElementV;

    open spec fn view(&self) -> ElementV {
        ElementV {
            name: self.name@,
            id: match self.id {
                Some(s) => Some(s@),
                None => None,
            },
            classes: crate::strutil::views_of(self.classes@),
            attrs: attrs_view(self.attrs@),
        }
    }
}

/// Whether some class of `classes` matches `q` under `cs`.
pub open spec fn spec_has_class(classes: Seq<Seq<char>>, q: Seq<char>, cs: CaseSensitivity) -> bool {
    exists|i: int| 0 <= i < classes.len() && cs_match(cs, classes[i], q)
}

/// Whether some attribute's local name matches `q` under `cs`.
pub open spec fn spec_has_attr(attrs: Seq<AttrV>, q: Seq<char>, cs: CaseSensitivity) -> bool {
    exists|i: int| 0 <= i < attrs.len() && cs_match(cs, attrs[i].name.local, q)
}

/// The position of the attribute named by `ns` and `local`, if any,
/// skipping earlier attributes with other names.
fn attr_position(attrs: &Vec<Attr>, ns: &str, local: &str) -> (r: Option<usize>)
    ensures
        match r {
            Some(i) => i < attrs@.len() && key_matches(attrs_view(attrs@)[i as int], ns@, local@)
                && (forall|j: int|
                0 <= j < i ==> !key_matches(attrs_view(attrs@)[j], ns@, local@)),
            None => !has_key(attrs_view(attrs@), ns@, local@),
        },
{
    let mut i: usize = 0;
    while i < attrs.len()
        invariant
            i <= attrs.len(),
            forall|j: int| 0 <= j < i ==> !key_matches(attrs_view(attrs@)[j], ns@, local@),
        decreases attrs.len() - i,
    {
        if str_eq(attrs[i].name.ns.as_str(), ns) && str_eq(attrs[i].name.local.as_str(), local) {
            proof {
                assert(key_matches(attrs_view(attrs@)[i as int], ns@, local@));
            }
            return Some(i);
        }
        i = i + 1;
    }
    None
}

/// The first attribute of `attrs` whose local name is `local`.
fn find_local<'a>(attrs: &'a Vec<Attr>, local: &str) -> (r: Option<&'a Attr>)
    ensures
        match r {
            Some(a) => find_by_local(attrs_view(attrs@), local@) == Some(a@),
            None => find_by_local(attrs_view(attrs@), local@) is None,
        },
{
    let mut i: usize = 0;
    proof {
        assert(attrs_view(attrs@).skip(0) =~= attrs_view(attrs@));
    }
    while i < attrs.len()
        invariant
            i <= attrs.len(),
            find_by_local(attrs_view(attrs@), local@) == find_by_local(
                attrs_view(attrs@).skip(i as int),
                local@,
            ),
        decreases attrs.len() - i,
    {
        proof {
            assert(attrs_view(attrs@).skip(i as int)[0] == attrs_view(attrs@)[i as int]);
            assert(attrs_view(attrs@).skip(i as int).drop_first() =~= attrs_view(attrs@).skip(
                i as int + 1,
            ));
        }
        if str_eq(attrs[i].name.local.as_str(), local) {
            return Some(&attrs[i]);
        }
        i = i + 1;
    }
    proof {
        assert(attrs_view(attrs@).skip(attrs@.len() as int) =~= Seq::<AttrV>::empty());
    }
    None
}

/// The classes listed in a class attribute value: its words, each kept
/// once, in order of first occurrence.
pub fn classes_from(value: &str) -> (out: Vec<String>)
    ensures
        crate::strutil::views_of(out@) == crate::strutil::dedup_first(split_ws(value@)),
        crate::strutil::views_of(out@).no_duplicates(),
{
    let mut words = crate::strutil::split_whitespace_words(value);
    let mut out: Vec<String> = Vec::new();
    let ghost mut processed: Seq<Seq<char>> = Seq::empty();
    proof {
        assert(processed + crate::strutil::views_of(words@) =~= split_ws(value@));
        assert(crate::strutil::views_of(out@) =~= crate::strutil::dedup_first(processed));
    }
    while words.len() > 0
        invariant
            processed + crate::strutil::views_of(words@) == split_ws(value@),
            crate::strutil::views_of(out@) == crate::strutil::dedup_first(processed),
            crate::strutil::views_of(out@).no_duplicates(),
        decreases words.len(),
    {
        let ghost prev_words = words@;
        let ghost prev_out = out@;
        let w = words.remove(0);
        proof {
            assert(crate::strutil::views_of(prev_words) =~= seq![w@] + crate::strutil::views_of(
                words@,
            ));
            assert((processed.push(w@)).drop_last() =~= processed);
            assert(crate::strutil::dedup_first(processed.push(w@)) == if crate::strutil::dedup_first(
                processed,
            ).contains(w@) {
                crate::strutil::dedup_first(processed)
            } else {
                crate::strutil::dedup_first(processed).push(w@)
            });
        }
        if !crate::strutil::contains_string(&out, w.as_str()) {
            out.push(w);
            proof {
                assert(crate::strutil::views_of(out@) =~= crate::strutil::views_of(prev_out).push(
                    w@,
                ));
            }
        }
        proof {
            processed = processed.push(w@);
            assert(processed + crate::strutil::views_of(words@) =~= split_ws(value@));
        }
    }
    proof {
        assert(crate::strutil::views_of(words@) =~= Seq::<Seq<char>>::empty());
        assert(processed =~= split_ws(value@));
    }
    out
}

impl Element {
    /// Every attribute name unique, every class listed once.
    pub open spec fn wf(self) -> bool {
        attr_keys_unique(self@.attrs) && self@.classes.no_duplicates()
    }

    /// Builds an element from its name and a raw attribute list: the `id`
    /// attribute fills the id, the words of the `class` attribute fill the
    /// classes, and the attributes are kept as a map in insertion order,
    /// the first occurrence of a name keeping its place and the last value
    /// winning.
    pub fn new(name: QualName, attrs: Vec<Attr>) -> (e: Element)
        ensures
            e@.name == name@,
            (match find_by_local(attrs_view(attrs@), "id"@) {
                Some(a) => e@.id == Some(a.value),
                None => e@.id is None,
            }),
            (match find_by_local(attrs_view(attrs@), "class"@) {
                Some(a) => e@.classes == crate::strutil::dedup_first(split_ws(a.value)),
                None => e@.classes == Seq::<Seq<char>>::empty(),
            }),
            e@.attrs == attrs_fold(attrs_view(attrs@)),
            e.wf(),
    {
        let id: Option<String> = match find_local(&attrs, "id") {
            Some(a) => Some(a.value.as_str().to_owned()),
            None => None,
        };
        let classes: Vec<String> = match find_local(&attrs, "class") {
            Some(a) => classes_from(a.value.as_str()),
            None => Vec::new(),
        };
        proof {
            assert(crate::strutil::views_of(Seq::<String>::empty()) =~= Seq::<Seq<char>>::empty());
        }
        let ghost input = attrs_view(attrs@);
        let mut rest = attrs;
        let mut out: Vec<Attr> = Vec::new();
        let ghost mut processed: Seq<AttrV> = Seq::empty();
        proof {
            assert(processed + attrs_view(rest@) =~= input);
            assert(attrs_view(out@) =~= attrs_fold(processed));
        }
        while rest.len() > 0
            invariant
                processed + attrs_view(rest@) == input,
                attrs_view(out@) == attrs_fold(processed),
                attr_keys_unique(attrs_view(out@)),
            decreases rest.len(),
        {
            let ghost prev_rest = rest@;
            let ghost prev_out = out@;
            let a = rest.remove(0);
            proof {
                assert(attrs_view(prev_rest) =~= seq![a@] + attrs_view(rest@));
                assert((processed.push(a@)).drop_last() =~= processed);
                assert(attrs_fold(processed.push(a@)) == attrs_insert(attrs_fold(processed), a@));
            }
            match attr_position(&out, a.name.ns.as_str(), a.name.local.as_str()) {
                Some(i) => {
                    let prev = out.remove(i);
                    out.insert(i, Attr { name: prev.name, value: a.value });
                    proof {
                        let ghost av = a@;
                        assert(has_key(attrs_view(prev_out), av.name.ns, av.name.local));
                        let j = choose|j: int|
                            0 <= j < attrs_view(prev_out).len() && key_matches(
                                attrs_view(prev_out)[j],
                                av.name.ns,
                                av.name.local,
                            );
                        assert(j == i) by {
                            if j < i {
                                assert(!key_matches(attrs_view(prev_out)[j], av.name.ns, av.name.local));
                            }
                            if i < j {
                                assert(!(attrs_view(prev_out)[j].name.ns == attrs_view(
                                    prev_out,
                                )[i as int].name.ns && attrs_view(prev_out)[j].name.local
                                    == attrs_view(prev_out)[i as int].name.local));
                            }
                        }
                        assert(attrs_view(out@) =~= attrs_insert(attrs_view(prev_out), av));
                        lemma_attrs_insert_unique(attrs_view(prev_out), av);
                    }
                },
                None => {
                    let ghost av = a@;
                    out.push(a);
                    proof {
                        assert(attrs_view(out@) =~= attrs_view(prev_out).push(av));
                        assert(attrs_view(out@) =~= attrs_insert(attrs_view(prev_out), av));
                        lemma_attrs_insert_unique(attrs_view(prev_out), av);
                    }
                },
            }
            proof {
                processed = processed.push(a@);
                assert(processed + attrs_view(rest@) =~= input);
            }
        }
        proof {
            assert(attrs_view(rest@) =~= Seq::<AttrV>::empty());
            assert(processed =~= input);
        }
        Element { name, id, classes, attrs: out }
    }

    /// Returns the element's local name.
    pub fn name(&self) -> (r: &str)
        ensures
            r@ == self@.name.local,
    {
        self.name.local.as_str()
    }

    /// Returns the element's id.
    pub fn id(&self) -> (r: Option<&str>)
        ensures
            match r {
                Some(s) => self@.id == Some(s@),
                None => self@.id is None,
            },
    {
        match &self.id {
            Some(s) => Some(s.as_str()),
            None => None,
        }
    }

    /// Whether the element carries this class, under the given case
    /// sensitivity.
    pub fn has_class(&self, class: &str, case_sensitive: CaseSensitivity) -> (r: bool)
        ensures
            r == spec_has_class(self@.classes, class@, case_sensitive),
    {
        let mut i: usize = 0;
        while i < self.classes.len()
            invariant
                i <= self.classes.len(),
                forall|j: int| 0 <= j < i ==> !cs_match(case_sensitive, self@.classes[j], class@),
            decreases self.classes.len() - i,
        {
            if case_sensitive.eq_str(self.classes[i].as_str(), class) {
                proof {
                    assert(cs_match(case_sensitive, self@.classes[i as int], class@));
                }
                return true;
            }
            i = i + 1;
        }
        false
    }

    /// Adds a class, unless an identical one is already present.
    pub fn append_class(&mut self, class: &str)
        ensures
            final(self)@.classes == if old(self)@.classes.contains(class@) {
                old(self)@.classes
            } else {
                old(self)@.classes.push(class@)
            },
            final(self)@.name == old(self)@.name,
            final(self)@.id == old(self)@.id,
            final(self)@.attrs == old(self)@.attrs,
            old(self).wf() ==> final(self).wf(),
    {
        if !crate::strutil::contains_string(&self.classes, class) {
            let ghost prev = self@.classes;
            self.classes.push(class.to_owned());
            proof {
                assert(self@.classes =~= prev.push(class@));
            }
        }
    }

    /// Removes the class when it is present exactly.
    pub fn remove_class(&mut self, class: &str)
        ensures
            final(self)@.classes == old(self)@.classes.remove_value(class@),
            final(self)@.name == old(self)@.name,
            final(self)@.id == old(self)@.id,
            final(self)@.attrs == old(self)@.attrs,
            old(self).wf() ==> final(self).wf(),
    {
        let mut i: usize = 0;
        while i < self.classes.len()
            invariant
                i <= self.classes.len(),
                *self == *old(self),
                forall|j: int| 0 <= j < i ==> old(self)@.classes[j] != class@,
            decreases self.classes.len() - i,
        {
            let ghost prev = old(self)@.classes;
            if str_eq(self.classes[i].as_str(), class) {
                proof {
                    assert(prev[i as int] == class@);
                }
                self.classes.remove(i);
                proof {
                    prev.index_of_first_ensures(class@);
                    assert(prev.contains(class@));
                    match prev.index_of_first(class@) {
                        Some(k) => {
                            assert(k == i) by {
                                if i < k {
                                    assert(prev[i as int] != class@);
                                }
                                if k < i {
                                    assert(prev[k] != class@);
                                }
                            }
                            assert(self@.classes =~= prev.remove(i as int));
                        },
                        None => {
                            assert(false);
                        },
                    }
                    if prev.no_duplicates() {
                        prev.remove_ensures(i as int);
                        assert forall|x: int, y: int|
                            0 <= x < y < self@.classes.len() implies self@.classes[x]
                            != self@.classes[y] by {
                            assert(self@.classes[x] == if x < i { prev[x] } else { prev[x + 1] });
                            assert(self@.classes[y] == if y < i { prev[y] } else { prev[y + 1] });
                        }
                    }
                }
                return ;
            }
            i = i + 1;
        }
        proof {
            let prev = old(self)@.classes;
            prev.index_of_first_ensures(class@);
            assert(!prev.contains(class@));
        }
    }

    /// Returns the element's classes.
    pub fn classes(&self) -> (r: Vec<String>)
        ensures
            crate::strutil::views_of(r@) == self@.classes,
    {
        let mut r: Vec<String> = Vec::new();
        let mut i: usize = 0;
        while i < self.classes.len()
            invariant
                i <= self.classes.len(),
                r@.len() == i,
                forall|j: int| 0 <= j < i ==> r@[j]@ == self@.classes[j],
            decreases self.classes.len() - i,
        {
            r.push(self.classes[i].as_str().to_owned());
            i = i + 1;
        }
        proof {
            assert(crate::strutil::views_of(r@) =~= self@.classes);
        }
        r
    }

    /// Whether some attribute's local name matches, under the given case
    /// sensitivity.
    pub fn has_attr(&self, attr: &str, case_sensitive: CaseSensitivity) -> (r: bool)
        ensures
            r == spec_has_attr(self@.attrs, attr@, case_sensitive),
    {
        let mut i: usize = 0;
        while i < self.attrs.len()
            invariant
                i <= self.attrs.len(),
                forall|j: int|
                    0 <= j < i ==> !cs_match(case_sensitive, self@.attrs[j].name.local, attr@),
            decreases self.attrs.len() - i,
        {
            if case_sensitive.eq_str(self.attrs[i].name.local.as_str(), attr) {
                proof {
                    assert(cs_match(case_sensitive, self@.attrs[i as int].name.local, attr@));
                }
                return true;
            }
            i = i + 1;
        }
        false
    }

    /// Returns the value of the attribute with this local name and no
    /// namespace.
    pub fn attr(&self, attr: &str) -> (r: Option<&String>)
        ensures
            match r {
                Some(v) => attr_find(self@.attrs, Seq::empty(), attr@) == Some(v@),
                None => attr_find(self@.attrs, Seq::empty(), attr@) is None,
            },
    {
        let mut i: usize = 0;
        proof {
            assert(self@.attrs.skip(0) =~= self@.attrs);
        }
        while i < self.attrs.len()
            invariant
                i <= self.attrs.len(),
                attr_find(self@.attrs, Seq::empty(), attr@) == attr_find(
                    self@.attrs.skip(i as int),
                    Seq::empty(),
                    attr@,
                ),
            decreases self.attrs.len() - i,
        {
            proof {
                assert(self@.attrs.skip(i as int)[0] == self@.attrs[i as int]);
                assert(self@.attrs.skip(i as int).drop_first() =~= self@.attrs.skip(i as int + 1));
            }
            if self.attrs[i].name.ns.as_str().is_empty() && str_eq(
                self.attrs[i].name.local.as_str(),
                attr,
            ) {
                proof {
                    assert(self@.attrs[i as int].name.ns =~= Seq::<char>::empty());
                    assert(key_matches(self@.attrs[i as int], Seq::empty(), attr@));
                }
                return Some(&self.attrs[i].value);
            }
            proof {
                assert(!key_matches(self@.attrs[i as int], Seq::empty(), attr@)) by {
                    if self@.attrs[i as int].name.ns == Seq::<char>::empty() {
                        assert(self@.attrs[i as int].name.ns.len() == 0);
                    }
                }
            }
            i = i + 1;
        }
        proof {
            assert(self@.attrs.skip(self.attrs@.len() as int) =~= Seq::<AttrV>::empty());
        }
        None
    }

    /// Sets an attribute with this local name and no namespace — the
    /// same key `attr` and `remove_attr` read — replacing the value of
    /// an attribute of the same name; reading the name back afterwards
    /// yields the value just set.
    pub fn set_attr(&mut self, attr: &str, value: &str)
        requires
            old(self).wf(),
        ensures
            final(self)@.attrs == attrs_insert(
                old(self)@.attrs,
                AttrV {
                    name: QualNameV { prefix: None, ns: Seq::empty(), local: attr@ },
                    value: value@,
                },
            ),
            attr_find(final(self)@.attrs, Seq::empty(), attr@) == Some(value@),
            spec_has_attr(final(self)@.attrs, attr@, CaseSensitivity::CaseSensitive),
            final(self)@.name == old(self)@.name,
            final(self)@.id == old(self)@.id,
            final(self)@.classes == old(self)@.classes,
            final(self).wf(),
    {
        let ghost prev = self@.attrs;
        let name = QualName { prefix: None, ns: String::new(), local: attr.to_owned() };
        proof {
            assert(name@.ns =~= Seq::<char>::empty());
        }
        let ghost av = AttrV { name: name@, value: value@ };
        let ns = String::new();
        match attr_position(&self.attrs, ns.as_str(), attr) {
            Some(i) => {
                let prev_attr = self.attrs.remove(i);
                self.attrs.insert(i, Attr { name: prev_attr.name, value: value.to_owned() });
                proof {
                    assert(has_key(prev, av.name.ns, av.name.local));
                    let j = choose|j: int|
                        0 <= j < prev.len() && key_matches(prev[j], av.name.ns, av.name.local);
                    assert(j == i) by {
                        if j < i {
                            assert(!key_matches(prev[j], av.name.ns, av.name.local));
                        }
                        if i < j {
                            assert(!(prev[j].name.ns == prev[i as int].name.ns
                                && prev[j].name.local == prev[i as int].name.local));
                        }
                    }
                    assert(self@.attrs =~= attrs_insert(prev, av));
                    lemma_attrs_insert_unique(prev, av);
                    assert(cs_match(
                        CaseSensitivity::CaseSensitive,
                        self@.attrs[j].name.local,
                        attr@,
                    ));
                }
            },
            None => {
                self.attrs.push(Attr { name, value: value.to_owned() });
                proof {
                    assert(self@.attrs =~= prev.push(av));
                    assert(self@.attrs =~= attrs_insert(prev, av));
                    lemma_attrs_insert_unique(prev, av);
                    assert(cs_match(
                        CaseSensitivity::CaseSensitive,
                        self@.attrs[prev.len() as int].name.local,
                        attr@,
                    ));
                }
            },
        }
        proof {
            lemma_attrs_insert_find(prev, av);
        }
    }
}

/// `attrs` without the attribute named by `ns` and `local`, when present.
pub open spec fn attrs_remove(attrs: Seq<AttrV>, ns: Seq<char>, local: Seq<char>) -> Seq<AttrV> {
    if has_key(attrs, ns, local) {
        let j = choose|j: int| 0 <= j < attrs.len() && key_matches(attrs[j], ns, local);
        attrs.remove(j)
    } else {
        attrs
    }
}

/// A scan for a name that nothing carries finds nothing.
proof fn lemma_attr_find_none(attrs: Seq<AttrV>, ns: Seq<char>, local: Seq<char>)
    requires
        forall|x: int| 0 <= x < attrs.len() ==> !key_matches(#[trigger] attrs[x], ns, local),
    ensures
        attr_find(attrs, ns, local) is None,
    decreases attrs.len(),
{
    if attrs.len() > 0 {
        assert forall|x: int| 0 <= x < attrs.drop_first().len() implies !key_matches(
            #[trigger] attrs.drop_first()[x],
            ns,
            local,
        ) by {
            assert(attrs.drop_first()[x] == attrs[x + 1]);
        }
        lemma_attr_find_none(attrs.drop_first(), ns, local);
    }
}

/// A scan finds the first attribute of its name: where `j` matches and
/// nothing before it does, the value at `j` comes back.
proof fn lemma_attr_find_first(attrs: Seq<AttrV>, ns: Seq<char>, local: Seq<char>, j: int)
    requires
        0 <= j < attrs.len(),
        key_matches(attrs[j], ns, local),
        forall|x: int| 0 <= x < j ==> !key_matches(#[trigger] attrs[x], ns, local),
    ensures
        attr_find(attrs, ns, local) == Some(attrs[j].value),
    decreases j,
{
    if j > 0 {
        assert(!key_matches(attrs[0], ns, local));
        assert(attrs.drop_first()[j - 1] == attrs[j]);
        assert forall|x: int| 0 <= x < j - 1 implies !key_matches(
            #[trigger] attrs.drop_first()[x],
            ns,
            local,
        ) by {
            assert(attrs.drop_first()[x] == attrs[x + 1]);
        }
        lemma_attr_find_first(attrs.drop_first(), ns, local, j - 1);
    }
}

/// The set-then-get half of the attribute map's round trip: after a
/// map-style insertion the inserted name reads back as exactly the
/// inserted value.
pub proof fn lemma_attrs_insert_find(attrs: Seq<AttrV>, a: AttrV)
    requires
        attr_keys_unique(attrs),
    ensures
        attr_find(attrs_insert(attrs, a), a.name.ns, a.name.local) == Some(a.value),
{
    let out = attrs_insert(attrs, a);
    if has_key(attrs, a.name.ns, a.name.local) {
        let j = choose|j: int|
            0 <= j < attrs.len() && key_matches(attrs[j], a.name.ns, a.name.local);
        assert(out[j].value == a.value);
        assert(key_matches(out[j], a.name.ns, a.name.local));
        assert forall|x: int| 0 <= x < j implies !key_matches(
            #[trigger] out[x],
            a.name.ns,
            a.name.local,
        ) by {
            assert(out[x] == attrs[x]);
            if key_matches(attrs[x], a.name.ns, a.name.local) {
                assert(!(attrs[j].name.ns == attrs[x].name.ns && attrs[j].name.local
                    == attrs[x].name.local));
            }
        }
        lemma_attr_find_first(out, a.name.ns, a.name.local, j);
    } else {
        let j = attrs.len() as int;
        assert(out[j] == a);
        assert forall|x: int| 0 <= x < j implies !key_matches(
            #[trigger] out[x],
            a.name.ns,
            a.name.local,
        ) by {
            assert(out[x] == attrs[x]);
        }
        lemma_attr_find_first(out, a.name.ns, a.name.local, j);
    }
}

/// The remove-then-get half of the attribute map's round trip: after a
/// removal the removed name is gone entirely — it reads back as
/// nothing, and a second identical removal is a no-op.
pub proof fn lemma_attrs_remove_find(attrs: Seq<AttrV>, ns: Seq<char>, local: Seq<char>)
    requires
        attr_keys_unique(attrs),
    ensures
        attr_find(attrs_remove(attrs, ns, local), ns, local) is None,
        !has_key(attrs_remove(attrs, ns, local), ns, local),
{
    if has_key(attrs, ns, local) {
        let j = choose|j: int| 0 <= j < attrs.len() && key_matches(attrs[j], ns, local);
        let out = attrs.remove(j);
        attrs.remove_ensures(j);
        assert forall|x: int| 0 <= x < out.len() implies !key_matches(
            #[trigger] out[x],
            ns,
            local,
        ) by {
            if x < j {
                assert(out[x] == attrs[x]);
                if key_matches(attrs[x], ns, local) {
                    assert(!(attrs[j].name.ns == attrs[x].name.ns && attrs[j].name.local
                        == attrs[x].name.local));
                }
            } else {
                assert(out[x] == attrs[x + 1]);
                if key_matches(attrs[x + 1], ns, local) {
                    assert(!(attrs[x + 1].name.ns == attrs[j].name.ns && attrs[x + 1].name.local
                        == attrs[j].name.local));
                }
            }
        }
        lemma_attr_find_none(out, ns, local);
    } else {
        assert forall|x: int| 0 <= x < attrs.len() implies !key_matches(
            #[trigger] attrs[x],
            ns,
            local,
        ) by {
            if key_matches(attrs[x], ns, local) {
                assert(has_key(attrs, ns, local));
            }
        }
        lemma_attr_find_none(attrs, ns, local);
    }
}

impl Element {
    /// Removes the attribute with this local name and no namespace —
    /// the same key `set_attr` writes and `attr` reads; reading the
    /// name back afterwards yields nothing.
    pub fn remove_attr(&mut self, attr: &str)
        requires
            old(self).wf(),
        ensures
            final(self)@.attrs == attrs_remove(old(self)@.attrs, Seq::empty(), attr@),
            attr_find(final(self)@.attrs, Seq::empty(), attr@) is None,
            !has_key(final(self)@.attrs, Seq::empty(), attr@),
            final(self)@.name == old(self)@.name,
            final(self)@.id == old(self)@.id,
            final(self)@.classes == old(self)@.classes,
            final(self).wf(),
    {
        let ghost prev = self@.attrs;
        let ns = String::new();
        proof {
            assert(ns@ =~= Seq::<char>::empty());
        }
        match attr_position(&self.attrs, ns.as_str(), attr) {
            Some(i) => {
                self.attrs.remove(i);
                proof {
                    assert(has_key(prev, Seq::empty(), attr@));
                    let j = choose|j: int|
                        0 <= j < prev.len() && key_matches(prev[j], Seq::empty(), attr@);
                    assert(j == i) by {
                        if j < i {
                            assert(!key_matches(prev[j], Seq::empty(), attr@));
                        }
                        if i < j {
                            assert(!(prev[j].name.ns == prev[i as int].name.ns
                                && prev[j].name.local == prev[i as int].name.local));
                        }
                    }
                    assert(self@.attrs =~= prev.remove(i as int));
                    prev.remove_ensures(i as int);
                    assert forall|x: int, y: int|
                        0 <= x < y < self@.attrs.len() implies !(self@.attrs[y].name.ns
                        == self@.attrs[x].name.ns && self@.attrs[y].name.local
                        == self@.attrs[x].name.local) by {
                        assert(self@.attrs[x] == if x < i {
                            prev[x]
                        } else {
                            prev[x + 1]
                        });
                        assert(self@.attrs[y] == if y < i {
                            prev[y]
                        } else {
                            prev[y + 1]
                        });
                    }
                }
            },
            None => {
                proof {
                    assert(!has_key(prev, Seq::empty(), attr@));
                }
            },
        }
        proof {
            lemma_attrs_remove_find(prev, Seq::<char>::empty(), attr@);
        }
    }

    /// Returns the attributes as pairs of local name and value, in stored
    /// order.
    pub fn attrs(&self) -> (r: Vec<(String, String)>)
        ensures
            r@.len() == self@.attrs.len(),
            forall|j: int|
                0 <= j < r@.len() ==> r@[j].0@ == self@.attrs[j].name.local && r@[j].1@
                    == self@.attrs[j].value,
    {
        let mut r: Vec<(String, String)> = Vec::new();
        let mut i: usize = 0;
        while i < self.attrs.len()
            invariant
                i <= self.attrs.len(),
                r@.len() == i,
                forall|j: int|
                    0 <= j < i ==> r@[j].0@ == self@.attrs[j].name.local && r@[j].1@
                        == self@.attrs[j].value,
            decreases self.attrs.len() - i,
        {
            r.push(
                (self.attrs[i].name.local.as_str().to_owned(), self.attrs[i].value.as_str().to_owned()),
            );
            i = i + 1;
        }
        r
    }
}

/// How two names or values are compared.
#[derive(Clone, Copy, Debug, PartialEq, Eq, Structural)]
pub enum CaseSensitivity {
    /// Characters must match exactly.
    CaseSensitive,
    /// ASCII letters match their other case as well.
    AsciiCaseInsensitive,
}

/// Whether `a` and `b` match under the chosen case sensitivity.
pub open spec fn cs_match(cs: CaseSensitivity, a: Seq<char>, b: Seq<char>) -> bool {
    match cs {
        CaseSensitivity::CaseSensitive => a == b,
        CaseSensitivity::AsciiCaseInsensitive => seq_eq_ci(a, b),
    }
}

impl CaseSensitivity {
    /// Compares two strings under this case sensitivity.
    pub fn eq_str(&self, a: &str, b: &str) -> (r: bool)
        ensures
            r == cs_match(*self, a@, b@),
    {
        match self {
            CaseSensitivity::CaseSensitive => str_eq(a, b),
            CaseSensitivity::AsciiCaseInsensitive => crate::strutil::str_eq_ci(a, b),
        }
    }
}

impl QualName {
    /// An identical copy of the name.
    pub fn duplicate(&self) -> (r: QualName)
        ensures
            r@ == self@,
    {
        QualName {
            prefix: match &self.prefix {
                Some(p) => Some(p.as_str().to_owned()),
                None => None,
            },
            ns: self.ns.as_str().to_owned(),
            local: self.local.as_str().to_owned(),
        }
    }
}

impl Attr {
    /// An identical copy of the attribute.
    pub fn duplicate(&self) -> (r: Attr)
        ensures
            r@ == self@,
    {
        Attr { name: self.name.duplicate(), value: self.value.as_str().to_owned() }
    }
}

/// Copies a whole attribute list.
pub fn attrs_duplicate(attrs: &Vec<Attr>) -> (r: Vec<Attr>)
    ensures
        attrs_view(r@) == attrs_view(attrs@),
{
    let mut r: Vec<Attr> = Vec::new();
    let mut i: usize = 0;
    while i < attrs.len()
        invariant
            i <= attrs.len(),
            r@.len() == i,
            forall|j: int| 0 <= j < i ==> (#[trigger] r@[j])@ == attrs@[j]@,
        decreases attrs.len() - i,
    {
        r.push(attrs[i].duplicate());
        i = i + 1;
    }
    proof {
        assert(attrs_view(r@) =~= attrs_view(attrs@));
    }
    r
}

/// `attrs` after each of `incoming` is added only when no attribute of
/// that name is present yet: the first occurrence wins.
pub open spec fn attrs_merge(attrs: Seq<AttrV>, incoming: Seq<AttrV>) -> Seq<AttrV>
    decreases incoming.len(),
{
    if incoming.len() == 0 {
        attrs
    } else {
        let prev = attrs_merge(attrs, incoming.drop_last());
        if has_key(prev, incoming.last().name.ns, incoming.last().name.local) {
            prev
        } else {
            prev.push(incoming.last())
        }
    }
}

impl Element {
    /// Adds each incoming attribute only when no attribute of that name
    /// is present: the stored first occurrence wins.
    pub fn merge_missing(&mut self, attrs: Vec<Attr>)
        requires
            old(self).wf(),
        ensures
            final(self)@.attrs == attrs_merge(old(self)@.attrs, attrs_view(attrs@)),
            final(self)@.name == old(self)@.name,
            final(self)@.id == old(self)@.id,
            final(self)@.classes == old(self)@.classes,
            final(self).wf(),
    {
        let ghost incoming = attrs_view(attrs@);
        let mut rest = attrs;
        let ghost mut processed: Seq<AttrV> = Seq::empty();
        proof {
            assert(processed + attrs_view(rest@) =~= incoming);
            assert(attrs_merge(old(self)@.attrs, processed) =~= old(self)@.attrs);
        }
        while rest.len() > 0
            invariant
                processed + attrs_view(rest@) == incoming,
                self@.attrs == attrs_merge(old(self)@.attrs, processed),
                self@.name == old(self)@.name,
                self@.id == old(self)@.id,
                self@.classes == old(self)@.classes,
                attr_keys_unique(self@.attrs),
                old(self).wf(),
            decreases rest.len(),
        {
            let ghost prev_rest = rest@;
            let ghost prev_attrs = self@.attrs;
            let a = rest.remove(0);
            proof {
                assert(attrs_view(prev_rest) =~= seq![a@] + attrs_view(rest@));
                assert((processed.push(a@)).drop_last() =~= processed);
                assert(attrs_merge(old(self)@.attrs, processed.push(a@)) == if has_key(
                    prev_attrs,
                    a@.name.ns,
                    a@.name.local,
                ) {
                    prev_attrs
                } else {
                    prev_attrs.push(a@)
                });
            }
            match attr_position(&self.attrs, a.name.ns.as_str(), a.name.local.as_str()) {
                Some(_) => {
                    proof {
                        assert(has_key(prev_attrs, a@.name.ns, a@.name.local));
                    }
                },
                None => {
                    let ghost av = a@;
                    self.attrs.push(a);
                    proof {
                        assert(self@.attrs =~= prev_attrs.push(av));
                        assert forall|x: int, y: int|
                            0 <= x < y < self@.attrs.len() implies !(self@.attrs[y].name.ns
                            == self@.attrs[x].name.ns && self@.attrs[y].name.local
                            == self@.attrs[x].name.local) by {
                            if y == self@.attrs.len() - 1 {
                                assert(!key_matches(prev_attrs[x], av.name.ns, av.name.local));
                            }
                        }
                    }
                },
            }
            proof {
                processed = processed.push(a@);
                assert(processed + attrs_view(rest@) =~= incoming);
            }
        }
        proof {
            assert(attrs_view(rest@) =~= Seq::<AttrV>::empty());
            assert(processed =~= incoming);
        }
    }
}

/// Mathematical view of a node.
pub enum NodeV {
    Document,
    Fragment,
    Doctype { name: Seq<char>, public_id: Seq<char>, system_id: Seq<char> },
    Comment { text: Seq<char> },
    Text { text: Seq<char> },
    Element(ElementV),
    ProcessingInstruction { target: Seq<char>, data: Seq<char> },
}

/// An HTML node.
#[derive(Debug)]
pub enum Node {
    /// The document root.
    Document,
    /// The fragment root.
    Fragment,
    /// A doctype.
    Doctype(Doctype),
    /// A comment.
    Comment(Comment),
    /// Text.
    Text(Text),
    /// An element.
    Element(Element),
    /// A processing instruction.
    ProcessingInstruction(ProcessingInstruction),
}

impl View for Node {
    type V = NodeV;

    open spec fn view(&self) -> NodeV {
        match self {
            Node::Document => NodeV::Document,
            Node::Fragment => NodeV::Fragment,
            Node::Doctype(d) => NodeV::Doctype {
                name: d.name@,
                public_id: d.public_id@,
                system_id: d.system_id@,
            },
            Node::Comment(c) => NodeV::Comment { text: c.comment@ },
            Node::Text(t) => NodeV::Text { text: t.text@ },
            Node::Element(e) => NodeV::Element(e@),
            Node::ProcessingInstruction(pi) => NodeV::ProcessingInstruction {
                target: pi.target@,
                data: pi.data@,
            },
        }
    }
}

/// A node's element sub-model is well formed; other kinds carry none.
pub open spec fn node_wf(n: Node) -> bool {
    match n {
        Node::Element(e) => e.wf(),
        _ => true,
    }
}

impl Node {
    /// Returns true if node is the document root.
    pub fn is_document(&self) -> (r: bool)
        ensures
            r == (self@ is Document),
    {
        matches!(*self, Node::Document)
    }

    /// Returns true if node is the fragment root.
    pub fn is_fragment(&self) -> (r: bool)
        ensures
            r == (self@ is Fragment),
    {
        matches!(*self, Node::Fragment)
    }

    /// Returns true if node is a doctype.
    pub fn is_doctype(&self) -> (r: bool)
        ensures
            r == (self@ is Doctype),
    {
        matches!(*self, Node::Doctype(_))
    }

    /// Returns true if node is a comment.
    pub fn is_comment(&self) -> (r: bool)
        ensures
            r == (self@ is Comment),
    {
        matches!(*self, Node::Comment(_))
    }

    /// Returns true if node is text.
    pub fn is_text(&self) -> (r: bool)
        ensures
            r == (self@ is Text),
    {
        matches!(*self, Node::Text(_))
    }

    /// Returns true if node is an element.
    pub fn is_element(&self) -> (r: bool)
        ensures
            r == (self@ is Element),
    {
        matches!(*self, Node::Element(_))
    }

    /// Returns self as a doctype.
    pub fn as_doctype(&self) -> (r: Option<&Doctype>)
        ensures
            r is Some <==> self@ is Doctype,
            r matches Some(d) ==> *self == Node::Doctype(*d),
    {
        match *self {
            Node::Doctype(ref d) => Some(d),
            _ => None,
        }
    }

    /// Returns self as a comment.
    pub fn as_comment(&self) -> (r: Option<&Comment>)
        ensures
            r is Some <==> self@ is Comment,
            r matches Some(c) ==> *self == Node::Comment(*c),
    {
        match *self {
            Node::Comment(ref c) => Some(c),
            _ => None,
        }
    }

    /// Returns self as text.
    pub fn as_text(&self) -> (r: Option<&Text>)
        ensures
            r is Some <==> self@ is Text,
            r matches Some(t) ==> *self == Node::Text(*t),
    {
        match *self {
            Node::Text(ref t) => Some(t),
            _ => None,
        }
    }

    /// Returns self as an element.
    pub fn as_element(&self) -> (r: Option<&Element>)
        ensures
            r is Some <==> self@ is Element,
            r matches Some(e) ==> *self == Node::Element(*e),
    {
        match *self {
            Node::Element(ref e) => Some(e),
            _ => None,
        }
    }

    /// Returns self as a processing instruction.
    pub fn as_processing_instruction(&self) -> (r: Option<&ProcessingInstruction>)
        ensures
            r is Some <==> self@ is ProcessingInstruction,
            r matches Some(pi) ==> *self == Node::ProcessingInstruction(*pi),
    {
        match *self {
            Node::ProcessingInstruction(ref pi) => Some(pi),
            _ => None,
        }
    }
}

} // verus!
