//! The serializer: a depth-first open/close edge walk over a subtree,
//! replayed as a token stream, which an external markup writer turns
//! into text.  This module does no string escaping of its own.

use vstd::prelude::*;
use html5ever::serialize::Serializer;
use crate::arena::Arena;
use crate::node::Attr;
use crate::node::AttrV;
use crate::node::Node;
use crate::node::NodeV;
use crate::node::QualName;
use crate::node::QualNameV;
use crate::node::attrs_view;
use crate::node::attrs_duplicate;

verus! {

/// Mathematical view of one serialization token.
pub enum TokenV {
    Doctype { name: Seq<char> },
    Comment { text: Seq<char> },
    Text { text: Seq<char> },
    Start { name: QualNameV, attrs: Seq<AttrV> },
    End { name: QualNameV },
}

/// One token of the markup stream.
pub enum SerToken {
    Doctype { name: String },
    Comment { text: String },
    Text { text: String },
    Start { name: QualName, attrs: Vec<Attr> },
    End { name: QualName },
}

impl View for SerToken {
    type V = TokenV;

    open spec fn view(&self) -> TokenV {
        match self {
            SerToken::Doctype { name } => TokenV::Doctype { name: name@ },
            SerToken::Comment { text } => TokenV::Comment { text: text@ },
            SerToken::Text { text } => TokenV::Text { text: text@ },
            SerToken::Start { name, attrs } => TokenV::Start {
                name: name@,
                attrs: attrs_view(attrs@),
            },
            SerToken::End { name } => TokenV::End { name: name@ },
        }
    }
}

/// The views of a token list.
pub open spec fn token_views(s: Seq<SerToken>) -> Seq<TokenV> {
    s.map_values(|t: SerToken| t@)
}

/// The token emitted on entering a node: doctypes, comments, text and
/// start tags; roots and processing instructions emit nothing.
pub open spec fn open_tokens(nv: NodeV) -> Seq<TokenV> {
    match nv {
        NodeV::Doctype { name, public_id, system_id } => seq![TokenV::Doctype { name }],
        NodeV::Comment { text } => seq![TokenV::Comment { text }],
        NodeV::Text { text } => seq![TokenV::Text { text }],
        NodeV::Element(e) => seq![TokenV::Start { name: e.name, attrs: e.attrs }],
        _ => Seq::empty(),
    }
}

/// The token emitted on leaving a node: an end tag for elements only.
pub open spec fn close_tokens(nv: NodeV) -> Seq<TokenV> {
    match nv {
        NodeV::Element(e) => seq![TokenV::End { name: e.name }],
        _ => Seq::empty(),
    }
}

/// The token stream of the subtree at `i`, cut off below `fuel` levels.
pub open spec fn tokens_fuel(a: Arena, i: int, fuel: nat) -> Seq<TokenV>
    decreases fuel, 0int,
{
    if fuel == 0 {
        Seq::empty()
    } else {
        open_tokens(a.node_at(i)) + forest_tokens(a, a.kids(i), (fuel - 1) as nat) + close_tokens(
            a.node_at(i),
        )
    }
}

/// The concatenated token streams of the subtrees at `cs`.
pub open spec fn forest_tokens(a: Arena, cs: Seq<usize>, fuel: nat) -> Seq<TokenV>
    decreases fuel, cs.len(),
{
    if cs.len() == 0 {
        Seq::empty()
    } else {
        tokens_fuel(a, cs[0] as int, fuel) + forest_tokens(a, cs.drop_first(), fuel)
    }
}

/// The token stream of the subtree at `i`, node included.  One level of
/// fuel per slot is always enough, since a chain of nested live nodes
/// can never be longer than the arena.
pub open spec fn subtree_tokens(a: Arena, i: int) -> Seq<TokenV> {
    tokens_fuel(a, i, a.n() as nat)
}

/// The token stream of the children of `i` only: the edges of the scope
/// root itself are suppressed, its children's edges still emit.
pub open spec fn children_tokens(a: Arena, i: int) -> Seq<TokenV> {
    forest_tokens(a, a.kids(i), a.n() as nat)
}

/// How a token moves the element nesting depth.
pub open spec fn tok_depth(t: TokenV) -> int {
    match t {
        TokenV::Start { .. } => 1,
        TokenV::End { .. } => -1,
        _ => 0,
    }
}

/// The nesting depth after a whole stream.
pub open spec fn depth_sum(s: Seq<TokenV>) -> int
    decreases s.len(),
{
    if s.len() == 0 {
        0
    } else {
        depth_sum(s.drop_last()) + tok_depth(s.last())
    }
}

/// No prefix of the stream closes more elements than it opened.
pub open spec fn prefixes_ok(s: Seq<TokenV>) -> bool {
    forall|k: int| 0 <= k <= s.len() ==> depth_sum(#[trigger] s.take(k)) >= 0
}

/// A stream that opens and closes its elements in matched pairs.
pub open spec fn balanced(s: Seq<TokenV>) -> bool {
    depth_sum(s) == 0 && prefixes_ok(s)
}

/// The depth of a one-token stream is that token's step.
pub proof fn lemma_depth_one(t: TokenV)
    ensures
        depth_sum(seq![t]) == tok_depth(t),
{
    assert(seq![t].len() == 1);
    assert(seq![t].last() == t);
    assert(seq![t].drop_last() =~= Seq::<TokenV>::empty());
    assert(depth_sum(Seq::<TokenV>::empty()) == 0);
}

/// Depth adds over concatenation.
pub proof fn lemma_depth_concat(x: Seq<TokenV>, y: Seq<TokenV>)
    ensures
        depth_sum(x + y) == depth_sum(x) + depth_sum(y),
    decreases y.len(),
{
    if y.len() == 0 {
        assert(x + y =~= x);
    } else {
        lemma_depth_concat(x, y.drop_last());
        assert((x + y).drop_last() =~= x + y.drop_last());
        assert((x + y).last() == y.last());
    }
}

/// Two balanced streams concatenate to a balanced stream.
pub proof fn lemma_balanced_concat(x: Seq<TokenV>, y: Seq<TokenV>)
    requires
        balanced(x),
        balanced(y),
    ensures
        balanced(x + y),
{
    lemma_depth_concat(x, y);
    assert forall|k: int| 0 <= k <= (x + y).len() implies depth_sum(#[trigger] (x + y).take(k))
        >= 0 by {
        if k <= x.len() {
            assert((x + y).take(k) =~= x.take(k));
        } else {
            assert((x + y).take(k) =~= x + y.take(k - x.len()));
            lemma_depth_concat(x, y.take(k - x.len()));
            assert(depth_sum(y.take(k - x.len())) >= 0);
        }
    }
}

/// A balanced stream wrapped in one start and one end tag is balanced.
pub proof fn lemma_balanced_wrap(s: TokenV, m: Seq<TokenV>, e: TokenV)
    requires
        balanced(m),
        tok_depth(s) == 1,
        tok_depth(e) == -1,
    ensures
        balanced(seq![s] + m + seq![e]),
{
    let w = seq![s] + m + seq![e];
    lemma_depth_concat(seq![s] + m, seq![e]);
    lemma_depth_concat(seq![s], m);
    lemma_depth_one(s);
    lemma_depth_one(e);
    assert forall|k: int| 0 <= k <= w.len() implies depth_sum(#[trigger] w.take(k)) >= 0 by {
        if k == 0 {
            assert(w.take(0) =~= Seq::<TokenV>::empty());
        } else if k <= 1 + m.len() {
            assert(w.take(k) =~= seq![s] + m.take(k - 1));
            lemma_depth_concat(seq![s], m.take(k - 1));
            assert(depth_sum(m.take(k - 1)) >= 0);
        } else {
            assert(w.take(k) =~= w);
            assert(depth_sum(w) == 0);
        }
    }
}

/// Every subtree token stream is balanced.
pub proof fn lemma_tokens_balanced(a: Arena, i: int, fuel: nat)
    ensures
        balanced(tokens_fuel(a, i, fuel)),
    decreases fuel, 0int,
{
    if fuel == 0 {
    } else {
        lemma_forest_balanced(a, a.kids(i), (fuel - 1) as nat);
        let inner = forest_tokens(a, a.kids(i), (fuel - 1) as nat);
        match a.node_at(i) {
            NodeV::Element(e) => {
                lemma_balanced_wrap(
                    TokenV::Start { name: e.name, attrs: e.attrs },
                    inner,
                    TokenV::End { name: e.name },
                );
                assert(tokens_fuel(a, i, fuel) =~= seq![
                    TokenV::Start { name: e.name, attrs: e.attrs },
                ] + inner + seq![TokenV::End { name: e.name }]);
            },
            _ => {
                let op = open_tokens(a.node_at(i));
                assert(balanced(op)) by {
                    if op.len() > 0 {
                        assert(op.len() == 1);
                        lemma_depth_one(op[0]);
                        assert(op =~= seq![op[0]]);
                        assert(tok_depth(op[0]) == 0);
                        assert(depth_sum(op) == 0);
                        assert forall|k: int| 0 <= k <= op.len() implies depth_sum(
                            #[trigger] op.take(k),
                        ) >= 0 by {
                            if k == 0 {
                                assert(op.take(0) =~= Seq::<TokenV>::empty());
                                assert(depth_sum(Seq::<TokenV>::empty()) == 0);
                            } else {
                                assert(op.take(k) =~= op);
                            }
                        }
                    } else {
                        assert(op =~= Seq::<TokenV>::empty());
                        assert(depth_sum(Seq::<TokenV>::empty()) == 0);
                        assert forall|k: int| 0 <= k <= op.len() implies depth_sum(
                            #[trigger] op.take(k),
                        ) >= 0 by {
                            assert(op.take(k) =~= Seq::<TokenV>::empty());
                        }
                    }
                }
                lemma_balanced_concat(op, inner);
                assert(tokens_fuel(a, i, fuel) =~= op + inner);
            },
        }
    }
}

/// Every forest token stream is balanced.
pub proof fn lemma_forest_balanced(a: Arena, cs: Seq<usize>, fuel: nat)
    ensures
        balanced(forest_tokens(a, cs, fuel)),
    decreases fuel, cs.len(),
{
    if cs.len() == 0 {
        let s = forest_tokens(a, cs, fuel);
        assert forall|k: int| 0 <= k <= s.len() implies depth_sum(#[trigger] s.take(k)) >= 0 by {
            assert(s.take(k) =~= Seq::<TokenV>::empty());
        }
    } else {
        lemma_tokens_balanced(a, cs[0] as int, fuel);
        lemma_forest_balanced(a, cs.drop_first(), fuel);
        lemma_balanced_concat(
            tokens_fuel(a, cs[0] as int, fuel),
            forest_tokens(a, cs.drop_first(), fuel),
        );
    }
}

/// Appending one tree at the end of a forest appends its tokens.
pub proof fn lemma_forest_push(a: Arena, cs: Seq<usize>, x: usize, fuel: nat)
    ensures
        forest_tokens(a, cs.push(x), fuel) == forest_tokens(a, cs, fuel) + tokens_fuel(
            a,
            x as int,
            fuel,
        ),
    decreases cs.len(),
{
    if cs.len() == 0 {
        assert(cs.push(x)[0] == x);
        assert(cs.push(x).drop_first() =~= Seq::<usize>::empty());
        assert(forest_tokens(a, Seq::<usize>::empty(), fuel) =~= Seq::<TokenV>::empty());
        assert(forest_tokens(a, cs.push(x), fuel) == tokens_fuel(a, x as int, fuel)
            + forest_tokens(a, cs.push(x).drop_first(), fuel));
        assert(forest_tokens(a, cs.push(x), fuel) =~= tokens_fuel(a, x as int, fuel));
        assert(forest_tokens(a, cs, fuel) + tokens_fuel(a, x as int, fuel) =~= tokens_fuel(
            a,
            x as int,
            fuel,
        ));
    } else {
        lemma_forest_push(a, cs.drop_first(), x, fuel);
        assert(cs.push(x)[0] == cs[0]);
        assert(cs.push(x).drop_first() =~= cs.drop_first().push(x));
        assert(forest_tokens(a, cs.push(x), fuel) =~= tokens_fuel(a, cs[0] as int, fuel)
            + forest_tokens(a, cs.drop_first().push(x), fuel));
        assert(forest_tokens(a, cs, fuel) + tokens_fuel(a, x as int, fuel) =~= tokens_fuel(
            a,
            cs[0] as int,
            fuel,
        ) + (forest_tokens(a, cs.drop_first(), fuel) + tokens_fuel(a, x as int, fuel)));
    }
}

/// Fuel beyond one level per remaining slot changes nothing: the path
/// of ancestors above a node, the node, and every level below it are
/// distinct slots, so the stream never reaches the cut-off.
pub proof fn lemma_tokens_fuel_stable(a: Arena, i: int, f1: nat, f2: nat)
    requires
        a.wf(),
        a.live(i),
        f1 + a.ancs(i).len() >= a.n(),
        f2 + a.ancs(i).len() >= a.n(),
    ensures
        tokens_fuel(a, i, f1) == tokens_fuel(a, i, f2),
    decreases f1 + f2, 0int,
{
    a.lemma_ancs_short(i);
    assert(f1 >= 1 && f2 >= 1);
    assert forall|t: int| 0 <= t < a.kids(i).len() implies a.live(#[trigger] a.kids(i)[t] as int)
        && a.ancs(a.kids(i)[t] as int).len() == a.ancs(i).len() + 1 by {
        assert(a.kid_at(i, t) == a.kids(i)[t] as int);
        a.lemma_kid_ancs(i, t);
    }
    lemma_forest_fuel_stable(a, a.kids(i), (f1 - 1) as nat, (f2 - 1) as nat);
}

/// The forest face of the fuel-stability argument.
pub proof fn lemma_forest_fuel_stable(a: Arena, cs: Seq<usize>, g1: nat, g2: nat)
    requires
        a.wf(),
        forall|t: int|
            0 <= t < cs.len() ==> a.live(#[trigger] cs[t] as int) && g1 + a.ancs(
                cs[t] as int,
            ).len() >= a.n() && g2 + a.ancs(cs[t] as int).len() >= a.n(),
    ensures
        forest_tokens(a, cs, g1) == forest_tokens(a, cs, g2),
    decreases g1 + g2, cs.len(),
{
    if cs.len() == 0 {
    } else {
        lemma_tokens_fuel_stable(a, cs[0] as int, g1, g2);
        assert forall|t: int|
            0 <= t < cs.drop_first().len() implies a.live(
            #[trigger] cs.drop_first()[t] as int,
        ) && g1 + a.ancs(cs.drop_first()[t] as int).len() >= a.n() && g2 + a.ancs(
            cs.drop_first()[t] as int,
        ).len() >= a.n() by {
            assert(cs.drop_first()[t] == cs[t + 1]);
        }
        lemma_forest_fuel_stable(a, cs.drop_first(), g1, g2);
    }
}

/// Any fuel of at least one level per slot produces the whole subtree's
/// stream.
pub proof fn lemma_subtree_tokens_any_fuel(a: Arena, i: int, f: nat)
    requires
        a.wf(),
        a.live(i),
        f >= a.n(),
    ensures
        tokens_fuel(a, i, f) == subtree_tokens(a, i),
{
    lemma_tokens_fuel_stable(a, i, f, a.n() as nat);
}

/// Emits the token stream of the subtree at live slot `i`, cut off at
/// `fuel` levels of nesting.
pub fn emit_subtree(a: &Arena, i: usize, fuel: usize) -> (out: Vec<SerToken>)
    requires
        a.wf(),
        a.live(i as int),
    ensures
        token_views(out@) == tokens_fuel(*a, i as int, fuel as nat),
    decreases fuel,
{
    let mut out: Vec<SerToken> = Vec::new();
    if fuel == 0 {
        proof {
            assert(token_views(out@) =~= tokens_fuel(*a, i as int, fuel as nat));
        }
        return out;
    }
    match &a.slots[i].node {
        Some(n) => {
            match n {
                Node::Doctype(d) => {
                    out.push(SerToken::Doctype { name: d.name.as_str().to_owned() });
                },
                Node::Comment(c) => {
                    out.push(SerToken::Comment { text: c.comment.as_str().to_owned() });
                },
                Node::Text(t) => {
                    out.push(SerToken::Text { text: t.text.as_str().to_owned() });
                },
                Node::Element(e) => {
                    out.push(
                        SerToken::Start { name: e.name.duplicate(), attrs: attrs_duplicate(
                            &e.attrs,
                        ) },
                    );
                },
                _ => {},
            }
        },
        None => {
            proof {
                assert(false);
            }
        },
    }
    proof {
        assert(token_views(out@) =~= open_tokens(a.node_at(i as int)));
    }
    let nk = a.slots[i].children.len();
    let mut j: usize = 0;
    while j < nk
        invariant
            a.wf(),
            a.live(i as int),
            fuel >= 1,
            nk == a.kids(i as int).len(),
            j <= nk,
            token_views(out@) == open_tokens(a.node_at(i as int)) + forest_tokens(
                *a,
                a.kids(i as int).take(j as int),
                (fuel - 1) as nat,
            ),
        decreases nk - j,
    {
        let c = a.slots[i].children[j];
        proof {
            assert(a.kid_at(i as int, j as int) == c as int);
            assert(a.live(c as int));
        }
        let ghost prev_views = token_views(out@);
        let mut sub = emit_subtree(a, c, fuel - 1);
        out.append(&mut sub);
        proof {
            assert(token_views(out@) =~= prev_views + tokens_fuel(
                *a,
                c as int,
                (fuel - 1) as nat,
            ));
            assert(a.kids(i as int).take(j as int + 1) =~= a.kids(i as int).take(j as int).push(
                c,
            ));
            lemma_forest_push(*a, a.kids(i as int).take(j as int), c, (fuel - 1) as nat);
            assert(token_views(out@) =~= open_tokens(a.node_at(i as int)) + forest_tokens(
                *a,
                a.kids(i as int).take(j as int + 1),
                (fuel - 1) as nat,
            ));
        }
        j = j + 1;
    }
    proof {
        assert(a.kids(i as int).take(nk as int) =~= a.kids(i as int));
    }
    match &a.slots[i].node {
        Some(n) => {
            match n {
                Node::Element(e) => {
                    out.push(SerToken::End { name: e.name.duplicate() });
                },
                _ => {},
            }
        },
        None => {
            proof {
                assert(false);
            }
        },
    }
    proof {
        assert(token_views(out@) =~= open_tokens(a.node_at(i as int)) + forest_tokens(
            *a,
            a.kids(i as int),
            (fuel - 1) as nat,
        ) + close_tokens(a.node_at(i as int)));
    }
    out
}

/// The external markup writer, held opaquely: html5ever's
/// `HtmlSerializer` over a byte buffer.
#[verifier::external_body]
pub struct MarkupWriter {
    inner: html5ever::serialize::HtmlSerializer<Vec<u8>>,
}

/// The tokens written into the external writer so far.
pub uninterp spec fn ser_log(s: MarkupWriter) -> Seq<TokenV>;

/// The markup text the external writer produces for a token stream: a
/// function of the tokens alone.
pub uninterp spec fn written_markup(log: Seq<TokenV>) -> Seq<char>;

/// Relies on html5ever's `HtmlSerializer::new`: a fresh writer over an
/// empty buffer has written nothing.
#[verifier::external_body]
fn ser_new() -> (s: MarkupWriter)
    ensures
        ser_log(s) == Seq::<TokenV>::empty(),
{
    MarkupWriter {
        inner: html5ever::serialize::HtmlSerializer::new(
            Vec::new(),
            html5ever::serialize::SerializeOpts {
                scripting_enabled: false,
                traversal_scope: html5ever::serialize::TraversalScope::ChildrenOnly(None),
                create_missing_parent: false,
            },
        ),
    }
}

/// Relies on html5ever's `Serializer::start_elem`: writes a start tag
/// with its attributes.  The writer keeps one open-element record per
/// start tag, so the call is safe whenever no surplus end tag came
/// before.
#[verifier::external_body]
fn ser_start(s: &mut MarkupWriter, name: &QualName, attrs: &Vec<Attr>)
    requires
        depth_sum(ser_log(*old(s))) >= 0,
    ensures
        ser_log(*final(s)) == ser_log(*old(s)).push(
            TokenV::Start { name: name@, attrs: attrs_view(attrs@) },
        ),
{
    let conv = |q: &QualName| html5ever::QualName::new(
        q.prefix.as_ref().map(|p| html5ever::Prefix::from(p.as_str())),
        html5ever::Namespace::from(q.ns.as_str()),
        html5ever::LocalName::from(q.local.as_str()),
    );
    let hattrs: Vec<(html5ever::QualName, String)> = attrs.iter().map(
        |a: &Attr| (conv(&a.name), a.value.clone()),
    ).collect();
    let _ = s.inner.start_elem(conv(name), hattrs.iter().map(|kv| (&kv.0, kv.1.as_str())));
}

/// Relies on html5ever's `Serializer::end_elem`: writes an end tag,
/// closing the most recent open element, which must exist.
#[verifier::external_body]
fn ser_end(s: &mut MarkupWriter, name: &QualName)
    requires
        depth_sum(ser_log(*old(s))) >= 1,
    ensures
        ser_log(*final(s)) == ser_log(*old(s)).push(TokenV::End { name: name@ }),
{
    let qn = html5ever::QualName::new(
        name.prefix.as_ref().map(|p| html5ever::Prefix::from(p.as_str())),
        html5ever::Namespace::from(name.ns.as_str()),
        html5ever::LocalName::from(name.local.as_str()),
    );
    let _ = s.inner.end_elem(qn);
}

/// Relies on html5ever's `Serializer::write_text`: writes a text run,
/// escaped as the writer sees fit.
#[verifier::external_body]
fn ser_text(s: &mut MarkupWriter, text: &str)
    requires
        depth_sum(ser_log(*old(s))) >= 0,
    ensures
        ser_log(*final(s)) == ser_log(*old(s)).push(TokenV::Text { text: text@ }),
{
    let _ = s.inner.write_text(text);
}

/// Relies on html5ever's `Serializer::write_comment`: writes a comment.
#[verifier::external_body]
fn ser_comment(s: &mut MarkupWriter, text: &str)
    ensures
        ser_log(*final(s)) == ser_log(*old(s)).push(TokenV::Comment { text: text@ }),
{
    let _ = s.inner.write_comment(text);
}

/// Relies on html5ever's `Serializer::write_doctype`: writes a doctype
/// by name.
#[verifier::external_body]
fn ser_doctype(s: &mut MarkupWriter, name: &str)
    ensures
        ser_log(*final(s)) == ser_log(*old(s)).push(TokenV::Doctype { name: name@ }),
{
    let _ = s.inner.write_doctype(name);
}

/// Relies on `String::from_utf8_lossy` over the writer's public byte
/// buffer: hands the accumulated markup back as text.
#[verifier::external_body]
fn ser_take(s: MarkupWriter) -> (r: String)
    ensures
        r@ == written_markup(ser_log(s)),
{
    String::from_utf8_lossy(&s.inner.writer).into_owned()
}

/// Feeds a balanced token stream through the external markup writer and
/// returns the text it produced.
pub fn render_tokens(tokens: &Vec<SerToken>) -> (r: String)
    requires
        balanced(token_views(tokens@)),
    ensures
        r@ == written_markup(token_views(tokens@)),
{
    let mut s = ser_new();
    let mut j: usize = 0;
    proof {
        assert(ser_log(s) =~= token_views(tokens@).take(0));
    }
    while j < tokens.len()
        invariant
            balanced(token_views(tokens@)),
            j <= tokens@.len(),
            ser_log(s) == token_views(tokens@).take(j as int),
        decreases tokens@.len() - j,
    {
        let ghost views = token_views(tokens@);
        proof {
            assert(depth_sum(views.take(j as int)) >= 0);
            assert(views.take(j as int + 1) =~= views.take(j as int).push(views[j as int]));
            assert(views.take(j as int + 1).drop_last() =~= views.take(j as int));
            if views[j as int] is End {
                assert(depth_sum(views.take(j as int + 1)) >= 0);
                assert(depth_sum(views.take(j as int + 1)) == depth_sum(views.take(j as int))
                    + tok_depth(views[j as int]));
                assert(depth_sum(views.take(j as int)) >= 1);
            }
        }
        match &tokens[j] {
            SerToken::Doctype { name } => {
                ser_doctype(&mut s, name.as_str());
            },
            SerToken::Comment { text } => {
                ser_comment(&mut s, text.as_str());
            },
            SerToken::Text { text } => {
                ser_text(&mut s, text.as_str());
            },
            SerToken::Start { name, attrs } => {
                ser_start(&mut s, name, attrs);
            },
            SerToken::End { name } => {
                ser_end(&mut s, name);
            },
        }
        proof {
            assert(ser_log(s) =~= views.take(j as int + 1));
        }
        j = j + 1;
    }
    proof {
        assert(token_views(tokens@).take(tokens@.len() as int) =~= token_views(tokens@));
    }
    ser_take(s)
}

/// The text payloads among a token stream, in order.
pub open spec fn text_parts(s: Seq<TokenV>) -> Seq<Seq<char>>
    decreases s.len(),
{
    if s.len() == 0 {
        Seq::empty()
    } else {
        let p = text_parts(s.drop_last());
        match s.last() {
            TokenV::Text { text } => p.push(text),
            _ => p,
        }
    }
}

impl crate::document::Document {
    /// Renders the subtree at the handle, the node itself included, as
    /// markup text through the external writer.  A stale handle renders
    /// as nothing.
    pub fn html(&self, node: crate::arena::NodeHandle) -> (r: String)
        requires
            self.wf(),
        ensures
            self.arena.ok(node) ==> r@ == written_markup(
                subtree_tokens(self.arena, node.idx as int),
            ),
            !self.arena.ok(node) ==> r@ == Seq::<char>::empty(),
    {
        if !self.arena.is_ok(node) {
            let r = String::new();
            proof {
                assert(r@ =~= Seq::<char>::empty());
            }
            return r;
        }
        let fuel = self.arena.slots.len();
        let toks = emit_subtree(&self.arena, node.idx, fuel);
        proof {
            lemma_tokens_balanced(self.arena, node.idx as int, fuel as nat);
        }
        render_tokens(&toks)
    }

    /// Renders only the descendants of the handle as markup text: the
    /// open and close edges of the node itself are suppressed.  A stale
    /// handle renders as nothing.
    pub fn inner_html(&self, node: crate::arena::NodeHandle) -> (r: String)
        requires
            self.wf(),
        ensures
            self.arena.ok(node) ==> r@ == written_markup(
                children_tokens(self.arena, node.idx as int),
            ),
            !self.arena.ok(node) ==> r@ == Seq::<char>::empty(),
    {
        if !self.arena.is_ok(node) {
            let r = String::new();
            proof {
                assert(r@ =~= Seq::<char>::empty());
            }
            return r;
        }
        let fuel = self.arena.slots.len();
        let nk = self.arena.slots[node.idx].children.len();
        let mut toks: Vec<SerToken> = Vec::new();
        let mut j: usize = 0;
        proof {
            assert(token_views(toks@) =~= forest_tokens(
                self.arena,
                self.arena.kids(node.idx as int).take(0),
                fuel as nat,
            ));
        }
        while j < nk
            invariant
                self.wf(),
                self.arena.ok(node),
                fuel == self.arena.n(),
                nk == self.arena.kids(node.idx as int).len(),
                j <= nk,
                token_views(toks@) == forest_tokens(
                    self.arena,
                    self.arena.kids(node.idx as int).take(j as int),
                    fuel as nat,
                ),
            decreases nk - j,
        {
            let c = self.arena.slots[node.idx].children[j];
            proof {
                assert(self.arena.kid_at(node.idx as int, j as int) == c as int);
                assert(self.arena.live(c as int));
            }
            let ghost prev_views = token_views(toks@);
            let mut sub = emit_subtree(&self.arena, c, fuel);
            toks.append(&mut sub);
            proof {
                assert(token_views(toks@) =~= prev_views + tokens_fuel(
                    self.arena,
                    c as int,
                    fuel as nat,
                ));
                assert(self.arena.kids(node.idx as int).take(j as int + 1) =~= self.arena.kids(
                    node.idx as int,
                ).take(j as int).push(c));
                lemma_forest_push(
                    self.arena,
                    self.arena.kids(node.idx as int).take(j as int),
                    c,
                    fuel as nat,
                );
            }
            j = j + 1;
        }
        proof {
            assert(self.arena.kids(node.idx as int).take(nk as int) =~= self.arena.kids(
                node.idx as int,
            ));
            lemma_forest_balanced(self.arena, self.arena.kids(node.idx as int), fuel as nat);
        }
        render_tokens(&toks)
    }

    /// The text runs of the subtree at the handle, in document order.
    pub fn text(&self, node: crate::arena::NodeHandle) -> (r: Vec<String>)
        requires
            self.wf(),
        ensures
            self.arena.ok(node) ==> crate::strutil::views_of(r@) == text_parts(
                subtree_tokens(self.arena, node.idx as int),
            ),
            !self.arena.ok(node) ==> r@.len() == 0,
    {
        let mut r: Vec<String> = Vec::new();
        if !self.arena.is_ok(node) {
            return r;
        }
        let fuel = self.arena.slots.len();
        let toks = emit_subtree(&self.arena, node.idx, fuel);
        let ghost views = token_views(toks@);
        let mut j: usize = 0;
        proof {
            assert(crate::strutil::views_of(r@) =~= text_parts(views.take(0)));
        }
        while j < toks.len()
            invariant
                j <= toks@.len(),
                views == token_views(toks@),
                crate::strutil::views_of(r@) == text_parts(views.take(j as int)),
            decreases toks@.len() - j,
        {
            let ghost prev = r@;
            proof {
                assert(views.take(j as int + 1).drop_last() =~= views.take(j as int));
                assert(views.take(j as int + 1).last() == views[j as int]);
            }
            match &toks[j] {
                SerToken::Text { text } => {
                    r.push(text.as_str().to_owned());
                    proof {
                        assert(crate::strutil::views_of(r@) =~= crate::strutil::views_of(
                            prev,
                        ).push(text@));
                    }
                },
                _ => {},
            }
            j = j + 1;
        }
        proof {
            assert(views.take(toks@.len() as int) =~= views);
        }
        r
    }
}

} // verus!
