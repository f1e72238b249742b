//! Small verified helpers on characters, words and strings.

use vstd::prelude::*;
use vstd::std_specs::iter::IteratorSpec;

verus! {

broadcast use vstd::string::group_string_axioms;

/// ASCII whitespace: the separators recognised between class words.
/// This is the set HTML itself defines for space-separated tokens such
/// as class lists; a character that is whitespace only outside ASCII
/// belongs to a word.
pub open spec fn is_space(c: char) -> bool {
    c == ' ' || c == '\t' || c == '\n' || c == '\r' || c == '\x0C'
}

fn is_space_exec(c: char) -> (r: bool)
    ensures
        r == is_space(c),
{
    c == ' ' || c == '\t' || c == '\n' || c == '\r' || c == '\x0C'
}

/// The words of `s`, given a word `cur` already in progress.
pub open spec fn split_ws_acc(s: Seq<char>, cur: Seq<char>) -> Seq<Seq<char>>
    decreases s.len(),
{
    if s.len() == 0 {
        if cur.len() == 0 {
            Seq::empty()
        } else {
            seq![cur]
        }
    } else if is_space(s[0]) {
        if cur.len() == 0 {
            split_ws_acc(s.drop_first(), Seq::empty())
        } else {
            seq![cur] + split_ws_acc(s.drop_first(), Seq::empty())
        }
    } else {
        split_ws_acc(s.drop_first(), cur.push(s[0]))
    }
}

/// The maximal runs of non-space characters of `s`, in order.
pub open spec fn split_ws(s: Seq<char>) -> Seq<Seq<char>> {
    split_ws_acc(s, Seq::empty())
}

/// The views of the strings in `v`.
pub open spec fn views_of(v: Seq<String>) -> Seq<Seq<char>> {
    v.map_values(|w: String| w@)
}

/// Relies on `String::push`: appends one character at the end.
#[verifier::external_body]
fn push_char(s: &mut String, c: char)
    ensures
        final(s)@ == old(s)@.push(c),
{
    s.push(c);
}

/// Splits `s` at ASCII whitespace into its words.
pub fn split_whitespace_words(s: &str) -> (words: Vec<String>)
    ensures
        views_of(words@) == split_ws(s@),
{
    let mut words: Vec<String> = Vec::new();
    let mut cur = String::new();
    let mut it = s.chars();
    proof {
        assert(views_of(words@) =~= Seq::<Seq<char>>::empty());
        assert(views_of(words@) + split_ws_acc(it.remaining(), cur@) =~= split_ws(s@));
    }
    loop
        invariant
            views_of(words@) + split_ws_acc(it.remaining(), cur@) == split_ws(s@),
            it.obeys_prophetic_iter_laws(),
            it.decrease() is Some,
        decreases it.decrease()->0,
    {
        let ghost prev_remaining = it.remaining();
        let ghost prev_words = words@;
        let ghost prev_cur = cur@;
        let next = it.next();
        match next {
            None => {
                if !cur.as_str().is_empty() {
                    proof {
                        assert(split_ws_acc(prev_remaining, prev_cur) =~= seq![prev_cur]);
                        assert(views_of(prev_words.push(cur)) =~= views_of(prev_words) + seq![
                            prev_cur,
                        ]);
                    }
                    words.push(cur);
                }
                proof {
                    if prev_cur.len() == 0 {
                        assert(split_ws_acc(prev_remaining, prev_cur)
                            =~= Seq::<Seq<char>>::empty());
                        assert(views_of(words@) =~= views_of(words@) + Seq::<
                            Seq<char>,
                        >::empty());
                    }
                }
                return words;
            },
            Some(c) => {
                proof {
                    assert(prev_remaining.len() > 0);
                    assert(c == prev_remaining[0]);
                    assert(it.remaining() == prev_remaining.drop_first());
                }
                if is_space_exec(c) {
                    if !cur.as_str().is_empty() {
                        proof {
                            assert(split_ws_acc(prev_remaining, prev_cur) =~= seq![prev_cur]
                                + split_ws_acc(prev_remaining.drop_first(), Seq::empty()));
                            assert(views_of(prev_words.push(cur)) =~= views_of(prev_words)
                                + seq![prev_cur]);
                        }
                        words.push(cur);
                        cur = String::new();
                        proof {
                            assert(views_of(words@) + split_ws_acc(it.remaining(), cur@)
                                =~= split_ws(s@));
                        }
                    } else {
                        proof {
                            assert(prev_cur =~= Seq::<char>::empty());
                            assert(split_ws_acc(prev_remaining, prev_cur) == split_ws_acc(
                                it.remaining(),
                                cur@,
                            ));
                        }
                    }
                } else {
                    push_char(&mut cur, c);
                    proof {
                        assert(split_ws_acc(prev_remaining, prev_cur) == split_ws_acc(
                            it.remaining(),
                            prev_cur.push(c),
                        ));
                    }
                }
            },
        }
    }
}

/// The characters of `s` as a vector.
pub fn str_chars(s: &str) -> (v: Vec<char>)
    ensures
        v@ == s@,
{
    let mut v: Vec<char> = Vec::new();
    let mut it = s.chars();
    proof {
        assert(v@ + it.remaining() =~= s@);
    }
    loop
        invariant
            v@ + it.remaining() == s@,
            it.obeys_prophetic_iter_laws(),
            it.decrease() is Some,
        decreases it.decrease()->0,
    {
        let ghost prev_remaining = it.remaining();
        let next = it.next();
        match next {
            None => {
                proof {
                    assert(v@ =~= v@ + prev_remaining);
                }
                return v;
            },
            Some(c) => {
                v.push(c);
                proof {
                    assert(v@ + it.remaining() =~= s@);
                }
            },
        }
    }
}

/// Two characters that match when ASCII letters are compared without case.
pub open spec fn eq_ci_char(a: char, b: char) -> bool {
    a == b || ('A' as int <= a as int <= 'Z' as int && b as int == a as int + 32) || ('A' as int
        <= b as int <= 'Z' as int && a as int == b as int + 32)
}

/// Character sequences equal up to ASCII case.
pub open spec fn seq_eq_ci(a: Seq<char>, b: Seq<char>) -> bool {
    a.len() == b.len() && (forall|i: int| 0 <= i < a.len() ==> eq_ci_char(a[i], b[i]))
}

fn eq_ci_char_exec(a: char, b: char) -> (r: bool)
    ensures
        r == eq_ci_char(a, b),
{
    let x = a as u32;
    let y = b as u32;
    x == y || (65 <= x && x <= 90 && y == x + 32) || (65 <= y && y <= 90 && x == y + 32)
}

/// Compares two strings, either exactly or ignoring ASCII case.
pub fn str_eq_ci(a: &str, b: &str) -> (r: bool)
    ensures
        r == seq_eq_ci(a@, b@),
{
    let av = str_chars(a);
    let bv = str_chars(b);
    if av.len() != bv.len() {
        return false;
    }
    let n = av.len();
    let mut i: usize = 0;
    while i < n
        invariant
            n == av.len() == bv.len(),
            av@ == a@,
            bv@ == b@,
            i <= n,
            forall|j: int| 0 <= j < i ==> eq_ci_char(a@[j], b@[j]),
        decreases n - i,
    {
        if !eq_ci_char_exec(av[i], bv[i]) {
            return false;
        }
        i = i + 1;
    }
    true
}

/// Compares two strings character by character.
pub fn str_eq(a: &str, b: &str) -> (r: bool)
    ensures
        r == (a@ == b@),
{
    let av = str_chars(a);
    let bv = str_chars(b);
    if av.len() != bv.len() {
        return false;
    }
    let n = av.len();
    let mut i: usize = 0;
    while i < n
        invariant
            n == av.len() == bv.len(),
            av@ == a@,
            bv@ == b@,
            i <= n,
            forall|j: int| 0 <= j < i ==> a@[j] == b@[j],
        decreases n - i,
    {
        if av[i] != bv[i] {
            return false;
        }
        i = i + 1;
    }
    proof {
        assert(a@ =~= b@);
    }
    true
}

/// Whether some string in `v` has exactly the view `x`.
pub fn contains_string(v: &Vec<String>, x: &str) -> (r: bool)
    ensures
        r == views_of(v@).contains(x@),
{
    let mut i: usize = 0;
    while i < v.len()
        invariant
            i <= v.len(),
            forall|j: int| 0 <= j < i ==> views_of(v@)[j] != x@,
        decreases v.len() - i,
    {
        if str_eq(v[i].as_str(), x) {
            proof {
                assert(views_of(v@)[i as int] == x@);
            }
            return true;
        }
        i = i + 1;
    }
    false
}

/// `s` with later repetitions of an entry removed: each entry keeps its
/// first position.
pub open spec fn dedup_first(s: Seq<Seq<char>>) -> Seq<Seq<char>>
    decreases s.len(),
{
    if s.len() == 0 {
        Seq::empty()
    } else {
        let prev = dedup_first(s.drop_last());
        if prev.contains(s.last()) {
            prev
        } else {
            prev.push(s.last())
        }
    }
}

} // verus!
