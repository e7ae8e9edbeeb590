//! The grammar of status links and the mathematical meaning of rewriting.
use vstd::prelude::*;

verus! {

/// A site whose status links are mirrored.
#[derive(Clone, Copy, Debug, PartialEq, Eq, Structural)]
pub enum SourceHost {
    Twitter,
    X,
}

/// A letter, a digit or an underscore: what a user name is made of.
pub open spec fn is_name_char(c: char) -> bool {
    ('a' <= c && c <= 'z') || ('A' <= c && c <= 'Z') || ('0' <= c && c <= '9') || c == '_'
}

/// An ASCII digit: what a status id is made of.
pub open spec fn is_digit(c: char) -> bool {
    '0' <= c && c <= '9'
}

pub open spec fn in_class(c: char, digits: bool) -> bool {
    if digits {
        is_digit(c)
    } else {
        is_name_char(c)
    }
}

/// Length of the longest run of class members in `x` starting at `i`.
pub open spec fn run_len(x: Seq<char>, i: int, digits: bool) -> nat
    decreases x.len() - i,
{
    if 0 <= i < x.len() && in_class(x[i], digits) {
        1 + run_len(x, i + 1, digits)
    } else {
        0
    }
}

pub open spec fn scheme() -> Seq<char> {
    seq!['h', 't', 't', 'p', 's', ':', '/', '/']
}

/// The domain whose links are recognised.
pub open spec fn source_domain(h: SourceHost) -> Seq<char> {
    match h {
        SourceHost::Twitter => seq!['t', 'w', 'i', 't', 't', 'e', 'r', '.', 'c', 'o', 'm'],
        SourceHost::X => seq!['x', '.', 'c', 'o', 'm'],
    }
}

/// The mirror domain that a recognised domain maps to.
pub open spec fn mirror_domain(h: SourceHost) -> Seq<char> {
    match h {
        SourceHost::Twitter => seq!['f', 'x', 't', 'w', 'i', 't', 't', 'e', 'r', '.', 'c', 'o', 'm'],
        SourceHost::X => seq!['f', 'i', 'x', 'u', 'p', 'x', '.', 'c', 'o', 'm'],
    }
}

/// `https://<domain>/`: the text that marks a candidate link.
pub open spec fn source_prefix(h: SourceHost) -> Seq<char> {
    scheme() + source_domain(h) + seq!['/']
}

pub open spec fn status_infix() -> Seq<char> {
    seq!['/', 's', 't', 'a', 't', 'u', 's', '/']
}

/// `https://<domain>/<user>/status/<id>`.
pub open spec fn link_text(h: SourceHost, user: Seq<char>, id: Seq<char>) -> Seq<char> {
    source_prefix(h) + user + status_infix() + id
}

/// `https://<mirror domain>/<user>/status/<id>`.
pub open spec fn mirror_text(h: SourceHost, user: Seq<char>, id: Seq<char>) -> Seq<char> {
    scheme() + mirror_domain(h) + seq!['/'] + user + status_infix() + id
}

/// `p` occurs in `x` at position `i`.
pub open spec fn matches_at(x: Seq<char>, i: int, p: Seq<char>) -> bool {
    0 <= i && i + p.len() <= x.len() && x.subrange(i, i + p.len()) == p
}

pub open spec fn host_at_start(x: Seq<char>) -> Option<SourceHost> {
    if matches_at(x, 0, source_prefix(SourceHost::Twitter)) {
        Some(SourceHost::Twitter)
    } else if matches_at(x, 0, source_prefix(SourceHost::X)) {
        Some(SourceHost::X)
    } else {
        None
    }
}

/// The status link that starts at the beginning of `x`, if one does: its
/// host, user name and id. User name and id are taken as long as they go.
pub open spec fn parse_link(x: Seq<char>) -> Option<(SourceHost, Seq<char>, Seq<char>)> {
    match host_at_start(x) {
        None => None,
        Some(h) => {
            let a = source_prefix(h).len() as int;
            let b = a + run_len(x, a, false);
            let d = run_len(x, b + 8, true);
            if b > a && matches_at(x, b, status_infix()) && d > 0 {
                Some((h, x.subrange(a, b), x.subrange(b + 8, b + 8 + d)))
            } else {
                None
            }
        },
    }
}

/// `s` holds `https://twitter.com/` or `https://x.com/` somewhere: only
/// then can it hold a status link.
pub open spec fn has_trigger(s: Seq<char>) -> bool {
    exists|j: int|
        matches_at(s, j, source_prefix(SourceHost::Twitter)) || matches_at(
            s,
            j,
            source_prefix(SourceHost::X),
        )
}

/// The status link that starts at position `i` of `s`, if one does.
pub open spec fn link_at(s: Seq<char>, i: int) -> Option<(SourceHost, Seq<char>, Seq<char>)> {
    parse_link(s.subrange(i, s.len() as int))
}

pub open spec fn link_len(l: (SourceHost, Seq<char>, Seq<char>)) -> int {
    link_text(l.0, l.1, l.2).len() as int
}

/// Rewrites `s` from position `i` on: scanning left to right, each status
/// link that starts at the current position is replaced by its mirror and
/// the scan goes on after it; any other character is kept.
pub open spec fn rewrite_from(s: Seq<char>, i: int) -> Seq<char>
    decreases (if i < s.len() { s.len() - i } else { 0 }) via rewrite_from_decreases
{
    if i < 0 || i >= s.len() {
        seq![]
    } else {
        match link_at(s, i) {
            Some(l) => mirror_text(l.0, l.1, l.2) + rewrite_from(s, i + link_len(l)),
            None => seq![s[i]] + rewrite_from(s, i + 1),
        }
    }
}

#[via_fn]
proof fn rewrite_from_decreases(s: Seq<char>, i: int) {
    if 0 <= i < s.len() {
        if let Some(l) = link_at(s, i) {
            let t = link_text(l.0, l.1, l.2);
            assert(scheme().len() == 8);
            assert(source_prefix(l.0).len() >= 8);
            assert(t.len() >= source_prefix(l.0).len());
        }
    }
}

/// `s` with every status link replaced by its mirror, found leftmost first
/// and without overlap.
pub open spec fn rewrite_links(s: Seq<char>) -> Seq<char> {
    rewrite_from(s, 0)
}


/// The parts of a link are well formed: a non-empty user name of name
/// characters and a non-empty id of digits.
pub open spec fn wf_link(l: (SourceHost, Seq<char>, Seq<char>)) -> bool {
    &&& l.1.len() > 0
    &&& forall|k: int| 0 <= k < l.1.len() ==> is_name_char(#[trigger] l.1[k])
    &&& l.2.len() > 0
    &&& forall|k: int| 0 <= k < l.2.len() ==> is_digit(#[trigger] l.2[k])
}

pub proof fn lemma_run_facts(x: Seq<char>, i: int, digits: bool)
    requires
        0 <= i <= x.len(),
    ensures
        i + run_len(x, i, digits) <= x.len(),
        forall|k: int| i <= k < i + run_len(x, i, digits) ==> in_class(#[trigger] x[k], digits),
        i + run_len(x, i, digits) == x.len() || !in_class(x[i + run_len(x, i, digits)], digits),
    decreases x.len() - i,
{
    if i < x.len() && in_class(x[i], digits) {
        lemma_run_facts(x, i + 1, digits);
    }
}

pub proof fn lemma_run_exact(x: Seq<char>, i: int, n: int, digits: bool)
    requires
        0 <= i,
        0 <= n,
        i + n <= x.len(),
        forall|k: int| i <= k < i + n ==> in_class(#[trigger] x[k], digits),
        i + n == x.len() || !in_class(x[i + n], digits),
    ensures
        run_len(x, i, digits) == n,
    decreases n,
{
    if n > 0 {
        lemma_run_exact(x, i + 1, n - 1, digits);
    }
}

/// A parsed link is well formed, is what the text starts with, and is not
/// followed by a digit.
pub proof fn lemma_parse_sound(x: Seq<char>)
    requires
        parse_link(x) is Some,
    ensures
        wf_link(parse_link(x)->Some_0),
        link_len(parse_link(x)->Some_0) <= x.len(),
        x.subrange(0, link_len(parse_link(x)->Some_0)) == link_text(
            parse_link(x)->Some_0.0,
            parse_link(x)->Some_0.1,
            parse_link(x)->Some_0.2,
        ),
        link_len(parse_link(x)->Some_0) == x.len() || !is_digit(
            x[link_len(parse_link(x)->Some_0)],
        ),
{
    let h = host_at_start(x)->Some_0;
    let a = source_prefix(h).len() as int;
    lemma_run_facts(x, a, false);
    let b = a + run_len(x, a, false);
    lemma_run_facts(x, b + 8, true);
    let e = b + 8 + run_len(x, b + 8, true);
    let l = parse_link(x)->Some_0;
    assert(source_prefix(h).len() == a);
    assert(x.subrange(0, a) == source_prefix(h));
    assert(x.subrange(b, b + 8) == status_infix());
    assert(link_len(l) == e);
    assert(x.subrange(0, e) =~= x.subrange(0, a) + x.subrange(a, b) + x.subrange(b, b + 8)
        + x.subrange(b + 8, e));
}

/// Text that starts with a well formed link not followed by a digit parses
/// as that link.
pub proof fn lemma_parse_complete(y: Seq<char>, l: (SourceHost, Seq<char>, Seq<char>))
    requires
        wf_link(l),
        link_len(l) <= y.len(),
        y.subrange(0, link_len(l)) == link_text(l.0, l.1, l.2),
        link_len(l) == y.len() || !is_digit(y[link_len(l)]),
    ensures
        parse_link(y) == Some(l),
{
    let t = link_text(l.0, l.1, l.2);
    let a = source_prefix(l.0).len() as int;
    let b = a + l.1.len();
    let e = link_len(l);
    assert(t.subrange(0, a) =~= source_prefix(l.0));
    assert(y.subrange(0, a) =~= t.subrange(0, a));
    assert(y[8] == t[8]);
    assert(host_at_start(y) == Some(l.0));
    assert forall|k: int| a <= k < b implies in_class(#[trigger] y[k], false) by {
        assert(y[k] == t[k]);
        assert(t[k] == l.1[k - a]);
    }
    assert(y[b] == t[b]);
    lemma_run_exact(y, a, l.1.len() as int, false);
    assert forall|k: int| b + 8 <= k < e implies in_class(#[trigger] y[k], true) by {
        assert(y[k] == t[k]);
        assert(t[k] == l.2[k - b - 8]);
    }
    lemma_run_exact(y, b + 8, l.2.len() as int, true);
    assert(y.subrange(b, b + 8) =~= t.subrange(b, b + 8));
    assert(t.subrange(b, b + 8) =~= status_infix());
    assert forall|k: int| 0 <= k < l.1.len() implies #[trigger] y.subrange(a, b)[k] == l.1[k] by {
        assert(y[a + k] == t[a + k]);
    }
    assert(y.subrange(a, b) =~= l.1);
    assert forall|k: int| 0 <= k < l.2.len() implies #[trigger] y.subrange(b + 8, e)[k] == l.2[k] by {
        assert(y[b + 8 + k] == t[b + 8 + k]);
    }
    assert(y.subrange(b + 8, e) =~= l.2);
}


/// A character with Unicode's White_Space property: what separates words.
pub open spec fn is_space(c: char) -> bool {
    ('\u{9}' <= c && c <= '\u{d}') || c == ' ' || c == '\u{85}' || c == '\u{a0}' || c == '\u{1680}'
        || ('\u{2000}' <= c && c <= '\u{200a}') || c == '\u{2028}' || c == '\u{2029}' || c
        == '\u{202f}' || c == '\u{205f}' || c == '\u{3000}'
}

/// A character that can stand in a link after its scheme.
pub open spec fn is_path_char(c: char) -> bool {
    is_name_char(c) || c == '.' || c == '/'
}

pub proof fn lemma_link_text_chars(l: (SourceHost, Seq<char>, Seq<char>))
    requires
        wf_link(l),
    ensures
        link_text(l.0, l.1, l.2).subrange(0, 8) == scheme(),
        forall|j: int|
            8 <= j < link_len(l) ==> is_path_char(#[trigger] link_text(l.0, l.1, l.2)[j]),
        is_digit(link_text(l.0, l.1, l.2)[link_len(l) - 1]),
        link_len(l) > 8,
        link_text(l.0, l.1, l.2)[8] == 't' || link_text(l.0, l.1, l.2)[8] == 'x',
{
    let t = link_text(l.0, l.1, l.2);
    let p = source_prefix(l.0);
    let a = p.len() as int;
    let b = a + l.1.len();
    assert(t.subrange(0, 8) =~= scheme());
    assert forall|j: int| 8 <= j < link_len(l) implies is_path_char(#[trigger] t[j]) by {
        if j < a {
            assert(t[j] == p[j]);
        } else if j < b {
            assert(t[j] == l.1[j - a]);
        } else if j < b + 8 {
            assert(t[j] == status_infix()[j - b]);
        } else {
            assert(t[j] == l.2[j - b - 8]);
        }
    }
    assert(t[link_len(l) - 1] == l.2[l.2.len() - 1]);
    assert(t[8] == p[8]);
}

pub proof fn lemma_mirror_text_chars(l: (SourceHost, Seq<char>, Seq<char>))
    requires
        wf_link(l),
    ensures
        mirror_text(l.0, l.1, l.2).subrange(0, 8) == scheme(),
        mirror_text(l.0, l.1, l.2)[8] == 'f',
        forall|j: int|
            8 <= j < mirror_text(l.0, l.1, l.2).len() ==> is_path_char(
                #[trigger] mirror_text(l.0, l.1, l.2)[j],
            ),
        is_digit(mirror_text(l.0, l.1, l.2).last()),
        mirror_text(l.0, l.1, l.2).len() > 8,
{
    let t = mirror_text(l.0, l.1, l.2);
    let p = scheme() + mirror_domain(l.0) + seq!['/'];
    let a = p.len() as int;
    let b = a + l.1.len();
    assert(t.subrange(0, 8) =~= scheme());
    assert forall|j: int| 8 <= j < t.len() implies is_path_char(#[trigger] t[j]) by {
        if j < a {
            assert(t[j] == p[j]);
        } else if j < b {
            assert(t[j] == l.1[j - a]);
        } else if j < b + 8 {
            assert(t[j] == status_infix()[j - b]);
        } else {
            assert(t[j] == l.2[j - b - 8]);
        }
    }
    assert(t.last() == l.2[l.2.len() - 1]);
}

} // verus!
