//! How the left-to-right scan of `rewrite_from` behaves: where it copies,
//! and what it leaves behind.
use vstd::prelude::*;
use crate::status_link::{
    is_digit, is_path_char, lemma_link_text_chars, lemma_mirror_text_chars,
    lemma_parse_complete, lemma_parse_sound, link_at, link_len, link_text, mirror_text, parse_link,
    rewrite_from, scheme, wf_link, SourceHost,
};

verus! {

pub proof fn lemma_link_at_sound(s: Seq<char>, i: int)
    requires
        0 <= i <= s.len(),
        link_at(s, i) is Some,
    ensures
        wf_link(link_at(s, i)->Some_0),
        i + link_len(link_at(s, i)->Some_0) <= s.len(),
        s.subrange(i, i + link_len(link_at(s, i)->Some_0)) == link_text(
            link_at(s, i)->Some_0.0,
            link_at(s, i)->Some_0.1,
            link_at(s, i)->Some_0.2,
        ),
        i + link_len(link_at(s, i)->Some_0) == s.len() || !is_digit(
            s[i + link_len(link_at(s, i)->Some_0)],
        ),
{
    let x = s.subrange(i, s.len() as int);
    lemma_parse_sound(x);
    let n = link_len(link_at(s, i)->Some_0);
    assert(s.subrange(i, i + n) =~= x.subrange(0, n));
    if i + n < s.len() {
        assert(s[i + n] == x[n]);
    }
}

/// Where no link starts, the scan copies.
pub proof fn lemma_copy_prefix(s: Seq<char>, i: int, k: int)
    requires
        0 <= i <= k <= s.len(),
        forall|p: int| i <= p < k ==> #[trigger] link_at(s, p) is None,
    ensures
        rewrite_from(s, i) == s.subrange(i, k) + rewrite_from(s, k),
    decreases k - i,
{
    if i < k {
        lemma_copy_prefix(s, i + 1, k);
        assert(s.subrange(i, k) =~= seq![s[i]] + s.subrange(i + 1, k));
    } else {
        assert(s.subrange(i, k) =~= Seq::<char>::empty());
    }
}

/// Text in which no link starts is left as it is.
pub proof fn lemma_identity(x: Seq<char>, i: int)
    requires
        0 <= i <= x.len(),
        forall|j: int| i <= j < x.len() ==> #[trigger] link_at(x, j) is None,
    ensures
        rewrite_from(x, i) == x.subrange(i, x.len() as int),
{
    lemma_copy_prefix(x, i, x.len() as int);
    assert(x.subrange(i, x.len() as int) + Seq::<char>::empty() =~= x.subrange(i, x.len() as int));
}

pub proof fn lemma_first_link(s: Seq<char>, a: int, b: int) -> (p: int)
    requires
        0 <= a <= b <= s.len(),
        exists|p: int| a <= p < b && #[trigger] link_at(s, p) is Some,
    ensures
        a <= p < b,
        link_at(s, p) is Some,
        forall|q: int| a <= q < p ==> #[trigger] link_at(s, q) is None,
    decreases b - a,
{
    if link_at(s, a) is Some {
        a
    } else {
        lemma_first_link(s, a + 1, b)
    }
}

/// Starts with the scheme, goes on with path characters, ends in a digit:
/// what both a link and its mirror look like.
pub open spec fn url_shaped(w: Seq<char>) -> bool {
    &&& w.len() > 8
    &&& w.subrange(0, 8) == scheme()
    &&& forall|j: int| 8 <= j < w.len() ==> is_path_char(#[trigger] w[j])
    &&& is_digit(w.last())
}

pub proof fn lemma_shapes(l: (SourceHost, Seq<char>, Seq<char>))
    requires
        wf_link(l),
    ensures
        url_shaped(link_text(l.0, l.1, l.2)),
        url_shaped(mirror_text(l.0, l.1, l.2)),
{
    lemma_link_text_chars(l);
    lemma_mirror_text_chars(l);
    let t = link_text(l.0, l.1, l.2);
    assert(t.last() == t[link_len(l) - 1]);
}

/// No later position of a url-shaped text starts with `https:`: the
/// returned offset is one where the text and the scheme differ.
pub proof fn lemma_no_scheme_inside(w: Seq<char>, q: int) -> (k: int)
    requires
        url_shaped(w),
        1 <= q < w.len(),
    ensures
        0 <= k < 6,
        q + k < w.len(),
        w[q + k] != scheme()[k],
{
    if q + 5 < w.len() {
        if q + 5 < 8 {
            assert(w.subrange(0, 8)[q + 5] == w[q + 5]);
        }
        5
    } else {
        w.len() - 1 - q
    }
}

/// Where `x` begins with the url-shaped `w`, `x` holds `w` up to its length.
pub proof fn lemma_begins_with(x: Seq<char>, w: Seq<char>, j: int)
    requires
        w.len() <= x.len(),
        x.subrange(0, w.len() as int) == w,
        0 <= j < w.len(),
    ensures
        x[j] == w[j],
{
    assert(x.subrange(0, w.len() as int)[j] == x[j]);
}

/// A link at the start of `x`, which holds position `i` of `s` and then the
/// scan from `i + 1`, where the scan copies for as long as the link lasts,
/// is a link at position `i` of `s`.
proof fn lemma_before_copied(s: Seq<char>, i: int, k: int)
    requires
        0 <= i < s.len(),
        parse_link(seq![s[i]] + rewrite_from(s, i + 1)) is Some,
        k == if i + link_len(parse_link(seq![s[i]] + rewrite_from(s, i + 1))->Some_0) + 1
            < s.len() {
            i + link_len(parse_link(seq![s[i]] + rewrite_from(s, i + 1))->Some_0) + 1
        } else {
            s.len() as int
        },
        forall|p: int| i + 1 <= p < k ==> #[trigger] link_at(s, p) is None,
    ensures
        link_at(s, i) is Some,
{
    let x = seq![s[i]] + rewrite_from(s, i + 1);
    let y = s.subrange(i, s.len() as int);
    let l = parse_link(x)->Some_0;
    lemma_parse_sound(x);
    let n = link_len(l);
    lemma_copy_prefix(s, i + 1, k);
    assert(x =~= s.subrange(i, k) + rewrite_from(s, k));
    if k == s.len() {
        assert(x =~= y);
    } else {
        assert(y.subrange(0, n) =~= x.subrange(0, n));
        assert(y[n] == x[n]);
        lemma_parse_complete(y, l);
    }
}

/// Where a link starts, both the text and the scan's result start with the
/// scheme.
proof fn lemma_scan_at_link(s: Seq<char>, p: int)
    requires
        0 <= p < s.len(),
        link_at(s, p) is Some,
    ensures
        s[p] == 'h',
        rewrite_from(s, p).len() > 8,
        rewrite_from(s, p).subrange(0, 8) == scheme(),
{
    let m = link_at(s, p)->Some_0;
    lemma_link_at_sound(s, p);
    lemma_shapes(m);
    let mt = mirror_text(m.0, m.1, m.2);
    let z = rewrite_from(s, p);
    assert(z == mt + rewrite_from(s, p + link_len(m)));
    assert(z.subrange(0, 8) =~= mt.subrange(0, 8));
    let tm = link_text(m.0, m.1, m.2);
    assert(s.subrange(p, p + link_len(m))[0] == s[p]);
    lemma_begins_with(tm, scheme(), 0);
}

/// As above, where the scan meets a link at `p` before the end of the
/// link at the start of `x` has been passed.
proof fn lemma_before_mirror(s: Seq<char>, i: int, p: int)
    requires
        0 <= i < p < s.len(),
        parse_link(seq![s[i]] + rewrite_from(s, i + 1)) is Some,
        p <= i + link_len(parse_link(seq![s[i]] + rewrite_from(s, i + 1))->Some_0),
        link_at(s, p) is Some,
        forall|q: int| i + 1 <= q < p ==> #[trigger] link_at(s, q) is None,
    ensures
        link_at(s, i) is Some,
{
    let x = seq![s[i]] + rewrite_from(s, i + 1);
    let y = s.subrange(i, s.len() as int);
    let l = parse_link(x)->Some_0;
    lemma_parse_sound(x);
    let n = link_len(l);
    let t = link_text(l.0, l.1, l.2);
    lemma_copy_prefix(s, i + 1, p);
    lemma_scan_at_link(s, p);
    let z = rewrite_from(s, p);
    assert(x =~= s.subrange(i, p) + z);
    let q = p - i;
    lemma_shapes(l);
    if q < n {
        let k2 = lemma_no_scheme_inside(t, q);
        lemma_begins_with(x, t, q + k2);
        assert(x[q + k2] == z[k2]);
        lemma_begins_with(z, scheme(), k2);
    } else {
        assert(y.subrange(0, n) =~= x.subrange(0, n));
        assert(y[n] == s[p]);
        lemma_parse_complete(y, l);
    }
}

/// A character that the scan copied starts no link in the result.
pub proof fn lemma_no_link_before(s: Seq<char>, i: int)
    requires
        0 <= i < s.len(),
        link_at(s, i) is None,
    ensures
        parse_link(seq![s[i]] + rewrite_from(s, i + 1)) is None,
{
    let x = seq![s[i]] + rewrite_from(s, i + 1);
    if let Some(l) = parse_link(x) {
        let n = link_len(l);
        let k = if i + n + 1 < s.len() { i + n + 1 } else { s.len() as int };
        if forall|p: int| i + 1 <= p < k ==> #[trigger] link_at(s, p) is None {
            lemma_before_copied(s, i, k);
        } else {
            let p = lemma_first_link(s, i + 1, k);
            lemma_before_mirror(s, i, p);
        }
    }
}

/// No link starts inside the mirror that the scan wrote.
pub proof fn lemma_no_link_in_mirror(
    l: (SourceHost, Seq<char>, Seq<char>),
    rest: Seq<char>,
    j: int,
)
    requires
        wf_link(l),
        0 <= j < mirror_text(l.0, l.1, l.2).len(),
    ensures
        link_at(mirror_text(l.0, l.1, l.2) + rest, j) is None,
{
    let mt = mirror_text(l.0, l.1, l.2);
    let r = mt + rest;
    let xs = r.subrange(j, r.len() as int);
    if let Some(l2) = parse_link(xs) {
        lemma_shapes(l);
        lemma_parse_sound(xs);
        lemma_shapes(l2);
        lemma_link_text_chars(l2);
        let t2 = link_text(l2.0, l2.1, l2.2);
        if j == 0 {
            lemma_begins_with(xs, t2, 8);
            assert(xs[8] == mt[8]);
        } else {
            let k = lemma_no_scheme_inside(mt, j);
            assert(xs[k] == mt[j + k]);
            lemma_begins_with(xs, t2, k);
            lemma_begins_with(t2, scheme(), k);
        }
    }
}

/// No link starts anywhere in the result of a scan.
pub proof fn lemma_no_links_in_rewrite(s: Seq<char>, i: int)
    requires
        0 <= i,
    ensures
        forall|j: int|
            0 <= j < rewrite_from(s, i).len() ==> #[trigger] link_at(rewrite_from(s, i), j) is None,
    decreases s.len() - i,
{
    let r = rewrite_from(s, i);
    if i < s.len() {
        match link_at(s, i) {
            Some(l) => {
                lemma_link_at_sound(s, i);
                lemma_link_text_chars(l);
                lemma_mirror_text_chars(l);
                let mt = mirror_text(l.0, l.1, l.2);
                let rest = rewrite_from(s, i + link_len(l));
                lemma_no_links_in_rewrite(s, i + link_len(l));
                assert forall|j: int| 0 <= j < r.len() implies #[trigger] link_at(r, j) is None by {
                    if j >= mt.len() {
                        assert(r.subrange(j, r.len() as int) =~= rest.subrange(j - mt.len(), rest.len() as int));
                        assert(link_at(rest, j - mt.len()) is None);
                    } else {
                        lemma_no_link_in_mirror(l, rest, j);
                    }
                }
            },
            None => {
                lemma_no_links_in_rewrite(s, i + 1);
                lemma_no_link_before(s, i);
                let rest = rewrite_from(s, i + 1);
                assert forall|j: int| 0 <= j < r.len() implies #[trigger] link_at(r, j) is None by {
                    if j == 0 {
                        assert(r.subrange(0, r.len() as int) =~= r);
                    } else {
                        assert(r.subrange(j, r.len() as int) =~= rest.subrange(j - 1, rest.len() as int));
                        assert(link_at(rest, j - 1) is None);
                    }
                }
            },
        }
    }
}

} // verus!
