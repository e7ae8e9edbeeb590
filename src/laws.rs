//! What holds of rewriting on every text.
use vstd::prelude::*;
use crate::status_link::{
    has_trigger, host_at_start, link_at, matches_at, rewrite_links, source_prefix,
};
use crate::scan::{lemma_identity, lemma_no_links_in_rewrite};
use crate::words::{lemma_apply_fixed, lemma_word_trigger, rewrite_message, words};

verus! {

/// Rewriting the status links of text that holds neither
/// `https://twitter.com/` nor `https://x.com/` leaves it as it is.
pub proof fn law_no_trigger_unchanged(s: Seq<char>)
    requires
        !has_trigger(s),
    ensures
        rewrite_links(s) == s,
{
    assert forall|j: int| 0 <= j < s.len() implies #[trigger] link_at(s, j) is None by {
        let xs = s.subrange(j, s.len() as int);
        if let Some(h) = host_at_start(xs) {
            let p = source_prefix(h);
            assert(xs.subrange(0, p.len() as int) =~= s.subrange(j, j + p.len()));
            assert(matches_at(s, j, p));
        }
    }
    lemma_identity(s, 0);
    assert(s.subrange(0, s.len() as int) =~= s);
}

/// Rewriting the status links of a text twice gives what rewriting once
/// gives: no mirror link is taken for a status link, and no status link is
/// made where the parts meet.
pub proof fn law_convert_idempotent(s: Seq<char>)
    ensures
        rewrite_links(rewrite_links(s)) == rewrite_links(s),
{
    let r = rewrite_links(s);
    lemma_no_links_in_rewrite(s, 0);
    lemma_identity(r, 0);
    assert(r.subrange(0, r.len() as int) =~= r);
}

/// A message that holds neither `https://twitter.com/` nor `https://x.com/`
/// is left exactly as it is.
pub proof fn law_message_without_trigger_unchanged(s: Seq<char>)
    requires
        !has_trigger(s),
    ensures
        rewrite_message(s) == s,
{
    lemma_word_trigger(s, 0);
    lemma_apply_fixed(s, words(s), words(s).len() as int);
}

/// An already rewritten message, one whose every word that holds a trigger
/// is the result of rewriting some text (as a mirror link, or a link that
/// is no status link, is), is left exactly as it is.
pub proof fn law_rewritten_message_unchanged(y: Seq<char>)
    requires
        forall|j: int|
            0 <= j < words(y).len() && has_trigger(#[trigger] words(y)[j]) ==> exists|v: Seq<char>|
                words(y)[j] == rewrite_links(v),
    ensures
        rewrite_message(y) == y,
{
    let ws = words(y);
    assert forall|j: int|
        0 <= j < ws.len() && has_trigger(#[trigger] ws[j]) implies rewrite_links(ws[j]) == ws[j] by {
        let v = choose|v: Seq<char>| ws[j] == rewrite_links(v);
        law_convert_idempotent(v);
    }
    lemma_apply_fixed(y, ws, ws.len() as int);
}

} // verus!
