//! What a message becomes: each word that holds a trigger is rewritten,
//! and every occurrence of it in the text so far is replaced by the result.
use vstd::prelude::*;
use crate::status_link::{
    has_trigger, is_space, matches_at, rewrite_links, source_prefix, SourceHost,
};

verus! {

/// Length of the word (run of non-space characters) at position `i` of `s`.
pub open spec fn word_len(s: Seq<char>, i: int) -> nat
    decreases s.len() - i,
{
    if 0 <= i < s.len() && !is_space(s[i]) {
        1 + word_len(s, i + 1)
    } else {
        0
    }
}

/// The whitespace-delimited words of `s` from position `i` on, in order.
pub open spec fn words_from(s: Seq<char>, i: int) -> Seq<Seq<char>>
    decreases (if i < s.len() { s.len() - i } else { 0 }),
{
    if i < 0 || i >= s.len() {
        seq![]
    } else if is_space(s[i]) {
        words_from(s, i + 1)
    } else {
        seq![s.subrange(i, i + word_len(s, i))] + words_from(s, i + word_len(s, i))
    }
}

/// The whitespace-delimited words of `s`, in order.
pub open spec fn words(s: Seq<char>) -> Seq<Seq<char>> {
    words_from(s, 0)
}

/// `s` from position `i` on, with each occurrence of `pat`, found leftmost
/// first and without overlap, replaced by `rep`. An empty `pat` replaces
/// nothing.
pub open spec fn replace_from(s: Seq<char>, i: int, pat: Seq<char>, rep: Seq<char>) -> Seq<char>
    decreases (if i < s.len() { s.len() - i } else { 0 }),
{
    if i < 0 || i >= s.len() {
        seq![]
    } else if pat.len() > 0 && matches_at(s, i, pat) {
        rep + replace_from(s, i + pat.len(), pat, rep)
    } else {
        seq![s[i]] + replace_from(s, i + 1, pat, rep)
    }
}

pub open spec fn replace_all_text(s: Seq<char>, pat: Seq<char>, rep: Seq<char>) -> Seq<char> {
    replace_from(s, 0, pat, rep)
}

/// One word's turn: a word that holds a trigger has each of its occurrences
/// in `r` replaced by the word with its status links rewritten.
pub open spec fn word_step(r: Seq<char>, w: Seq<char>) -> Seq<char> {
    if has_trigger(w) {
        replace_all_text(r, w, rewrite_links(w))
    } else {
        r
    }
}

/// `text` after the turns of the first `k` words of `ws`.
pub open spec fn apply_words(text: Seq<char>, ws: Seq<Seq<char>>, k: int) -> Seq<char>
    decreases k,
{
    if k <= 0 {
        text
    } else {
        word_step(apply_words(text, ws, k - 1), ws[k - 1])
    }
}

/// The rewritten message: the turns of all words of `text`, in order.
pub open spec fn rewrite_message(text: Seq<char>) -> Seq<char> {
    apply_words(text, words(text), words(text).len() as int)
}

pub proof fn lemma_word_len_exact(s: Seq<char>, i: int, n: int)
    requires
        0 <= i,
        0 <= n,
        i + n <= s.len(),
        forall|k: int| i <= k < i + n ==> !is_space(#[trigger] s[k]),
        i + n == s.len() || is_space(s[i + n]),
    ensures
        word_len(s, i) == n,
    decreases n,
{
    if n > 0 {
        lemma_word_len_exact(s, i + 1, n - 1);
    }
}

pub proof fn lemma_word_len_bound(s: Seq<char>, i: int)
    requires
        0 <= i <= s.len(),
    ensures
        i + word_len(s, i) <= s.len(),
    decreases s.len() - i,
{
    if i < s.len() && !is_space(s[i]) {
        lemma_word_len_bound(s, i + 1);
    }
}

/// Replacing a text by itself changes nothing.
pub proof fn lemma_replace_same(s: Seq<char>, i: int, p: Seq<char>)
    requires
        0 <= i <= s.len(),
    ensures
        replace_from(s, i, p, p) == s.subrange(i, s.len() as int),
    decreases s.len() - i,
{
    if i < s.len() {
        if p.len() > 0 && matches_at(s, i, p) {
            lemma_replace_same(s, i + p.len(), p);
            assert(s.subrange(i, s.len() as int) =~= s.subrange(i, i + p.len()) + s.subrange(
                i + p.len(),
                s.len() as int,
            ));
        } else {
            lemma_replace_same(s, i + 1, p);
            assert(s.subrange(i, s.len() as int) =~= seq![s[i]] + s.subrange(i + 1, s.len() as int));
        }
    } else {
        assert(s.subrange(i, s.len() as int) =~= Seq::<char>::empty());
    }
}

/// Where no word with a trigger changes under rewriting, no turn changes
/// the text.
pub proof fn lemma_apply_fixed(text: Seq<char>, ws: Seq<Seq<char>>, k: int)
    requires
        0 <= k <= ws.len(),
        forall|j: int|
            0 <= j < ws.len() && has_trigger(#[trigger] ws[j]) ==> rewrite_links(ws[j]) == ws[j],
    ensures
        apply_words(text, ws, k) == text,
    decreases k,
{
    if k > 0 {
        lemma_apply_fixed(text, ws, k - 1);
        lemma_replace_same(text, 0, ws[k - 1]);
        assert(text.subrange(0, text.len() as int) =~= text);
    }
}

/// A word that holds a trigger lies in a text that holds it.
pub proof fn lemma_word_trigger(s: Seq<char>, i: int)
    requires
        0 <= i,
    ensures
        forall|k: int|
            0 <= k < words_from(s, i).len() && has_trigger(#[trigger] words_from(s, i)[k])
                ==> has_trigger(s),
    decreases (if i < s.len() { s.len() - i } else { 0 }),
{
    if i < s.len() {
        if is_space(s[i]) {
            lemma_word_trigger(s, i + 1);
            assert(words_from(s, i) == words_from(s, i + 1));
        } else {
            let e = i + word_len(s, i);
            lemma_word_len_bound(s, i);
            lemma_word_trigger(s, e);
            let w = s.subrange(i, e);
            assert(words_from(s, i) == seq![w] + words_from(s, e));
            assert(words_from(s, i)[0] == w);
            if has_trigger(w) {
                let tw = source_prefix(SourceHost::Twitter);
                let tx = source_prefix(SourceHost::X);
                let j = choose|j: int| matches_at(w, j, tw) || matches_at(w, j, tx);
                if matches_at(w, j, tw) {
                    assert(w.subrange(j, j + tw.len()) =~= s.subrange(i + j, i + j + tw.len()));
                    assert(matches_at(s, i + j, tw));
                } else {
                    assert(w.subrange(j, j + tx.len()) =~= s.subrange(i + j, i + j + tx.len()));
                    assert(matches_at(s, i + j, tx));
                }
                assert(has_trigger(s));
            }
            assert forall|k: int|
                0 <= k < words_from(s, i).len() && has_trigger(
                    #[trigger] words_from(s, i)[k],
                ) implies has_trigger(s) by {
                if k > 0 {
                    assert(words_from(s, i)[k] == words_from(s, e)[k - 1]);
                }
            }
        }
    }
}

} // verus!
