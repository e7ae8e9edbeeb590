//! Rewriting message text: finding status links in each word and putting
//! their mirrors in their place.
use vstd::prelude::*;
use crate::status_link::{
    has_trigger, is_space, matches_at, mirror_text, rewrite_links, scheme, source_prefix,
    status_infix, SourceHost,
};
use crate::words::{
    apply_words, lemma_word_len_exact, replace_all_text, replace_from, rewrite_message, words,
    words_from,
};

verus! {

#[verifier::external_type_specification]
#[verifier::external_body]
pub struct ExRegex(regex::Regex);

#[verifier::external_type_specification]
#[verifier::external_body]
pub struct ExRegexError(regex::Error);

/// The pattern of a status link: host, user name and id are captured.
pub const STATUS_LINK_PATTERN: &'static str = "https://(twitter|x)\\.com/([a-zA-Z0-9_]+)/status/([0-9]+)";

/// Why a rewriter could not be made.
#[derive(Clone, Copy, Debug, PartialEq, Eq, Structural)]
pub enum RewriteError {
    /// The status link pattern did not compile.
    InvalidPattern,
}

/// Rewrites status links of the source sites into links to their mirrors.
pub struct LinkRewriter {
    /// Compiled from `STATUS_LINK_PATTERN`, and from nothing else.
    status_link: regex::Regex,
}

/// The captured host `twitter` stands for the first source site, any other
/// for the second.
pub open spec fn host_of_capture(host: Seq<char>) -> SourceHost {
    if host == seq!['t', 'w', 'i', 't', 't', 'e', 'r'] {
        SourceHost::Twitter
    } else {
        SourceHost::X
    }
}

/// Relies on regex::Regex::new: compiles a pattern, or says why it cannot.
/// It fails only on an invalid pattern or one over the size limit, and the
/// status link pattern is neither.
#[verifier::external_body]
fn compile_pattern(pattern: &str) -> (r: Result<regex::Regex, regex::Error>)
    ensures
        pattern@ == STATUS_LINK_PATTERN@ ==> r is Ok,
{
    regex::Regex::new(pattern)
}

/// `a` and `b` hold the same characters.
fn same_text(a: &str, b: &str) -> (r: bool)
    ensures
        r == (a@ == b@),
{
    let n = a.unicode_len();
    if n != b.unicode_len() {
        return false;
    }
    let mut i: usize = 0;
    while i < n
        invariant
            n == a@.len(),
            n == b@.len(),
            i <= n,
            forall|k: int| 0 <= k < i ==> a@[k] == b@[k],
        decreases n - i,
    {
        if a.get_char(i) != b.get_char(i) {
            return false;
        }
        i = i + 1;
    }
    assert(a@ =~= b@);
    true
}

/// `p` occurs in `s` at position `i`.
fn occurs_at(s: &str, i: usize, p: &str) -> (r: bool)
    ensures
        r == matches_at(s@, i as int, p@),
{
    let n = s.unicode_len();
    let m = p.unicode_len();
    if i > n || m > n - i {
        return false;
    }
    let mut k: usize = 0;
    while k < m
        invariant
            n == s@.len(),
            m == p@.len(),
            i + m <= n,
            k <= m,
            forall|j: int| 0 <= j < k ==> s@[i + j] == p@[j],
        decreases m - k,
    {
        if s.get_char(i + k) != p.get_char(k) {
            assert(s@.subrange(i as int, i + m)[k as int] == s@[i + k]);
            return false;
        }
        k = k + 1;
    }
    assert(s@.subrange(i as int, i + m) =~= p@);
    true
}

/// `s` holds `https://twitter.com/` or `https://x.com/`.
fn contains_trigger(s: &str) -> (r: bool)
    ensures
        r == has_trigger(s@),
{
    let twitter = "https://twitter.com/";
    let x = "https://x.com/";
    proof {
        reveal_strlit("https://twitter.com/");
        reveal_strlit("https://x.com/");
        assert(twitter@ =~= source_prefix(SourceHost::Twitter));
        assert(x@ =~= source_prefix(SourceHost::X));
    }
    let n = s.unicode_len();
    let mut j: usize = 0;
    while j < n
        invariant
            n == s@.len(),
            j <= n,
            twitter@ == source_prefix(SourceHost::Twitter),
            x@ == source_prefix(SourceHost::X),
            forall|k: int|
                0 <= k < j ==> !matches_at(s@, k, source_prefix(SourceHost::Twitter))
                    && !matches_at(s@, k, source_prefix(SourceHost::X)),
        decreases n - j,
    {
        if occurs_at(s, j, twitter) || occurs_at(s, j, x) {
            return true;
        }
        j = j + 1;
    }
    assert forall|k: int|
        !(matches_at(s@, k, source_prefix(SourceHost::Twitter)) || matches_at(
            s@,
            k,
            source_prefix(SourceHost::X),
        )) by {
        if k >= n {
            assert(source_prefix(SourceHost::X).len() > 0);
        }
    }
    false
}

/// `s` with each occurrence of `pat`, found leftmost first and without
/// overlap, replaced by `rep`.
fn replace_text(s: &str, pat: &str, rep: &str) -> (r: String)
    requires
        pat@.len() > 0,
    ensures
        r@ == replace_all_text(s@, pat@, rep@),
{
    let n = s.unicode_len();
    let m = pat.unicode_len();
    let mut out = String::new();
    let mut i: usize = 0;
    while i < n
        invariant
            n == s@.len(),
            m == pat@.len(),
            m > 0,
            i <= n,
            out@ + replace_from(s@, i as int, pat@, rep@) == replace_all_text(s@, pat@, rep@),
        decreases n - i,
    {
        if occurs_at(s, i, pat) {
            proof {
                assert(out@ + (rep@ + replace_from(s@, i + m, pat@, rep@)) =~= (out@ + rep@)
                    + replace_from(s@, i + m, pat@, rep@));
            }
            out.append(rep);
            i = i + m;
        } else {
            let c = s.substring_char(i, i + 1);
            proof {
                assert(c@ =~= seq![s@[i as int]]);
                assert(out@ + (c@ + replace_from(s@, i + 1, pat@, rep@)) =~= (out@ + c@)
                    + replace_from(s@, i + 1, pat@, rep@));
            }
            out.append(c);
            i = i + 1;
        }
    }
    proof {
        assert(out@ + Seq::<char>::empty() =~= out@);
    }
    out
}

/// `c` has Unicode's White_Space property.
fn is_whitespace(c: char) -> (r: bool)
    ensures
        r == is_space(c),
{
    ('\u{9}' <= c && c <= '\u{d}') || c == ' ' || c == '\u{85}' || c == '\u{a0}' || c == '\u{1680}'
        || ('\u{2000}' <= c && c <= '\u{200a}') || c == '\u{2028}' || c == '\u{2029}' || c
        == '\u{202f}' || c == '\u{205f}' || c == '\u{3000}'
}

/// The mirror link for a matched status link: `host` is the captured host
/// (`twitter` or `x`), `user` and `id` the captured user name and id.
pub fn mirror_link(host: &str, user: &str, id: &str) -> (r: String)
    ensures
        r@ == mirror_text(host_of_capture(host@), user@, id@),
{
    let twitter = "twitter";
    proof {
        reveal_strlit("twitter");
    }
    let mut r = if same_text(host, twitter) {
        proof {
            reveal_strlit("https://fxtwitter.com/");
        }
        String::from_str("https://fxtwitter.com/")
    } else {
        proof {
            reveal_strlit("https://fixupx.com/");
        }
        String::from_str("https://fixupx.com/")
    };
    proof {
        assert(twitter@ =~= seq!['t', 'w', 'i', 't', 't', 'e', 'r']);
        let h = host_of_capture(host@);
        assert(r@ =~= scheme() + crate::status_link::mirror_domain(h) + seq!['/']);
        reveal_strlit("/status/");
        assert("/status/"@ =~= status_infix());
    }
    r.append(user);
    r.append("/status/");
    r.append(id);
    r
}

impl LinkRewriter {
    /// Compiles the status link pattern.
    pub fn new() -> (r: Result<LinkRewriter, RewriteError>)
        ensures
            r is Ok,
    {
        match compile_pattern(STATUS_LINK_PATTERN) {
            Ok(status_link) => Ok(LinkRewriter { status_link }),
            Err(_) => Err(RewriteError::InvalidPattern),
        }
    }

    /// Relies on regex::Regex::replace_all: on a pattern compiled from
    /// `STATUS_LINK_PATTERN`, it scans from the left, takes at each place
    /// the match that starts there, with the longest user name and id, and
    /// goes on after it; each match is replaced by what `mirror_link` makes
    /// of its captures, and all else is kept.
    #[verifier::external_body]
    fn replace_status_links(&self, text: &str) -> (r: String)
        ensures
            r@ == rewrite_links(text@),
    {
        self.status_link.replace_all(text, |caps: &regex::Captures| {
            mirror_link(&caps[1], &caps[2], &caps[3])
        }).into_owned()
    }

    /// Replaces every status link in `url` by its mirror.
    pub fn convert_twitter_url(&self, url: &str) -> (r: String)
        ensures
            r@ == rewrite_links(url@),
    {
        self.replace_status_links(url)
    }

    /// Rewrites a message. Its words (cut at white space) are taken in
    /// order; for each that holds `https://twitter.com/` or `https://x.com/`,
    /// every occurrence of that word in the text so far is replaced by the
    /// word with its status links rewritten. Also says whether the result
    /// differs from `text`.
    pub fn transform(&self, text: &str) -> (r: (String, bool))
        ensures
            r.0@ == rewrite_message(text@),
            r.1 == (rewrite_message(text@) != text@),
    {
        let ghost ws = words(text@);
        let n = text.unicode_len();
        let mut out = String::from_str(text);
        let mut i: usize = 0;
        let ghost mut k: int = 0;
        while i < n
            invariant
                n == text@.len(),
                i <= n,
                0 <= k <= ws.len(),
                ws == words(text@),
                out@ == apply_words(text@, ws, k),
                words_from(text@, i as int) == ws.subrange(k, ws.len() as int),
            decreases n - i,
        {
            if is_whitespace(text.get_char(i)) {
                i = i + 1;
            } else {
                let start = i;
                let mut end: usize = start + 1;
                let mut same = true;
                while same && end < n
                    invariant
                        n == text@.len(),
                        start < end <= n,
                        forall|j: int| start <= j < end ==> !is_space(#[trigger] text@[j]),
                        !same ==> end < n && is_space(text@[end as int]),
                    decreases n - end + (if same { 1int } else { 0int }),
                {
                    if is_whitespace(text.get_char(end)) {
                        same = false;
                    } else {
                        end = end + 1;
                    }
                }
                let word = text.substring_char(start, end);
                proof {
                    lemma_word_len_exact(text@, start as int, (end - start) as int);
                    let rest = words_from(text@, end as int);
                    assert(words_from(text@, start as int) == seq![word@] + rest);
                    let tail = ws.subrange(k, ws.len() as int);
                    assert(tail == seq![word@] + rest);
                    assert(tail.len() == rest.len() + 1);
                    assert(tail[0] == ws[k]);
                    assert(ws[k] == word@);
                    assert(ws.subrange(k + 1, ws.len() as int) =~= tail.subrange(1, tail.len() as int));
                    assert(tail.subrange(1, tail.len() as int) =~= rest);
                }
                if contains_trigger(word) {
                    let converted = self.convert_twitter_url(word);
                    let next = replace_text(out.as_str(), word, converted.as_str());
                    out = next;
                }
                proof {
                    k = k + 1;
                }
                i = end;
            }
        }
        proof {
            assert(ws.subrange(k, ws.len() as int).len() == 0);
        }
        let changed = !same_text(out.as_str(), text);
        (out, changed)
    }

    /// What to send in answer to a message: its rewritten text where that
    /// differs from it, nothing otherwise.
    pub fn handle_message(&self, text: &str) -> (r: Option<String>)
        ensures
            r is Some <==> rewrite_message(text@) != text@,
            r is Some ==> r->Some_0@ == rewrite_message(text@),
    {
        let (rewritten, changed) = self.transform(text);
        if changed {
            Some(rewritten)
        } else {
            None
        }
    }
}

} // verus!
