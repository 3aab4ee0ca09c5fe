//! Verified text helpers the catalog and matcher build on: whitespace
//! trimming, whitespace tokenization, prefix and suffix tests, and
//! replacement of a fixed pattern. All lengths count characters.

use vstd::prelude::*;

verus! {

/// The whitespace characters trimming removes: the same set `str::trim`
/// strips.
pub open spec fn spec_is_ws(c: char) -> bool {
    c == ' ' || c == '\t' || c == '\n' || c == '\r' || c == '\u{b}' || c == '\u{c}'
        || c == '\u{85}' || c == '\u{a0}' || c == '\u{1680}' || c == '\u{2000}' || c == '\u{2001}'
        || c == '\u{2002}' || c == '\u{2003}' || c == '\u{2004}' || c == '\u{2005}'
        || c == '\u{2006}' || c == '\u{2007}' || c == '\u{2008}' || c == '\u{2009}'
        || c == '\u{200a}' || c == '\u{2028}' || c == '\u{2029}' || c == '\u{202f}'
        || c == '\u{205f}' || c == '\u{3000}'
}

/// Whitespace as the whitespace-splitting tokenizer sees it: the ASCII set.
pub open spec fn spec_is_ascii_ws(c: char) -> bool {
    c == ' ' || c == '\t' || c == '\n' || c == '\r' || c == '\u{c}'
}

fn is_ws(c: char) -> (r: bool)
    ensures
        r == spec_is_ws(c),
{
    c == ' ' || c == '\t' || c == '\n' || c == '\r' || c == '\u{b}' || c == '\u{c}'
        || c == '\u{85}' || c == '\u{a0}' || c == '\u{1680}' || c == '\u{2000}' || c == '\u{2001}'
        || c == '\u{2002}' || c == '\u{2003}' || c == '\u{2004}' || c == '\u{2005}'
        || c == '\u{2006}' || c == '\u{2007}' || c == '\u{2008}' || c == '\u{2009}'
        || c == '\u{200a}' || c == '\u{2028}' || c == '\u{2029}' || c == '\u{202f}'
        || c == '\u{205f}' || c == '\u{3000}'
}

fn is_ascii_ws(c: char) -> (r: bool)
    ensures
        r == spec_is_ascii_ws(c),
{
    c == ' ' || c == '\t' || c == '\n' || c == '\r' || c == '\u{c}'
}

/// The first position at or after which the text holds a non-whitespace
/// character; the length when there is none.
pub open spec fn spec_trim_start(s: Seq<char>, i: int) -> int
    decreases s.len() - i,
{
    if i < 0 || i >= s.len() {
        s.len() as int
    } else if spec_is_ws(s[i]) {
        spec_trim_start(s, i + 1)
    } else {
        i
    }
}

/// One past the last non-whitespace character before `i`; zero when there is
/// none.
pub open spec fn spec_trim_end(s: Seq<char>, i: int) -> int
    decreases i,
{
    if i <= 0 || i > s.len() {
        0
    } else if spec_is_ws(s[i - 1]) {
        spec_trim_end(s, i - 1)
    } else {
        i
    }
}

/// The text with leading and trailing whitespace removed.
pub open spec fn spec_trim(s: Seq<char>) -> Seq<char> {
    let a = spec_trim_start(s, 0);
    if a == s.len() {
        Seq::empty()
    } else {
        s.subrange(a, spec_trim_end(s, s.len() as int))
    }
}

proof fn lemma_trim_start_range(s: Seq<char>, i: int)
    requires
        0 <= i <= s.len(),
    ensures
        i <= spec_trim_start(s, i) <= s.len(),
        forall|k: int| i <= k < spec_trim_start(s, i) ==> spec_is_ws(s[k]),
        spec_trim_start(s, i) < s.len() ==> !spec_is_ws(s[spec_trim_start(s, i)]),
    decreases s.len() - i,
{
    if i < s.len() && spec_is_ws(s[i]) {
        lemma_trim_start_range(s, i + 1);
    }
}

proof fn lemma_trim_end_range(s: Seq<char>, i: int)
    requires
        0 <= i <= s.len(),
    ensures
        0 <= spec_trim_end(s, i) <= i,
        forall|k: int| spec_trim_end(s, i) <= k < i ==> spec_is_ws(s[k]),
        spec_trim_end(s, i) > 0 ==> !spec_is_ws(s[spec_trim_end(s, i) - 1]),
    decreases i,
{
    if i > 0 && spec_is_ws(s[i - 1]) {
        lemma_trim_end_range(s, i - 1);
    }
}

/// Removes leading and trailing whitespace.
pub fn trim(s: &str) -> (r: &str)
    ensures
        r@ == spec_trim(s@),
{
    let len = s.unicode_len();
    let mut a: usize = 0;
    while a < len && is_ws(s.get_char(a))
        invariant
            0 <= a <= len,
            len == s@.len(),
            forall|k: int| 0 <= k < a ==> spec_is_ws(s@[k]),
        decreases len - a,
    {
        a += 1;
    }
    proof {
        lemma_trim_start_range(s@, 0);
        if a < len {
            assert(spec_trim_start(s@, 0) == a) by {
                lemma_trim_start_unique(s@, a as int);
            }
        } else {
            assert(spec_trim_start(s@, 0) == len) by {
                lemma_trim_start_unique(s@, len as int);
            }
        }
    }
    if a == len {
        let r = s.substring_char(0, 0);
        proof {
            assert(r@ =~= spec_trim(s@));
        }
        return r;
    }
    let mut b: usize = len;
    while b > 0 && is_ws(s.get_char(b - 1))
        invariant
            0 <= b <= len,
            len == s@.len(),
            forall|k: int| b <= k < len ==> spec_is_ws(s@[k]),
        decreases b,
    {
        b -= 1;
    }
    proof {
        lemma_trim_end_range(s@, len as int);
        assert(spec_trim_end(s@, len as int) == b) by {
            lemma_trim_end_unique(s@, b as int);
        }
        assert(b > a);
    }
    let r = s.substring_char(a, b);
    proof {
        assert(r@ =~= spec_trim(s@));
    }
    r
}

/// Any position below which everything is whitespace, which itself is not
/// whitespace or the end, is where trimming starts.
proof fn lemma_trim_start_unique(s: Seq<char>, a: int)
    requires
        0 <= a <= s.len(),
        forall|k: int| 0 <= k < a ==> spec_is_ws(s[k]),
        a < s.len() ==> !spec_is_ws(s[a]),
    ensures
        spec_trim_start(s, 0) == a,
{
    lemma_trim_start_prefix(s, 0, a);
}

proof fn lemma_trim_start_prefix(s: Seq<char>, i: int, a: int)
    requires
        0 <= i <= a <= s.len(),
        forall|k: int| i <= k < a ==> spec_is_ws(s[k]),
        a < s.len() ==> !spec_is_ws(s[a]),
    ensures
        spec_trim_start(s, i) == a,
    decreases a - i,
{
    if i < a {
        lemma_trim_start_prefix(s, i + 1, a);
    }
}

proof fn lemma_trim_end_unique(s: Seq<char>, b: int)
    requires
        0 <= b <= s.len(),
        forall|k: int| b <= k < s.len() ==> spec_is_ws(s[k]),
        b > 0 ==> !spec_is_ws(s[b - 1]),
    ensures
        spec_trim_end(s, s.len() as int) == b,
{
    lemma_trim_end_suffix(s, s.len() as int, b);
}

proof fn lemma_trim_end_suffix(s: Seq<char>, i: int, b: int)
    requires
        0 <= b <= i <= s.len(),
        forall|k: int| b <= k < i ==> spec_is_ws(s[k]),
        b > 0 ==> !spec_is_ws(s[b - 1]),
    ensures
        spec_trim_end(s, i) == b,
    decreases i - b,
{
    if b < i {
        lemma_trim_end_suffix(s, i - 1, b);
    }
}

/// Where the token starting at `i` ends: the first whitespace position at or
/// after `i`, or the length.
pub open spec fn spec_token_end(s: Seq<char>, i: int) -> int
    decreases s.len() - i,
{
    if i < 0 || i >= s.len() {
        s.len() as int
    } else if spec_is_ascii_ws(s[i]) {
        i
    } else {
        spec_token_end(s, i + 1)
    }
}

proof fn lemma_token_end_range(s: Seq<char>, i: int)
    requires
        0 <= i <= s.len(),
    ensures
        i <= spec_token_end(s, i) <= s.len(),
        forall|k: int| i <= k < spec_token_end(s, i) ==> !spec_is_ascii_ws(s[k]),
        spec_token_end(s, i) < s.len() ==> spec_is_ascii_ws(s[spec_token_end(s, i)]),
    decreases s.len() - i,
{
    if i < s.len() && !spec_is_ascii_ws(s[i]) {
        lemma_token_end_range(s, i + 1);
    }
}

proof fn lemma_token_end_unique(s: Seq<char>, i: int, e: int)
    requires
        0 <= i <= e <= s.len(),
        forall|k: int| i <= k < e ==> !spec_is_ascii_ws(s[k]),
        e < s.len() ==> spec_is_ascii_ws(s[e]),
    ensures
        spec_token_end(s, i) == e,
    decreases e - i,
{
    if i < e {
        lemma_token_end_unique(s, i + 1, e);
    }
}

/// The whitespace-separated tokens of the text from position `i` on.
pub open spec fn spec_tokens_from(s: Seq<char>, i: int) -> Seq<Seq<char>>
    decreases s.len() - i, 1int,
{
    if i < 0 || i >= s.len() {
        Seq::empty()
    } else if spec_is_ascii_ws(s[i]) {
        spec_tokens_from(s, i + 1)
    } else {
        spec_tokens_rest(s, i)
    }
}

/// The token starting at the non-whitespace position `i`, then the rest.
pub open spec fn spec_tokens_rest(s: Seq<char>, i: int) -> Seq<Seq<char>>
    decreases s.len() - i, 0int,
    via spec_tokens_rest_decreases
{
    if 0 <= i < s.len() && !spec_is_ascii_ws(s[i]) {
        seq![s.subrange(i, spec_token_end(s, i))] + spec_tokens_from(s, spec_token_end(s, i))
    } else {
        Seq::empty()
    }
}

#[via_fn]
proof fn spec_tokens_rest_decreases(s: Seq<char>, i: int) {
    if 0 <= i < s.len() && !spec_is_ascii_ws(s[i]) {
        lemma_token_end_range(s, i + 1);
    }
}

/// The whitespace-separated tokens of the whole text, in order.
pub open spec fn spec_tokens(s: Seq<char>) -> Seq<Seq<char>> {
    spec_tokens_from(s, 0)
}

/// Splits the text into its whitespace-separated tokens.
pub fn tokenize(s: &str) -> (r: Vec<String>)
    ensures
        r.deep_view() == spec_tokens(s@),
{
    let len = s.unicode_len();
    let mut out: Vec<String> = Vec::new();
    let mut i: usize = 0;
    while i < len
        invariant
            0 <= i <= len,
            len == s@.len(),
            out.deep_view() + spec_tokens_from(s@, i as int) == spec_tokens(s@),
        decreases len - i,
    {
        let c = s.get_char(i);
        if is_ascii_ws(c) {
            i += 1;
        } else {
            let mut e: usize = i + 1;
            while e < len && !is_ascii_ws(s.get_char(e))
                invariant
                    i < e <= len,
                    len == s@.len(),
                    forall|k: int| i <= k < e ==> !spec_is_ascii_ws(s@[k]),
                decreases len - e,
            {
                e += 1;
            }
            proof {
                lemma_token_end_unique(s@, i as int, e as int);
            }
            let tok = s.substring_char(i, e);
            let ghost prev = out.deep_view();
            out.push(String::from_str(tok));
            proof {
                assert(out.deep_view() =~= prev.push(tok@));
                assert(tok@ =~= s@.subrange(i as int, spec_token_end(s@, i as int)));
                assert(spec_tokens_from(s@, i as int) == spec_tokens_rest(s@, i as int));
                assert(spec_tokens_rest(s@, i as int) == seq![tok@] + spec_tokens_from(
                    s@,
                    e as int,
                ));
                assert(out.deep_view() + spec_tokens_from(s@, e as int) =~= spec_tokens(s@));
            }
            i = e;
        }
    }
    proof {
        assert(out.deep_view() =~= spec_tokens(s@));
    }
    out
}

/// Whether `p` is a prefix of `s`.
pub open spec fn spec_starts_with(s: Seq<char>, p: Seq<char>) -> bool {
    p.len() <= s.len() && s.subrange(0, p.len() as int) == p
}

/// Whether `p` is a suffix of `s`.
pub open spec fn spec_ends_with(s: Seq<char>, p: Seq<char>) -> bool {
    p.len() <= s.len() && s.subrange(s.len() - p.len(), s.len() as int) == p
}

/// Prefix test, character for character.
pub fn starts_with(s: &str, p: &str) -> (r: bool)
    ensures
        r == spec_starts_with(s@, p@),
{
    let ls = s.unicode_len();
    let lp = p.unicode_len();
    if lp > ls {
        return false;
    }
    let head = s.substring_char(0, lp);
    crate::util::str_eq(head, p)
}

/// Suffix test, character for character.
pub fn ends_with(s: &str, p: &str) -> (r: bool)
    ensures
        r == spec_ends_with(s@, p@),
{
    let ls = s.unicode_len();
    let lp = p.unicode_len();
    if lp > ls {
        return false;
    }
    let tail = s.substring_char(ls - lp, ls);
    crate::util::str_eq(tail, p)
}

/// The first position at or after `i` where `pat` occurs, if any.
pub open spec fn spec_find_from(s: Seq<char>, pat: Seq<char>, i: int) -> Option<int>
    decreases s.len() - i,
{
    if i < 0 || pat.len() == 0 || i + pat.len() > s.len() {
        None
    } else if s.subrange(i, i + pat.len()) == pat {
        Some(i)
    } else {
        spec_find_from(s, pat, i + 1)
    }
}

/// Whether `pat` occurs anywhere in `s`.
pub open spec fn spec_contains(s: Seq<char>, pat: Seq<char>) -> bool {
    spec_find_from(s, pat, 0) is Some
}

/// A found occurrence sits inside the text.
pub proof fn lemma_find_from_range(s: Seq<char>, pat: Seq<char>, i: int)
    requires
        0 <= i,
    ensures
        spec_find_from(s, pat, i) matches Some(j) ==> i <= j && j + pat.len() <= s.len()
            && pat.len() > 0,
    decreases s.len() - i,
{
    if !(i < 0 || pat.len() == 0 || i + pat.len() > s.len()) {
        if s.subrange(i, i + pat.len()) != pat {
            lemma_find_from_range(s, pat, i + 1);
        }
    }
}

/// The position of the first occurrence of `pat`, if any.
pub fn find_str(s: &str, pat: &str) -> (r: Option<usize>)
    ensures
        match r {
            Some(i) => spec_find_from(s@, pat@, 0) == Some(i as int),
            None => spec_find_from(s@, pat@, 0) is None,
        },
{
    let slen = s.unicode_len();
    let plen = pat.unicode_len();
    if plen > slen || plen == 0 {
        return None;
    }
    let limit = slen - plen;
    let mut i: usize = 0;
    while i <= limit
        invariant
            0 <= i <= limit + 1,
            limit == slen - plen,
            slen == s@.len(),
            plen == pat@.len(),
            0 < plen <= slen,
            spec_find_from(s@, pat@, 0) == spec_find_from(s@, pat@, i as int),
        decreases limit + 1 - i,
    {
        let head = s.substring_char(i, i + plen);
        if crate::util::str_eq(head, pat) {
            return Some(i);
        }
        i += 1;
    }
    None
}

/// Whether the text holds the pattern anywhere.
pub fn contains_str(s: &str, pat: &str) -> (r: bool)
    ensures
        r == spec_contains(s@, pat@),
{
    match find_str(s, pat) {
        Some(_) => true,
        None => false,
    }
}

/// The text with every occurrence of `from` replaced by `to`, scanning left
/// to right without overlap, as `str::replace` does.
pub open spec fn spec_replace(s: Seq<char>, from: Seq<char>, to: Seq<char>) -> Seq<char>
    decreases s.len(),
{
    if from.len() == 0 || s.len() < from.len() {
        s
    } else if s.subrange(0, from.len() as int) == from {
        to + spec_replace(s.skip(from.len() as int), from, to)
    } else {
        seq![s[0]] + spec_replace(s.skip(1), from, to)
    }
}

/// Replaces every occurrence of `from` with `to`, left to right.
pub fn replace(s: &str, from: &str, to: &str) -> (r: String)
    requires
        from@.len() > 0,
    ensures
        r@ == spec_replace(s@, from@, to@),
{
    let len = s.unicode_len();
    let flen = from.unicode_len();
    let mut out = String::new();
    let mut i: usize = 0;
    proof {
        assert(s@.skip(0) =~= s@);
    }
    while i < len
        invariant
            0 <= i <= len,
            len == s@.len(),
            flen == from@.len() > 0,
            out@ + spec_replace(s@.skip(i as int), from@, to@) == spec_replace(s@, from@, to@),
        decreases len - i,
    {
        let matched = if flen <= len - i {
            let head = s.substring_char(i, i + flen);
            crate::util::str_eq(head, from)
        } else {
            false
        };
        let ghost rest = s@.skip(i as int);
        if matched {
            out.append(to);
            proof {
                assert(rest.subrange(0, flen as int) =~= s@.subrange(i as int, i + flen));
                assert(rest.skip(flen as int) =~= s@.skip(i + flen));
                assert(spec_replace(rest, from@, to@) == to@ + spec_replace(
                    s@.skip(i + flen),
                    from@,
                    to@,
                ));
            }
            i += flen;
        } else {
            let c = s.substring_char(i, i + 1);
            out.append(c);
            proof {
                if rest.len() >= flen {
                    assert(rest.subrange(0, flen as int) =~= s@.subrange(i as int, i + flen as int));
                }
                assert(rest.skip(1) =~= s@.skip(i + 1));
                assert(c@ =~= seq![s@[i as int]]);
                assert(spec_replace(rest, from@, to@) == seq![rest[0]] + spec_replace(
                    s@.skip(i + 1),
                    from@,
                    to@,
                ));
            }
            i += 1;
        }
    }
    proof {
        assert(s@.skip(len as int) =~= Seq::empty());
        assert(spec_replace(s@.skip(len as int), from@, to@) =~= Seq::<char>::empty());
        assert(out@ =~= spec_replace(s@, from@, to@));
    }
    out
}

/// Keeps only the ASCII alphabetic characters of the text.
pub open spec fn spec_normalize(s: Seq<char>) -> Seq<char>
    decreases s.len(),
{
    if s.len() == 0 {
        Seq::empty()
    } else if ('a' <= s[0] && s[0] <= 'z') || ('A' <= s[0] && s[0] <= 'Z') {
        seq![s[0]] + spec_normalize(s.skip(1))
    } else {
        spec_normalize(s.skip(1))
    }
}

/// Drops every character that is not ASCII alphabetic.
pub fn normalize_string(s: &str) -> (r: String)
    ensures
        r@ == spec_normalize(s@),
{
    let len = s.unicode_len();
    let mut out = String::new();
    let mut i: usize = 0;
    proof {
        assert(s@.skip(0) =~= s@);
    }
    while i < len
        invariant
            0 <= i <= len,
            len == s@.len(),
            out@ + spec_normalize(s@.skip(i as int)) == spec_normalize(s@),
        decreases len - i,
    {
        let c = s.get_char(i);
        let ghost rest = s@.skip(i as int);
        proof {
            assert(rest[0] == s@[i as int]);
            assert(rest.skip(1) =~= s@.skip(i + 1));
        }
        if ('a' <= c && c <= 'z') || ('A' <= c && c <= 'Z') {
            let piece = s.substring_char(i, i + 1);
            out.append(piece);
            proof {
                assert(piece@ =~= seq![s@[i as int]]);
            }
        }
        i += 1;
    }
    proof {
        assert(s@.skip(len as int) =~= Seq::<char>::empty());
        assert(out@ =~= spec_normalize(s@));
    }
    out
}

} // verus!
