//! The reference-rewriting passes. Rewriting works on the serialized text of
//! a document: for one original identifier and its replacement, a pass scans
//! the bytes left to right, rewrites each place the identifier can be
//! referenced, and copies everything else unchanged. A reference is rewritten
//! only when the captured identifier equals the original exactly, never on a
//! prefix or substring match.

use vstd::prelude::*;
use crate::bytes_util::{matches_at, push_all, push_range};

verus! {

/// A single or double quote byte.
pub open spec fn is_quote(b: u8) -> bool {
    b == 34 || b == 39
}

/// An ASCII letter.
pub open spec fn is_ascii_letter(b: u8) -> bool {
    (65 <= b <= 90) || (97 <= b <= 122)
}

/// A byte that may continue a CSS-style identifier token: a letter, a digit,
/// an underscore or a hyphen.
pub open spec fn is_word_byte(b: u8) -> bool {
    is_ascii_letter(b) || (48 <= b <= 57) || b == 95 || b == 45
}

/// The literal attribute occurrence of an identifier: `id="` then the
/// identifier then `"`.
pub open spec fn attr_pattern(id: Seq<u8>) -> Seq<u8> {
    seq![105u8, 100u8, 61u8, 34u8] + id + seq![34u8]
}

/// The bytes of `getElementById(`, the prefix of an element-lookup-by-id
/// call.
pub open spec fn lookup_call_prefix() -> Seq<u8> {
    seq![103u8, 101u8, 116u8, 69u8, 108u8, 101u8, 109u8, 101u8, 110u8, 116u8, 66u8, 121u8, 73u8, 100u8, 40u8]
}

/// The bytes of `querySelector(`, the prefix of a selector-executing call.
pub open spec fn selector_call_prefix() -> Seq<u8> {
    seq![113u8, 117u8, 101u8, 114u8, 121u8, 83u8, 101u8, 108u8, 101u8, 99u8, 116u8, 111u8, 114u8, 40u8]
}

/// Exact, non-overlapping, left-to-right replacement of the literal `pat` by
/// `rep`. An empty pattern replaces nothing.
pub open spec fn replace_lit(s: Seq<u8>, pat: Seq<u8>, rep: Seq<u8>) -> Seq<u8>
    decreases s.len(),
{
    if pat.len() == 0 {
        s
    } else if s.len() >= pat.len() && s.take(pat.len() as int) == pat {
        rep + replace_lit(s.skip(pat.len() as int), pat, rep)
    } else if s.len() == 0 {
        s
    } else {
        s.take(1) + replace_lit(s.skip(1), pat, rep)
    }
}

/// The length of the longest quote-free prefix of `s`: where a quoted call
/// argument ends.
pub open spec fn unquoted_len(s: Seq<u8>) -> int
    decreases s.len(),
{
    if s.len() == 0 {
        0
    } else if is_quote(s[0]) {
        0
    } else {
        1 + unquoted_len(s.skip(1))
    }
}

/// The length of the longest prefix of `s` made of word bytes: where an
/// identifier token ends.
pub open spec fn word_len(s: Seq<u8>) -> int
    decreases s.len(),
{
    if s.len() == 0 {
        0
    } else if !is_word_byte(s[0]) {
        0
    } else {
        1 + word_len(s.skip(1))
    }
}

/// How many bytes the `#` of a selector-executing call occupies: one when
/// the call takes a `#`-selector, none otherwise.
pub open spec fn hash_len(hash: bool) -> int {
    if hash {
        1
    } else {
        0
    }
}

/// A recognized call reference starts at the front of `s`: the call prefix,
/// an opening quote, for a selector call a `#`, then an argument free of
/// quotes, closed by the next quote.
pub open spec fn call_at_front(s: Seq<u8>, pre: Seq<u8>, hash: bool) -> bool {
    let hl = hash_len(hash);
    let rest = s.skip(pre.len() + 1 + hl);
    &&& s.len() >= pre.len() + 1 + hl
    &&& s.take(pre.len() as int) == pre
    &&& is_quote(s[pre.len() as int])
    &&& (hash ==> s[pre.len() as int + 1] == 35)
    &&& unquoted_len(rest) < rest.len()
}

/// The captured argument of the call reference at the front of `s`.
pub open spec fn call_body(s: Seq<u8>, pre: Seq<u8>, hash: bool) -> Seq<u8> {
    let rest = s.skip(pre.len() + 1 + hash_len(hash));
    rest.take(unquoted_len(rest))
}

/// How many bytes the call reference at the front of `s` spans, closing
/// quote included.
pub open spec fn call_match_len(s: Seq<u8>, pre: Seq<u8>, hash: bool) -> int {
    let rest = s.skip(pre.len() + 1 + hash_len(hash));
    pre.len() + 1 + hash_len(hash) + unquoted_len(rest) + 1
}

/// What a rewritten call reference becomes: the prefix, a single quote, for
/// a selector call the `#`, the replacement identifier, a closing quote.
pub open spec fn call_replacement(pre: Seq<u8>, hash: bool, new: Seq<u8>) -> Seq<u8> {
    if hash {
        pre + seq![39u8, 35u8] + new + seq![39u8]
    } else {
        pre + seq![39u8] + new + seq![39u8]
    }
}

/// Rewrite every recognized call reference whose captured argument equals
/// `old` exactly; every other byte, and every call whose argument differs,
/// is copied unchanged. Scanning resumes after each recognized call whether
/// or not it was rewritten.
pub open spec fn rw_calls(s: Seq<u8>, pre: Seq<u8>, hash: bool, old: Seq<u8>, new: Seq<u8>) -> Seq<
    u8,
>
    decreases s.len(),
    via rw_calls_decreases
{
    if s.len() == 0 {
        s
    } else if call_at_front(s, pre, hash) {
        let m = call_match_len(s, pre, hash);
        let rep = if call_body(s, pre, hash) == old {
            call_replacement(pre, hash, new)
        } else {
            s.take(m)
        };
        rep + rw_calls(s.skip(m), pre, hash, old, new)
    } else {
        s.take(1) + rw_calls(s.skip(1), pre, hash, old, new)
    }
}

#[via_fn]
proof fn rw_calls_decreases(s: Seq<u8>, pre: Seq<u8>, hash: bool, old: Seq<u8>, new: Seq<u8>) {
    if s.len() > 0 && call_at_front(s, pre, hash) {
        lemma_unquoted_len_bounds(s.skip(pre.len() + 1 + hash_len(hash)));
    }
}

/// A bare CSS id-selector token starts at the front of `s`: a `#` followed
/// by a letter.
pub open spec fn hash_at_front(s: Seq<u8>) -> bool {
    s.len() >= 2 && s[0] == 35 && is_ascii_letter(s[1])
}

/// Rewrite every bare `#identifier` token whose captured name (the letter
/// and the longest run of word bytes after it) equals `old` exactly; every
/// other token and byte is copied unchanged.
pub open spec fn rw_hash(s: Seq<u8>, old: Seq<u8>, new: Seq<u8>) -> Seq<u8>
    decreases s.len(),
    via rw_hash_decreases
{
    if hash_at_front(s) {
        let m = 2 + word_len(s.skip(2));
        let tok = s.subrange(1, m);
        let rep = if tok == old {
            seq![35u8] + new
        } else {
            s.take(m)
        };
        rep + rw_hash(s.skip(m), old, new)
    } else if s.len() == 0 {
        s
    } else {
        s.take(1) + rw_hash(s.skip(1), old, new)
    }
}

#[via_fn]
proof fn rw_hash_decreases(s: Seq<u8>, old: Seq<u8>, new: Seq<u8>) {
    if hash_at_front(s) {
        lemma_word_len_bounds(s.skip(2));
    }
}

/// The full treatment of one identifier: rewrite its literal attribute
/// occurrences, then lookup-by-id calls, then `#`-selector calls, then bare
/// CSS id-selectors.
pub open spec fn rewrite_one(s: Seq<u8>, old: Seq<u8>, new: Seq<u8>) -> Seq<u8> {
    let a = replace_lit(s, attr_pattern(old), attr_pattern(new));
    let b = rw_calls(a, lookup_call_prefix(), false, old, new);
    let c = rw_calls(b, selector_call_prefix(), true, old, new);
    rw_hash(c, old, new)
}

/// `unquoted_len` is the position of the first quote: all bytes before it
/// are quote-free and, if it lies short of the end, a quote stands there.
pub proof fn lemma_unquoted_len_bounds(s: Seq<u8>)
    ensures
        0 <= unquoted_len(s) <= s.len(),
        forall|k: int| 0 <= k < unquoted_len(s) ==> !is_quote(#[trigger] s[k]),
        unquoted_len(s) < s.len() ==> is_quote(s[unquoted_len(s)]),
    decreases s.len(),
{
    if s.len() > 0 && !is_quote(s[0]) {
        lemma_unquoted_len_bounds(s.skip(1));
        assert forall|k: int| 0 <= k < unquoted_len(s) implies !is_quote(#[trigger] s[k]) by {
            if k > 0 {
                assert(!is_quote(s.skip(1)[k - 1]));
                assert(s.skip(1)[k - 1] == s[k]);
            }
        }
        if unquoted_len(s) < s.len() {
            assert(s.skip(1)[unquoted_len(s) - 1] == s[unquoted_len(s)]);
        }
    }
}

/// Conversely, a position with only quote-free bytes before it and a quote
/// (or the end) at it is `unquoted_len`.
pub proof fn lemma_unquoted_len_is(s: Seq<u8>, n: int)
    requires
        0 <= n <= s.len(),
        forall|k: int| 0 <= k < n ==> !is_quote(#[trigger] s[k]),
        n < s.len() ==> is_quote(s[n]),
    ensures
        unquoted_len(s) == n,
    decreases s.len(),
{
    if n == 0 {
    } else {
        assert(!is_quote(s[0]));
        assert(forall|k: int| 0 <= k < n - 1 ==> s.skip(1)[k] == s[k + 1]);
        assert(n - 1 < s.skip(1).len() ==> is_quote(s.skip(1)[n - 1]));
        lemma_unquoted_len_is(s.skip(1), n - 1);
    }
}

/// `word_len` is the position of the first non-word byte: all bytes before
/// it are word bytes and, if it lies short of the end, a non-word byte
/// stands there.
pub proof fn lemma_word_len_bounds(s: Seq<u8>)
    ensures
        0 <= word_len(s) <= s.len(),
        forall|k: int| 0 <= k < word_len(s) ==> is_word_byte(#[trigger] s[k]),
        word_len(s) < s.len() ==> !is_word_byte(s[word_len(s)]),
    decreases s.len(),
{
    if s.len() > 0 && is_word_byte(s[0]) {
        lemma_word_len_bounds(s.skip(1));
        assert forall|k: int| 0 <= k < word_len(s) implies is_word_byte(#[trigger] s[k]) by {
            if k > 0 {
                assert(is_word_byte(s.skip(1)[k - 1]));
                assert(s.skip(1)[k - 1] == s[k]);
            }
        }
        if word_len(s) < s.len() {
            assert(s.skip(1)[word_len(s) - 1] == s[word_len(s)]);
        }
    }
}

/// Conversely, a position with only word bytes before it and a non-word
/// byte (or the end) at it is `word_len`.
pub proof fn lemma_word_len_is(s: Seq<u8>, n: int)
    requires
        0 <= n <= s.len(),
        forall|k: int| 0 <= k < n ==> is_word_byte(#[trigger] s[k]),
        n < s.len() ==> !is_word_byte(s[n]),
    ensures
        word_len(s) == n,
    decreases s.len(),
{
    if n == 0 {
    } else {
        assert(is_word_byte(s[0]));
        assert(forall|k: int| 0 <= k < n - 1 ==> s.skip(1)[k] == s[k + 1]);
        assert(n - 1 < s.skip(1).len() ==> !is_word_byte(s.skip(1)[n - 1]));
        lemma_word_len_is(s.skip(1), n - 1);
    }
}

/// Rewriting a whole document: apply the full treatment of each identifier
/// pair in order, each pass working on the output of the one before. The
/// order never matters for the result's correctness: each pass rewrites only
/// exact occurrences of its own original identifier.
pub open spec fn rewrite_seq(s: Seq<u8>, pairs: Seq<(Seq<u8>, Seq<u8>)>) -> Seq<u8>
    decreases pairs.len(),
{
    if pairs.len() == 0 {
        s
    } else {
        rewrite_seq(rewrite_one(s, pairs[0].0, pairs[0].1), pairs.skip(1))
    }
}

/// The identifier pairs a store assigns to a sequence of originals: each
/// original beside the replacement the store maps it to.
pub open spec fn pairs_of(ids: Seq<Seq<u8>>, m: Map<Seq<u8>, Seq<u8>>) -> Seq<(Seq<u8>, Seq<u8>)> {
    ids.map_values(|id: Seq<u8>| (id, m[id]))
}

/// Treating one more identifier after a sequence of them is the full
/// treatment of that identifier on the sequence's result.
pub proof fn lemma_rewrite_seq_snoc(
    s: Seq<u8>,
    pairs: Seq<(Seq<u8>, Seq<u8>)>,
    p: (Seq<u8>, Seq<u8>),
)
    ensures
        rewrite_seq(s, pairs.push(p)) == rewrite_one(rewrite_seq(s, pairs), p.0, p.1),
    decreases pairs.len(),
{
    if pairs.len() == 0 {
        assert(pairs.push(p)[0] == p);
        assert(pairs.push(p).skip(1) =~= Seq::<(Seq<u8>, Seq<u8>)>::empty());
        assert(rewrite_seq(s, pairs) == s);
        assert(rewrite_seq(rewrite_one(s, p.0, p.1), Seq::<(Seq<u8>, Seq<u8>)>::empty())
            == rewrite_one(s, p.0, p.1));
    } else {
        assert(pairs.push(p)[0] == pairs[0]);
        assert(pairs.push(p).skip(1) =~= pairs.skip(1).push(p));
        lemma_rewrite_seq_snoc(rewrite_one(s, pairs[0].0, pairs[0].1), pairs.skip(1), p);
    }
}

/// The bytes of `getElementById(` as a vector.
pub fn lookup_call_prefix_vec() -> (r: Vec<u8>)
    ensures
        r@ == lookup_call_prefix(),
{
    let v: Vec<u8> = vec![103u8, 101u8, 116u8, 69u8, 108u8, 101u8, 109u8, 101u8, 110u8, 116u8, 66u8, 121u8, 73u8, 100u8, 40u8];
    proof {
        assert(v@ =~= lookup_call_prefix());
    }
    v
}

/// The bytes of `querySelector(` as a vector.
pub fn selector_call_prefix_vec() -> (r: Vec<u8>)
    ensures
        r@ == selector_call_prefix(),
{
    let v: Vec<u8> = vec![113u8, 117u8, 101u8, 114u8, 121u8, 83u8, 101u8, 108u8, 101u8, 99u8, 116u8, 111u8, 114u8, 40u8];
    proof {
        assert(v@ =~= selector_call_prefix());
    }
    v
}

/// The literal attribute occurrence of `id` as a vector.
pub fn attr_pattern_vec(id: &[u8]) -> (r: Vec<u8>)
    ensures
        r@ == attr_pattern(id@),
{
    let mut v: Vec<u8> = Vec::new();
    v.push(105);
    v.push(100);
    v.push(61);
    v.push(34);
    push_all(&mut v, id);
    v.push(34);
    proof {
        assert(v@ =~= attr_pattern(id@));
    }
    v
}

/// A quoted call reference written out in full: the call prefix, an opening
/// quote, for a selector call a `#`, the argument, a closing quote.
pub open spec fn quoted_call(pre: Seq<u8>, hash: bool, q: u8, arg: Seq<u8>) -> Seq<u8> {
    if hash {
        pre + seq![q, 35u8] + arg + seq![q]
    } else {
        pre + seq![q] + arg + seq![q]
    }
}

/// A lone attribute occurrence of an identifier is rewritten to the
/// attribute occurrence of its replacement.
pub proof fn lemma_attr_occurrence_rewritten(old: Seq<u8>, new: Seq<u8>)
    ensures
        replace_lit(attr_pattern(old), attr_pattern(old), attr_pattern(new)) == attr_pattern(new),
{
    let s = attr_pattern(old);
    let pat = attr_pattern(old);
    let rep = attr_pattern(new);
    assert(s.take(pat.len() as int) =~= pat);
    assert(s.skip(pat.len() as int) =~= Seq::<u8>::empty());
    assert(replace_lit(Seq::<u8>::empty(), pat, rep) == Seq::<u8>::empty());
    assert(rep + Seq::<u8>::empty() =~= rep);
}

/// No occurrence of `pat` starts anywhere in `s`.
pub open spec fn no_occurrence(s: Seq<u8>, pat: Seq<u8>) -> bool {
    forall|p: int| 0 <= p <= s.len() - pat.len() ==> #[trigger] s.subrange(p, p + pat.len()) != pat
}

/// Replacement is the identity on text free of the pattern.
pub proof fn lemma_replace_lit_absent(s: Seq<u8>, pat: Seq<u8>, rep: Seq<u8>)
    requires
        pat.len() >= 1,
        no_occurrence(s, pat),
    ensures
        replace_lit(s, pat, rep) == s,
    decreases s.len(),
{
    if s.len() == 0 {
    } else {
        if s.len() >= pat.len() && s.take(pat.len() as int) == pat {
            let p0: int = 0;
            assert(s.subrange(p0, p0 + pat.len()) =~= s.take(pat.len() as int));
            assert(s.subrange(p0, p0 + pat.len()) != pat);
            assert(false);
        }
        assert forall|p: int| 0 <= p <= s.skip(1).len() - pat.len() implies #[trigger] s.skip(
            1,
        ).subrange(p, p + pat.len()) != pat by {
            assert(s.skip(1).subrange(p, p + pat.len()) =~= s.subrange(p + 1, p + 1 + pat.len()));
        }
        lemma_replace_lit_absent(s.skip(1), pat, rep);
        assert(s.take(1) + s.skip(1) =~= s);
    }
}

/// One identifier's attribute pattern never occurs in another identifier's
/// attribute text: the pattern is closed by its final quote, so rewriting
/// one identifier's attribute occurrences leaves every other identifier's
/// untouched, even when one name extends the other.
pub proof fn lemma_attr_other_unchanged(old: Seq<u8>, other: Seq<u8>, new: Seq<u8>)
    requires
        old != other,
        forall|k: int| 0 <= k < old.len() ==> !is_quote(#[trigger] old[k]),
        forall|k: int| 0 <= k < other.len() ==> !is_quote(#[trigger] other[k]),
    ensures
        replace_lit(attr_pattern(other), attr_pattern(old), attr_pattern(new)) == attr_pattern(
            other,
        ),
{
    let s = attr_pattern(other);
    let pat = attr_pattern(old);
    assert(s.len() == other.len() + 5);
    assert(pat.len() == old.len() + 5);
    assert(s[3] == 34);
    assert(s[s.len() - 1] == 34);
    assert(forall|k: int| 4 <= k < 4 + other.len() ==> s[k] == #[trigger] other[k - 4]);
    assert(pat[3] == 34);
    assert(pat[pat.len() - 1] == 34);
    assert(forall|k: int| 4 <= k < 4 + old.len() ==> pat[k] == #[trigger] old[k - 4]);
    assert forall|p: int| 0 <= p <= s.len() - pat.len() implies #[trigger] s.subrange(
        p,
        p + pat.len(),
    ) != pat by {
        if s.subrange(p, p + pat.len()) == pat {
            assert(s.subrange(p, p + pat.len())[3] == s[p + 3]);
            assert(s[p + 3] == 34);
            if p + 3 != 3 && p + 3 != s.len() - 1 {
                assert(4 <= p + 3 < 4 + other.len());
                assert(!is_quote(other[p + 3 - 4]));
                assert(false);
            }
            if p + 3 == s.len() - 1 {
                // the pattern would run past the end of the text
                assert(pat.len() <= s.len() - p);
                assert(s.len() - p == 4);
                assert(false);
            }
            assert(p == 0);
            if old.len() == other.len() {
                assert forall|k: int| 0 <= k < old.len() implies old[k] == other[k] by {
                    assert(s.subrange(0, pat.len() as int)[k + 4] == s[k + 4]);
                }
                assert(old =~= other);
                assert(false);
            } else if old.len() < other.len() {
                // the pattern's closing quote would sit inside the other name
                assert(s.subrange(0, pat.len() as int)[pat.len() - 1] == s[pat.len() - 1]);
                assert(s[4 + old.len() as int] == other[old.len() as int]);
                assert(!is_quote(other[old.len() as int]));
                assert(false);
            } else {
                // the pattern is longer than the whole text
                assert(pat.len() > s.len());
                assert(false);
            }
        }
    }
    lemma_replace_lit_absent(s, pat, attr_pattern(new));
}

/// A whole call reference is rewritten into the same call on the
/// replacement, single-quoted, exactly when its captured argument equals
/// the original identifier; a call carrying any other quote-free argument
/// is copied unchanged. Rewriting one identifier's call references never
/// touches another's, however much the two names overlap.
pub proof fn lemma_call_reference_rewritten(
    pre: Seq<u8>,
    hash: bool,
    q: u8,
    arg: Seq<u8>,
    old: Seq<u8>,
    new: Seq<u8>,
)
    requires
        is_quote(q),
        forall|k: int| 0 <= k < arg.len() ==> !is_quote(#[trigger] arg[k]),
    ensures
        arg == old ==> rw_calls(quoted_call(pre, hash, q, arg), pre, hash, old, new)
            == call_replacement(pre, hash, new),
        arg != old ==> rw_calls(quoted_call(pre, hash, q, arg), pre, hash, old, new)
            == quoted_call(pre, hash, q, arg),
{
    let s = quoted_call(pre, hash, q, arg);
    let hl = hash_len(hash);
    assert(s.len() == pre.len() + 1 + hl + arg.len() + 1);
    assert(s.take(pre.len() as int) =~= pre);
    assert(s[pre.len() as int] == q);
    if hash {
        assert(s[pre.len() as int + 1] == 35);
    }
    let rest = s.skip(pre.len() + 1 + hl);
    assert(rest =~= arg + seq![q]);
    assert(forall|k: int| 0 <= k < arg.len() ==> rest[k] == #[trigger] arg[k]);
    assert(rest[arg.len() as int] == q);
    lemma_unquoted_len_is(rest, arg.len() as int);
    assert(call_at_front(s, pre, hash));
    assert(call_match_len(s, pre, hash) == s.len());
    assert(call_body(s, pre, hash) =~= arg);
    assert(s.skip(s.len() as int) =~= Seq::<u8>::empty());
    assert(rw_calls(Seq::<u8>::empty(), pre, hash, old, new) == Seq::<u8>::empty());
    if arg == old {
        assert(call_replacement(pre, hash, new) + Seq::<u8>::empty() =~= call_replacement(
            pre,
            hash,
            new,
        ));
    } else {
        assert(s.take(s.len() as int) =~= s);
        assert(s + Seq::<u8>::empty() =~= s);
    }
}

/// A lone `#identifier` token is rewritten to `#` and the replacement
/// exactly when its name equals the original identifier; a token naming any
/// other identifier is copied unchanged. Rewriting one identifier's tokens
/// never touches another's: the captured name is the whole token, so a name
/// that merely extends the original is a different name and stays.
pub proof fn lemma_selector_token_rewritten(tok: Seq<u8>, old: Seq<u8>, new: Seq<u8>)
    requires
        tok.len() >= 1,
        is_ascii_letter(tok[0]),
        forall|k: int| 0 <= k < tok.len() ==> is_word_byte(#[trigger] tok[k]),
    ensures
        tok == old ==> rw_hash(seq![35u8] + tok, old, new) == seq![35u8] + new,
        tok != old ==> rw_hash(seq![35u8] + tok, old, new) == seq![35u8] + tok,
{
    let s = seq![35u8] + tok;
    assert(s[0] == 35);
    assert(s[1] == tok[0]);
    assert(hash_at_front(s));
    let rest = s.skip(2);
    assert(rest =~= tok.skip(1));
    assert(forall|k: int| 0 <= k < rest.len() ==> is_word_byte(#[trigger] rest[k]));
    lemma_word_len_is(rest, rest.len() as int);
    assert(2 + word_len(s.skip(2)) == s.len());
    assert(s.subrange(1, s.len() as int) =~= tok);
    assert(s.skip(s.len() as int) =~= Seq::<u8>::empty());
    assert(rw_hash(Seq::<u8>::empty(), old, new) == Seq::<u8>::empty());
    if tok == old {
        assert((seq![35u8] + new) + Seq::<u8>::empty() =~= seq![35u8] + new);
    } else {
        assert(s.take(s.len() as int) =~= s);
        assert(s + Seq::<u8>::empty() =~= s);
    }
}

/// Whether `b` is a single or double quote byte.
fn is_quote_byte(b: u8) -> (r: bool)
    ensures
        r == is_quote(b),
{
    b == 34 || b == 39
}

/// Whether `b` is an ASCII letter.
fn is_letter_byte(b: u8) -> (r: bool)
    ensures
        r == is_ascii_letter(b),
{
    (65 <= b && b <= 90) || (97 <= b && b <= 122)
}

/// Whether `b` may continue an identifier token.
fn is_word_byte_exec(b: u8) -> (r: bool)
    ensures
        r == is_word_byte(b),
{
    is_letter_byte(b) || (48 <= b && b <= 57) || b == 95 || b == 45
}

/// Copying one unrecognized byte keeps the scan's accounting: what is built
/// so far plus the rewrite of the rest is the rewrite of the whole.
proof fn lemma_rw_calls_copy_one(
    s: Seq<u8>,
    i: int,
    out0: Seq<u8>,
    out1: Seq<u8>,
    pre: Seq<u8>,
    hash: bool,
    old: Seq<u8>,
    new: Seq<u8>,
)
    requires
        0 <= i < s.len(),
        !call_at_front(s.skip(i), pre, hash),
        out1 == out0.push(s[i]),
    ensures
        out0 + rw_calls(s.skip(i), pre, hash, old, new) == out1 + rw_calls(
            s.skip(i + 1),
            pre,
            hash,
            old,
            new,
        ),
{
    let t = s.skip(i);
    assert(t.len() > 0);
    assert(t.take(1) =~= seq![s[i]]);
    assert(t.skip(1) =~= s.skip(i + 1));
    assert(rw_calls(t, pre, hash, old, new) == t.take(1) + rw_calls(
        s.skip(i + 1),
        pre,
        hash,
        old,
        new,
    ));
    assert(out0 + (t.take(1) + rw_calls(s.skip(i + 1), pre, hash, old, new)) =~= out1 + rw_calls(
        s.skip(i + 1),
        pre,
        hash,
        old,
        new,
    ));
}

/// Rewrite every recognized call reference to `old_id` into the same call on
/// `new_id`, left to right.
#[verifier::rlimit(60)]
pub fn rewrite_calls(s: &[u8], pre: &[u8], hash: bool, old_id: &[u8], new_id: &[u8]) -> (out: Vec<
    u8,
>)
    ensures
        out@ == rw_calls(s@, pre@, hash, old_id@, new_id@),
{
    let slen = s.len();
    let plen = pre.len();
    let mut out: Vec<u8> = Vec::new();
    let mut i: usize = 0;
    proof {
        assert(s@.skip(0) =~= s@);
        assert(out@ + rw_calls(s@, pre@, hash, old_id@, new_id@) =~= rw_calls(
            s@,
            pre@,
            hash,
            old_id@,
            new_id@,
        ));
    }
    while i < slen
        invariant
            i <= slen,
            slen == s@.len(),
            plen == pre@.len(),
            rw_calls(s@, pre@, hash, old_id@, new_id@) == out@ + rw_calls(
                s@.skip(i as int),
                pre@,
                hash,
                old_id@,
                new_id@,
            ),
        decreases slen - i,
    {
        let ghost t = s@.skip(i as int);
        let ghost pre_out = out@;
        let hl: usize = if hash {
            1
        } else {
            0
        };
        if matches_at(s, i, pre) {
            let q1 = i + plen;
            let mut ok = q1 < slen && is_quote_byte(s[q1]);
            if hash && ok {
                ok = q1 + 1 < slen && s[q1 + 1] == 35;
            }
            if ok {
                let bs = q1 + 1 + hl;
                let mut j = bs;
                while j < slen && !is_quote_byte(s[j])
                    invariant
                        bs <= j <= slen,
                        slen == s@.len(),
                        forall|k: int| bs <= k < j ==> !is_quote(#[trigger] s@[k]),
                    decreases slen - j,
                {
                    j += 1;
                }
                proof {
                    assert(t.take(plen as int) =~= s@.subrange(i as int, i + plen));
                    assert(t.skip(plen + 1 + hl) =~= s@.skip(bs as int));
                    let rest = s@.skip(bs as int);
                    assert forall|k: int| 0 <= k < j - bs implies !is_quote(
                        #[trigger] rest[k],
                    ) by {
                        assert(rest[k] == s@[bs + k]);
                    }
                    if j < slen {
                        assert(rest[j - bs] == s@[j as int]);
                        lemma_unquoted_len_is(rest, j - bs);
                    } else {
                        lemma_unquoted_len_is(rest, rest.len() as int);
                    }
                }
                if j < slen {
                    proof {
                        assert(t[plen as int] == s@[q1 as int]);
                        if hash {
                            assert(t[plen as int + 1] == s@[q1 as int + 1]);
                        }
                        assert(call_at_front(t, pre@, hash));
                        assert(call_match_len(t, pre@, hash) == j + 1 - i);
                        assert(call_body(t, pre@, hash) =~= s@.subrange(bs as int, j as int));
                        assert(t.skip(j + 1 - i) =~= s@.skip(j as int + 1));
                    }
                    if j - bs == old_id.len() && matches_at(s, bs, old_id) {
                        push_all(&mut out, pre);
                        out.push(39);
                        if hash {
                            out.push(35);
                        }
                        push_all(&mut out, new_id);
                        out.push(39);
                        proof {
                            assert(s@.subrange(bs as int, j as int) =~= old_id@);
                            assert(out@ =~= pre_out + call_replacement(pre@, hash, new_id@));
                            assert(rw_calls(t, pre@, hash, old_id@, new_id@) == call_replacement(
                                pre@,
                                hash,
                                new_id@,
                            ) + rw_calls(s@.skip(j + 1), pre@, hash, old_id@, new_id@));
                            assert(pre_out + (call_replacement(pre@, hash, new_id@) + rw_calls(
                                s@.skip(j + 1),
                                pre@,
                                hash,
                                old_id@,
                                new_id@,
                            )) =~= out@ + rw_calls(s@.skip(j + 1), pre@, hash, old_id@, new_id@));
                        }
                    } else {
                        push_range(&mut out, s, i, j + 1);
                        proof {
                            if call_body(t, pre@, hash) == old_id@ {
                                assert(s@.subrange(bs as int, j as int).len() == old_id@.len());
                                assert(s@.subrange(bs as int, bs + old_id@.len()) == s@.subrange(
                                    bs as int,
                                    j as int,
                                ));
                                assert(false);
                            }
                            assert(t.take(j + 1 - i) =~= s@.subrange(i as int, j + 1));
                            assert(rw_calls(t, pre@, hash, old_id@, new_id@) == t.take(j + 1 - i)
                                + rw_calls(s@.skip(j + 1), pre@, hash, old_id@, new_id@));
                            assert(pre_out + (t.take(j + 1 - i) + rw_calls(
                                s@.skip(j + 1),
                                pre@,
                                hash,
                                old_id@,
                                new_id@,
                            )) =~= out@ + rw_calls(s@.skip(j + 1), pre@, hash, old_id@, new_id@));
                        }
                    }
                    i = j + 1;
                } else {
                    out.push(s[i]);
                    proof {
                        if call_at_front(t, pre@, hash) {
                            assert(false);
                        }
                        lemma_rw_calls_copy_one(
                            s@,
                            i as int,
                            pre_out,
                            out@,
                            pre@,
                            hash,
                            old_id@,
                            new_id@,
                        );
                    }
                    i += 1;
                }
            } else {
                out.push(s[i]);
                proof {
                    if call_at_front(t, pre@, hash) {
                        assert(t[plen as int] == s@[q1 as int]);
                        if hash {
                            assert(t[plen as int + 1] == s@[q1 as int + 1]);
                        }
                        assert(false);
                    }
                    lemma_rw_calls_copy_one(
                        s@,
                        i as int,
                        pre_out,
                        out@,
                        pre@,
                        hash,
                        old_id@,
                        new_id@,
                    );
                }
                i += 1;
            }
        } else {
            out.push(s[i]);
            proof {
                if call_at_front(t, pre@, hash) {
                    assert(t.take(plen as int) =~= s@.subrange(i as int, i + plen));
                    assert(false);
                }
                lemma_rw_calls_copy_one(s@, i as int, pre_out, out@, pre@, hash, old_id@, new_id@);
            }
            i += 1;
        }
    }
    proof {
        assert(s@.skip(slen as int) =~= Seq::<u8>::empty());
        assert(out@ + rw_calls(Seq::<u8>::empty(), pre@, hash, old_id@, new_id@) =~= out@);
    }
    out
}

/// Counterpart of `lemma_rw_calls_copy_one` for the bare-selector pass.
proof fn lemma_rw_hash_copy_one(
    s: Seq<u8>,
    i: int,
    out0: Seq<u8>,
    out1: Seq<u8>,
    old: Seq<u8>,
    new: Seq<u8>,
)
    requires
        0 <= i < s.len(),
        !hash_at_front(s.skip(i)),
        out1 == out0.push(s[i]),
    ensures
        out0 + rw_hash(s.skip(i), old, new) == out1 + rw_hash(s.skip(i + 1), old, new),
{
    let t = s.skip(i);
    assert(t.len() > 0);
    assert(t.take(1) =~= seq![s[i]]);
    assert(t.skip(1) =~= s.skip(i + 1));
    assert(rw_hash(t, old, new) == t.take(1) + rw_hash(s.skip(i + 1), old, new));
    assert(out0 + (t.take(1) + rw_hash(s.skip(i + 1), old, new)) =~= out1 + rw_hash(
        s.skip(i + 1),
        old,
        new,
    ));
}

/// Rewrite every bare `#identifier` token whose name equals `old_id` into
/// `#` followed by `new_id`, left to right.
pub fn rewrite_hash_selectors(s: &[u8], old_id: &[u8], new_id: &[u8]) -> (out: Vec<u8>)
    ensures
        out@ == rw_hash(s@, old_id@, new_id@),
{
    let slen = s.len();
    let mut out: Vec<u8> = Vec::new();
    let mut i: usize = 0;
    proof {
        assert(s@.skip(0) =~= s@);
        assert(out@ + rw_hash(s@, old_id@, new_id@) =~= rw_hash(s@, old_id@, new_id@));
    }
    while i < slen
        invariant
            i <= slen,
            slen == s@.len(),
            rw_hash(s@, old_id@, new_id@) == out@ + rw_hash(s@.skip(i as int), old_id@, new_id@),
        decreases slen - i,
    {
        let ghost t = s@.skip(i as int);
        let ghost pre_out = out@;
        if s[i] == 35 && i + 1 < slen && is_letter_byte(s[i + 1]) {
            let mut j = i + 2;
            while j < slen && is_word_byte_exec(s[j])
                invariant
                    i + 2 <= j <= slen,
                    slen == s@.len(),
                    forall|k: int| i + 2 <= k < j ==> is_word_byte(#[trigger] s@[k]),
                decreases slen - j,
            {
                j += 1;
            }
            proof {
                let rest = s@.skip(i + 2);
                assert forall|k: int| 0 <= k < j - i - 2 implies is_word_byte(
                    #[trigger] rest[k],
                ) by {
                    assert(rest[k] == s@[i + 2 + k]);
                }
                if j < slen {
                    assert(rest[j - i - 2] == s@[j as int]);
                    lemma_word_len_is(rest, j - i - 2);
                } else {
                    lemma_word_len_is(rest, rest.len() as int);
                }
                assert(t[0] == s@[i as int]);
                assert(t[1] == s@[i as int + 1]);
                assert(t.skip(2) =~= rest);
                assert(hash_at_front(t));
                assert(t.subrange(1, j - i) =~= s@.subrange(i + 1, j as int));
                assert(t.skip(j - i) =~= s@.skip(j as int));
            }
            if j - (i + 1) == old_id.len() && matches_at(s, i + 1, old_id) {
                out.push(35);
                push_all(&mut out, new_id);
                proof {
                    assert(s@.subrange(i + 1, j as int) =~= old_id@);
                    assert(rw_hash(t, old_id@, new_id@) == (seq![35u8] + new_id@) + rw_hash(
                        s@.skip(j as int),
                        old_id@,
                        new_id@,
                    ));
                    assert(out@ =~= pre_out + (seq![35u8] + new_id@));
                    assert(pre_out + ((seq![35u8] + new_id@) + rw_hash(
                        s@.skip(j as int),
                        old_id@,
                        new_id@,
                    )) =~= out@ + rw_hash(s@.skip(j as int), old_id@, new_id@));
                }
            } else {
                push_range(&mut out, s, i, j);
                proof {
                    if t.subrange(1, j - i) == old_id@ {
                        assert(s@.subrange(i + 1, j as int).len() == old_id@.len());
                        assert(s@.subrange(i + 1, i + 1 + old_id@.len()) == s@.subrange(
                            i + 1,
                            j as int,
                        ));
                        assert(false);
                    }
                    assert(t.take(j - i) =~= s@.subrange(i as int, j as int));
                    assert(rw_hash(t, old_id@, new_id@) == t.take(j - i) + rw_hash(
                        s@.skip(j as int),
                        old_id@,
                        new_id@,
                    ));
                    assert(pre_out + (t.take(j - i) + rw_hash(s@.skip(j as int), old_id@, new_id@))
                        =~= out@ + rw_hash(s@.skip(j as int), old_id@, new_id@));
                }
            }
            i = j;
        } else {
            out.push(s[i]);
            proof {
                if hash_at_front(t) {
                    assert(t[0] == s@[i as int]);
                    assert(t[1] == s@[i as int + 1]);
                    assert(false);
                }
                lemma_rw_hash_copy_one(s@, i as int, pre_out, out@, old_id@, new_id@);
            }
            i += 1;
        }
    }
    proof {
        assert(s@.skip(slen as int) =~= Seq::<u8>::empty());
        assert(out@ + rw_hash(Seq::<u8>::empty(), old_id@, new_id@) =~= out@);
    }
    out
}

/// Exact, non-overlapping, left-to-right replacement of `pat` by `rep`.
pub fn replace_literal(s: &[u8], pat: &[u8], rep: &[u8]) -> (out: Vec<u8>)
    ensures
        out@ == replace_lit(s@, pat@, rep@),
{
    let slen = s.len();
    let plen = pat.len();
    let mut out: Vec<u8> = Vec::new();
    if plen == 0 {
        push_all(&mut out, s);
        return out;
    }
    let mut i: usize = 0;
    proof {
        assert(s@.skip(0) =~= s@);
        assert(out@ + replace_lit(s@, pat@, rep@) =~= replace_lit(s@, pat@, rep@));
    }
    while i < slen
        invariant
            i <= slen,
            slen == s@.len(),
            plen == pat@.len(),
            plen >= 1,
            replace_lit(s@, pat@, rep@) == out@ + replace_lit(s@.skip(i as int), pat@, rep@),
        decreases slen - i,
    {
        let ghost t = s@.skip(i as int);
        let ghost pre_out = out@;
        if matches_at(s, i, pat) {
            push_all(&mut out, rep);
            i = i + plen;
            proof {
                assert(t.take(plen as int) =~= s@.subrange(i - plen, i as int));
                assert(t.skip(plen as int) =~= s@.skip(i as int));
                assert(replace_lit(t, pat@, rep@) == rep@ + replace_lit(
                    s@.skip(i as int),
                    pat@,
                    rep@,
                ));
                assert(pre_out + (rep@ + replace_lit(s@.skip(i as int), pat@, rep@)) =~= out@
                    + replace_lit(s@.skip(i as int), pat@, rep@));
            }
        } else {
            out.push(s[i]);
            i = i + 1;
            proof {
                if t.len() >= plen && t.take(plen as int) == pat@ {
                    assert(t.take(plen as int) =~= s@.subrange(i - 1, i - 1 + plen));
                    assert(false);
                }
                assert(t.take(1) =~= seq![s@[i - 1]]);
                assert(t.skip(1) =~= s@.skip(i as int));
                assert(replace_lit(t, pat@, rep@) == t.take(1) + replace_lit(
                    s@.skip(i as int),
                    pat@,
                    rep@,
                ));
                assert(pre_out + (t.take(1) + replace_lit(s@.skip(i as int), pat@, rep@)) =~= out@
                    + replace_lit(s@.skip(i as int), pat@, rep@));
            }
        }
    }
    proof {
        assert(s@.skip(slen as int) =~= Seq::<u8>::empty());
        assert(out@ + replace_lit(Seq::<u8>::empty(), pat@, rep@) =~= out@);
    }
    out
}

} // verus!
