//! Subjects: dot-separated routing keys, their tokens, their validity and
//! the matching of a literal subject against a subscription pattern.
//!
//! A subject is a byte string. It is cut at every `.` into tokens, so a
//! subject always has at least one token and a leading, trailing or doubled
//! dot shows as an empty token. Two tokens are reserved: `*` stands for
//! exactly one token and `>` for one or more trailing tokens. Every other
//! token is opaque and is compared byte by byte.

use crate::text::{bytes_eq, pieces, views, Split};
use vstd::prelude::*;

verus! {

/// The partial wildcard `*`.
pub const PWC: u8 = 42;

/// The full wildcard `>`.
pub const FWC: u8 = 62;

/// The token separator `.`.
pub const BTSEP: u8 = 46;

/// The tokens of a subject: what stands between its separators, in order.
pub open spec fn tokens(s: Seq<u8>) -> Seq<Seq<u8>> {
    pieces(s, BTSEP)
}

/// The token `*`.
pub open spec fn pwc_token() -> Seq<u8> {
    seq![PWC]
}

/// The token `>`.
pub open spec fn fwc_token() -> Seq<u8> {
    seq![FWC]
}

/// Whether a token is one of the two reserved wildcards.
pub open spec fn is_wildcard(t: Seq<u8>) -> bool {
    t == pwc_token() || t == fwc_token()
}

/// Tokens of a subject that may be subscribed to: none is empty, and the
/// token `>` stands only in the last place. Every other token, `*` among
/// them, may stand anywhere.
pub open spec fn valid_subject_tokens(t: Seq<Seq<u8>>) -> bool {
    forall|i: int|
        0 <= i < t.len() ==> {
            &&& (#[trigger] t[i]).len() > 0
            &&& (t[i] == fwc_token() ==> i == t.len() - 1)
        }
}

/// Tokens of a subject that may be published to: none is empty and none is a
/// wildcard.
pub open spec fn valid_literal_tokens(t: Seq<Seq<u8>>) -> bool {
    forall|i: int| 0 <= i < t.len() ==> (#[trigger] t[i]).len() > 0 && !is_wildcard(t[i])
}

/// A subject that may be subscribed to.
pub open spec fn valid_subject(s: Seq<u8>) -> bool {
    s.len() > 0 && valid_subject_tokens(tokens(s))
}

/// A subject that may be published to.
pub open spec fn valid_literal_subject(s: Seq<u8>) -> bool {
    s.len() > 0 && valid_literal_tokens(tokens(s))
}

/// A subject that may be published to may be subscribed to: it is a valid
/// subject that, beyond that, has no wildcard among its tokens.
pub proof fn lemma_literal_is_valid(s: Seq<u8>)
    ensures
        valid_literal_subject(s) <==> valid_subject(s) && forall|i: int|
            0 <= i < tokens(s).len() ==> !is_wildcard(#[trigger] tokens(s)[i]),
{
    let t = tokens(s);
    if valid_literal_subject(s) {
        assert forall|i: int| 0 <= i < t.len() implies (#[trigger] t[i]).len() > 0 && (t[i]
            == fwc_token() ==> i == t.len() - 1) by {
            assert(!is_wildcard(t[i]));
        }
    }
    if valid_subject(s) && forall|i: int| 0 <= i < t.len() ==> !is_wildcard(#[trigger] t[i]) {
        assert forall|i: int| 0 <= i < t.len() implies (#[trigger] t[i]).len() > 0 && !is_wildcard(
            t[i],
        ) by {}
    }
}

/// Whether the tokens `lit` of a literal subject are matched by the tokens
/// `pat` of a pattern. Token by token, a pattern token matches an equal
/// token, `*` matches any one token, and `>` matches whatever is left,
/// which is at least one token. Both run out together or there is no match.
pub open spec fn tokens_match(lit: Seq<Seq<u8>>, pat: Seq<Seq<u8>>) -> bool
    decreases lit.len(),
{
    if lit.len() == 0 {
        pat.len() == 0
    } else if pat.len() == 0 {
        false
    } else if lit[0] == pat[0] || pat[0] == pwc_token() {
        tokens_match(lit.drop_first(), pat.drop_first())
    } else {
        pat[0] == fwc_token()
    }
}

/// Whether the literal subject `literal` is matched by the pattern `pattern`.
pub open spec fn subject_matches(literal: Seq<u8>, pattern: Seq<u8>) -> bool {
    tokens_match(tokens(literal), tokens(pattern))
}

/// Whether the tokens `path` of a pattern match the tokens of `lit` that
/// they stand beside: each is the token beside it or is `*`.
pub open spec fn beside(lit: Seq<Seq<u8>>, path: Seq<Seq<u8>>) -> bool {
    path.len() <= lit.len() && forall|j: int|
        0 <= j < path.len() ==> lit[j] == #[trigger] path[j] || path[j] == pwc_token()
}

/// Matching can leave out the first `k` tokens of both sides where each of
/// those pattern tokens is the token beside it or is `*`.
pub proof fn lemma_match_skip(lit: Seq<Seq<u8>>, pat: Seq<Seq<u8>>, k: int)
    requires
        0 <= k <= lit.len(),
        k <= pat.len(),
        forall|j: int| 0 <= j < k ==> lit[j] == #[trigger] pat[j] || pat[j] == pwc_token(),
    ensures
        tokens_match(lit, pat) == tokens_match(lit.skip(k), pat.skip(k)),
    decreases k,
{
    if k == 0 {
        assert(lit.skip(0) =~= lit);
        assert(pat.skip(0) =~= pat);
    } else {
        let lit_rest = lit.drop_first();
        let pat_rest = pat.drop_first();
        assert(lit[0] == pat[0] || pat[0] == pwc_token());
        assert forall|j: int| 0 <= j < k - 1 implies lit_rest[j] == #[trigger] pat_rest[j] || pat_rest[j]
            == pwc_token() by {
            assert(pat_rest[j] == pat[j + 1]);
            assert(lit_rest[j] == lit[j + 1]);
        }
        lemma_match_skip(lit_rest, pat_rest, k - 1);
        assert(lit_rest.skip(k - 1) =~= lit.skip(k));
        assert(pat_rest.skip(k - 1) =~= pat.skip(k));
    }
}

/// A pattern of as many tokens as the subject matches it where each of its
/// tokens is the token beside it or is `*`.
pub proof fn lemma_token_for_token(lit: Seq<Seq<u8>>, pat: Seq<Seq<u8>>)
    requires
        pat.len() == lit.len(),
        beside(lit, pat),
    ensures
        tokens_match(lit, pat),
{
    lemma_match_skip(lit, pat, lit.len() as int);
}

/// A pattern without `>` does not match a subject of more tokens: `*`
/// stands for one token and no more.
pub proof fn lemma_no_match_beyond(lit: Seq<Seq<u8>>, pat: Seq<Seq<u8>>)
    requires
        pat.len() < lit.len(),
        beside(lit, pat),
    ensures
        !tokens_match(lit, pat),
{
    lemma_match_skip(lit, pat, pat.len() as int);
}

/// A pattern that ends in `>` matches a subject without wildcards just
/// when the tokens before the `>` match the first tokens of the subject
/// and the subject goes on after them: `>` stands for one token or more,
/// and not for none.
pub proof fn lemma_full_wildcard(lit: Seq<Seq<u8>>, head: Seq<Seq<u8>>)
    requires
        valid_literal_tokens(lit),
        beside(lit, head),
    ensures
        tokens_match(lit, head.push(fwc_token())) <==> lit.len() > head.len(),
{
    let pat = head.push(fwc_token());
    let k = head.len() as int;
    assert forall|j: int| 0 <= j < k implies lit[j] == #[trigger] pat[j] || pat[j]
        == pwc_token() by {
        assert(pat[j] == head[j]);
    }
    lemma_match_skip(lit, pat, k);
    let rest = lit.skip(k);
    let left = pat.skip(k);
    assert(left.len() == 1 && left[0] == fwc_token());
    assert(pwc_token() != fwc_token()) by {
        assert(pwc_token()[0] != fwc_token()[0]);
    }
    if lit.len() > k {
        assert(rest[0] == lit[k]);
        assert(!is_wildcard(lit[k]));
    }
}

/// Starts a walk over the tokens of `subject`.
pub fn split_subject<'a>(subject: &'a [u8]) -> (split: Split<'a>)
    ensures
        split.remaining() == tokens(subject@),
{
    Split::new(subject, BTSEP)
}

/// The tokens of `subject`, each as a vector of its own.
pub fn split_tokens(subject: &[u8]) -> (toks: Vec<Vec<u8>>)
    ensures
        views(toks@) == tokens(subject@),
{
    let mut split = split_subject(subject);
    let mut toks: Vec<Vec<u8>> = Vec::new();
    assert(views(toks@) =~= Seq::<Seq<u8>>::empty());
    loop
        invariant
            views(toks@) + split.remaining() == tokens(subject@),
        ensures
            views(toks@) == tokens(subject@),
        decreases split.remaining().len(),
    {
        let ghost before = views(toks@);
        let ghost rest = split.remaining();
        match split.next() {
            Some(t) => {
                let v = vstd::slice::slice_to_vec(t);
                toks.push(v);
                assert(views(toks@) =~= before.push(t@));
                assert(before.push(t@) + rest.drop_first() =~= before + rest);
            },
            None => {
                assert(before + rest =~= before);
                break ;
            },
        }
    }
    toks
}

/// Whether `subject` may be subscribed to: it is not empty, none of its
/// tokens is empty, and the token `>` stands only in the last place.
pub fn is_valid_subject(subject: &[u8]) -> (valid: bool)
    ensures
        valid == valid_subject(subject@),
{
    if subject.len() == 0 {
        return false;
    }
    let mut split = split_subject(subject);
    let ghost all = tokens(subject@);
    let mut seen: Ghost<int> = Ghost(0);
    loop
        invariant
            0 <= seen@ <= all.len(),
            all == tokens(subject@),
            split.remaining() == all.skip(seen@),
            forall|i: int|
                0 <= i < seen@ ==> (#[trigger] all[i]).len() > 0 && (all[i] == fwc_token() ==> i
                    == all.len() - 1),
        ensures
            valid_subject_tokens(all),
        decreases all.len() - seen@,
    {
        match split.next() {
            Some(t) => {
                assert(t@ == all[seen@]);
                assert(all.skip(seen@).drop_first() =~= all.skip(seen@ + 1));
                if t.len() == 0 {
                    return false;
                }
                if t.len() == 1 && t[0] == FWC {
                    assert(t@ =~= fwc_token());
                    if split.has_next() {
                        return false;
                    }
                } else {
                    assert(fwc_token().len() == 1 && fwc_token()[0] == FWC);
                }
                proof {
                    seen@ = seen@ + 1;
                }
            },
            None => {
                break ;
            },
        }
    }
    true
}

/// Whether `subject` may be published to: it may be subscribed to, and
/// none of its tokens is `*` or `>`. So it is not empty and none of its
/// tokens is empty.
pub fn is_valid_literal_subject(subject: &[u8]) -> (valid: bool)
    ensures
        valid == valid_literal_subject(subject@),
        valid ==> valid_subject(subject@),
{
    proof {
        lemma_literal_is_valid(subject@);
    }
    if subject.len() == 0 {
        return false;
    }
    let mut split = split_subject(subject);
    let ghost all = tokens(subject@);
    let mut seen: Ghost<int> = Ghost(0);
    loop
        invariant
            0 <= seen@ <= all.len(),
            all == tokens(subject@),
            split.remaining() == all.skip(seen@),
            forall|i: int| 0 <= i < seen@ ==> (#[trigger] all[i]).len() > 0 && !is_wildcard(all[i]),
        ensures
            valid_literal_tokens(all),
        decreases all.len() - seen@,
    {
        match split.next() {
            Some(t) => {
                assert(t@ == all[seen@]);
                assert(all.skip(seen@).drop_first() =~= all.skip(seen@ + 1));
                if t.len() == 0 {
                    return false;
                }
                if t.len() == 1 && (t[0] == FWC || t[0] == PWC) {
                    assert(t@ =~= seq![t@[0]]);
                    return false;
                }
                proof {
                    if t@.len() == 1 {
                        assert(pwc_token()[0] == PWC);
                        assert(fwc_token()[0] == FWC);
                    } else {
                        assert(pwc_token().len() == 1);
                        assert(fwc_token().len() == 1);
                    }
                    seen@ = seen@ + 1;
                }
            },
            None => {
                break ;
            },
        }
    }
    true
}

/// Whether `literal`, a subject without wildcards, is matched by the
/// subscription pattern `subject`.
pub fn match_literal(literal: &[u8], subject: &[u8]) -> (matched: bool)
    ensures
        matched == subject_matches(literal@, subject@),
{
    let mut literal_iter = split_subject(literal);
    let mut subject_iter = split_subject(subject);
    loop
        invariant
            tokens_match(literal_iter.remaining(), subject_iter.remaining()) == subject_matches(
                literal@,
                subject@,
            ),
        decreases literal_iter.remaining().len(),
    {
        match literal_iter.next() {
            None => {
                return !subject_iter.has_next();
            },
            Some(lit) => {
                match subject_iter.next() {
                    None => {
                        return false;
                    },
                    Some(pat) => {
                        if bytes_eq(lit, pat) {
                            continue ;
                        }
                        if pat.len() == 1 && pat[0] == PWC {
                            assert(pat@ =~= pwc_token());
                            continue ;
                        }
                        proof {
                            if pat@ == pwc_token() {
                                assert(pwc_token().len() == 1 && pwc_token()[0] == PWC);
                            }
                        }
                        if pat.len() == 1 && pat[0] == FWC {
                            assert(pat@ =~= fwc_token());
                            return true;
                        }
                        proof {
                            if pat@ == fwc_token() {
                                assert(fwc_token().len() == 1 && fwc_token()[0] == FWC);
                            }
                        }
                        return false;
                    },
                }
            },
        }
    }
}

} // verus!
