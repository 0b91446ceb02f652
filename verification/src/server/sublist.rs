//! The subscription index: a trie over the tokens of the subscribed
//! subjects, and in front of it a cache of the results of matching.
//!
//! A level of the trie has a child for each token that a subscribed subject
//! has at that depth: one for `*`, one for `>`, and one for each other
//! token. A node holds the subscriptions whose subject ends there, and the
//! next level for those that go on. A node that holds nothing and leads
//! nowhere is taken out of the trie.
//!
//! With the subscriptions `foo.>`, `foo.*` and `foo.bar.aa` the trie is
//!
//! ```text
//!        foo
//!      /  |  \
//!     *   >   bar
//!              |
//!              aa
//! ```
//!
//! and a message on `foo.ff` goes to the first two.

use crate::error::{NError, ERROR_INVALID_SUBJECT, ERROR_SUBSCRIBTION_NOT_FOUND};
use crate::server::cache::{after_change, kept_find, kept_put, Kept, SubResultCache};
use crate::server::simple_sublist::{
    arc_clone, lemma_members_empty, matching, ArcSubResult, ArcSubscription, SubListTrait,
    SubResult, Subscription, SubscriptionView,
};
use crate::subject::{
    beside, fwc_token, is_valid_subject, is_wildcard, lemma_match_skip, pwc_token, split_tokens,
    subject_matches, tokens, tokens_match, valid_literal_tokens, valid_subject,
    valid_subject_tokens, FWC, PWC,
};
use crate::text::{bytes_eq, lemma_pieces_nonempty, views};
use std::sync::Arc;
use vstd::prelude::*;

verus! {

/// A node of the trie: the subscriptions whose subject ends here, and the
/// level below.
#[derive(Debug)]
pub struct TrieNode {
    next: Option<Box<Level>>,
    held: SubResult,
}

/// A child of a level under a token that is no wildcard.
#[derive(Debug)]
pub struct Branch {
    token: Vec<u8>,
    node: TrieNode,
}

/// A level of the trie: the child under `*`, the child under `>`, and the
/// children under the other tokens.
#[derive(Debug)]
pub struct Level {
    pwc: Option<Box<TrieNode>>,
    fwc: Option<Box<TrieNode>>,
    nodes: Vec<Branch>,
}

/// The subscriptions at and below a node.
pub closed spec fn node_set(n: TrieNode) -> Set<SubscriptionView>
    decreases n,
{
    n.held@.members().union(
        match n.next {
            Some(l) => level_set(*l),
            None => Set::empty(),
        },
    )
}

/// The subscriptions below an optional child.
pub closed spec fn slot_set(slot: Option<Box<TrieNode>>) -> Set<SubscriptionView>
    decreases slot,
{
    match slot {
        Some(n) => node_set(*n),
        None => Set::empty(),
    }
}

/// The subscriptions below the children under tokens that are no wildcards.
pub closed spec fn branches_set(bs: Seq<Branch>) -> Set<SubscriptionView>
    decreases bs,
{
    Set::new(
        |s: SubscriptionView|
            exists|i: int| 0 <= i < bs.len() && node_set((#[trigger] bs[i]).node).contains(s),
    )
}

/// The subscriptions below a level.
pub closed spec fn level_set(l: Level) -> Set<SubscriptionView>
    decreases l,
{
    slot_set(l.pwc).union(slot_set(l.fwc)).union(branches_set(l.nodes@))
}

/// Whether a node holds nothing and leads nowhere.
pub closed spec fn node_is_empty(n: TrieNode) -> bool {
    n.held@.psubs.len() == 0 && n.held@.qsubs.len() == 0 && n.next is None
}

/// Whether a level has no child.
pub closed spec fn level_is_empty(l: Level) -> bool {
    l.pwc is None && l.fwc is None && l.nodes@.len() == 0
}

/// What holds of a node that is reached by the tokens `path`: it holds
/// subscriptions to just the subject of these tokens, and the level below,
/// if there is one, is in order and has a child.
pub closed spec fn node_wf(n: TrieNode, path: Seq<Seq<u8>>) -> bool
    decreases n,
{
    &&& n.held@.wf()
    &&& forall|s: SubscriptionView| #[trigger]
        n.held@.members().contains(s) ==> tokens(s.subject) == path
    &&& match n.next {
        Some(l) => level_wf(*l, path) && !level_is_empty(*l),
        None => true,
    }
}

/// What holds of an optional child under the token `token`.
pub closed spec fn slot_wf(slot: Option<Box<TrieNode>>, path: Seq<Seq<u8>>, token: Seq<u8>) -> bool
    decreases slot,
{
    match slot {
        Some(n) => node_wf(*n, path.push(token)) && !node_is_empty(*n),
        None => true,
    }
}

/// What holds of the children under tokens that are no wildcards: each is
/// in order and not empty, and no two are under the same token.
pub closed spec fn branches_wf(bs: Seq<Branch>, path: Seq<Seq<u8>>) -> bool
    decreases bs,
{
    &&& forall|i: int|
        0 <= i < bs.len() ==> {
            &&& !is_wildcard((#[trigger] bs[i]).token@)
            &&& node_wf(bs[i].node, path.push(bs[i].token@))
            &&& !node_is_empty(bs[i].node)
        }
    &&& forall|i: int, j: int|
        0 <= i < j < bs.len() ==> (#[trigger] bs[i]).token@ != (#[trigger] bs[j]).token@
}

/// What holds of a level that is reached by the tokens `path`: its
/// children are in order and none is empty, and nothing goes on below `>`.
pub closed spec fn level_wf(l: Level, path: Seq<Seq<u8>>) -> bool
    decreases l,
{
    &&& slot_wf(l.pwc, path, pwc_token())
    &&& slot_wf(l.fwc, path, fwc_token())
    &&& (l.fwc matches Some(n) ==> n.next is None)
    &&& branches_wf(l.nodes@, path)
}

/// Whether `path` is how the tokens `t` begin.
pub open spec fn begins_with(t: Seq<Seq<u8>>, path: Seq<Seq<u8>>) -> bool {
    path.len() <= t.len() && t.take(path.len() as int) == path
}

/// The subject of a subscription at or below a node begins with the
/// tokens that lead to the node.
proof fn lemma_node_path(n: TrieNode, path: Seq<Seq<u8>>, s: SubscriptionView)
    requires
        node_wf(n, path),
        node_set(n).contains(s),
    ensures
        begins_with(tokens(s.subject), path),
        n.held@.members().contains(s) <==> tokens(s.subject) == path,
    decreases n, 1int,
{
    if n.held@.members().contains(s) {
        assert(tokens(s.subject).take(path.len() as int) =~= path);
    } else {
        match n.next {
            Some(l) => {
                lemma_level_path(*l, path, s);
            },
            None => {},
        }
    }
}

/// The subject of a subscription below a level begins with the tokens that
/// lead to the level and has one token more, which is the token of the
/// child that the subscription is under.
proof fn lemma_level_path(l: Level, path: Seq<Seq<u8>>, s: SubscriptionView)
    requires
        level_wf(l, path),
        level_set(l).contains(s),
    ensures
        begins_with(tokens(s.subject), path),
        tokens(s.subject).len() > path.len(),
        slot_set(l.pwc).contains(s) <==> tokens(s.subject)[path.len() as int] == pwc_token(),
        slot_set(l.fwc).contains(s) <==> tokens(s.subject)[path.len() as int] == fwc_token(),
        forall|i: int|
            0 <= i < l.nodes@.len() ==> (node_set((#[trigger] l.nodes@[i]).node).contains(s)
                <==> tokens(s.subject)[path.len() as int] == l.nodes@[i].token@),
    decreases l, 0int,
{
    let t = tokens(s.subject);
    let d = path.len() as int;
    let bs = l.nodes@;
    assert(pwc_token() != fwc_token()) by {
        assert(pwc_token()[0] != fwc_token()[0]);
    }
    assert(is_wildcard(pwc_token()) && is_wildcard(fwc_token()));
    let in_p = slot_set(l.pwc).contains(s);
    let in_f = slot_set(l.fwc).contains(s);
    let in_b = branches_set(bs).contains(s);
    assert(in_p || in_f || in_b);
    assert(branches_wf(bs, path));
    if in_p {
        let n = l.pwc->Some_0;
        assert(slot_wf(l.pwc, path, pwc_token()));
        lemma_node_path(*n, path.push(pwc_token()), s);
        lemma_begins_longer(t, path, pwc_token());
    }
    if in_f {
        let n = l.fwc->Some_0;
        assert(slot_wf(l.fwc, path, fwc_token()));
        lemma_node_path(*n, path.push(fwc_token()), s);
        lemma_begins_longer(t, path, fwc_token());
    }
    assert forall|i: int| 0 <= i < bs.len() && node_set((#[trigger] bs[i]).node).contains(
        s,
    ) implies begins_with(t, path) && t.len() > d && t[d] == bs[i].token@ by {
        assert(!is_wildcard(bs[i].token@));
        lemma_node_path(bs[i].node, path.push(bs[i].token@), s);
        lemma_begins_longer(t, path, bs[i].token@);
    }
    if in_b {
        let i = choose|i: int| 0 <= i < bs.len() && node_set((#[trigger] bs[i]).node).contains(s);
        assert(t[d] == bs[i].token@);
        assert(!is_wildcard(bs[i].token@));
        assert forall|k: int| 0 <= k < bs.len() && t[d] == (#[trigger] bs[k]).token@ implies node_set(
            bs[k].node,
        ).contains(s) by {
            if k != i {
                if k < i {
                    assert(bs[k].token@ != bs[i].token@);
                } else {
                    assert(bs[i].token@ != bs[k].token@);
                }
            }
        }
    } else {
        assert forall|k: int| 0 <= k < bs.len() implies t[d] != (#[trigger] bs[k]).token@ by {
            assert(!is_wildcard(bs[k].token@));
        }
    }
}

/// Tokens that begin with a path and one token more begin with the path,
/// go on beyond it, and have that token next.
pub proof fn lemma_begins_longer(t: Seq<Seq<u8>>, path: Seq<Seq<u8>>, token: Seq<u8>)
    requires
        begins_with(t, path.push(token)),
    ensures
        begins_with(t, path),
        t.len() > path.len(),
        t[path.len() as int] == token,
{
    let p = path.push(token);
    assert(t.take(p.len() as int)[path.len() as int] == token);
    assert(t.take(path.len() as int) =~= path) by {
        assert forall|k: int| 0 <= k < path.len() implies t[k] == path[k] by {
            assert(t.take(p.len() as int)[k] == p[k]);
        }
    }
}

/// The subscriptions among `subs` whose subject is matched by the tokens
/// `lit` of a literal subject.
pub open spec fn matched(subs: Set<SubscriptionView>, lit: Seq<Seq<u8>>) -> Set<SubscriptionView> {
    Set::new(|s: SubscriptionView| subs.contains(s) && tokens_match(lit, tokens(s.subject)))
}

/// Whether a subject with the tokens `pat`, which begin with `path`, is
/// matched by `lit`, where `path` stands beside the first tokens of `lit`:
/// what is left of `lit` decides against what is left of `pat`.
proof fn lemma_match_below(lit: Seq<Seq<u8>>, pat: Seq<Seq<u8>>, path: Seq<Seq<u8>>)
    requires
        beside(lit, path),
        begins_with(pat, path),
    ensures
        tokens_match(lit, pat) == tokens_match(
            lit.skip(path.len() as int),
            pat.skip(path.len() as int),
        ),
{
    let k = path.len() as int;
    assert forall|j: int| 0 <= j < k implies lit[j] == #[trigger] pat[j] || pat[j]
        == pwc_token() by {
        assert(pat.take(k)[j] == path[j]);
    }
    lemma_match_skip(lit, pat, k);
}

impl TrieNode {
    /// A node that holds nothing and leads nowhere.
    pub fn new() -> (n: Self)
        ensures
            node_is_empty(n),
            node_set(n) == Set::<SubscriptionView>::empty(),
            forall|path: Seq<Seq<u8>>| node_wf(n, path),
    {
        let n = TrieNode { next: None, held: SubResult::new() };
        assert(node_set(n) =~= Set::<SubscriptionView>::empty());
        assert forall|path: Seq<Seq<u8>>| node_wf(n, path) by {}
        n
    }

    /// Whether the node holds nothing and leads nowhere.
    pub fn is_empty(&self) -> (empty: bool)
        ensures
            empty == node_is_empty(*self),
    {
        self.held.is_empty() && self.next.is_none()
    }
}

impl Level {
    /// A level without children.
    pub fn new() -> (l: Self)
        ensures
            level_is_empty(l),
            level_set(l) == Set::<SubscriptionView>::empty(),
            forall|path: Seq<Seq<u8>>| level_wf(l, path),
    {
        let l = Level { pwc: None, fwc: None, nodes: Vec::new() };
        assert(level_set(l) =~= Set::<SubscriptionView>::empty());
        assert forall|path: Seq<Seq<u8>>| level_wf(l, path) by {}
        l
    }

    /// Whether the level has no child.
    pub fn is_empty(&self) -> (empty: bool)
        ensures
            empty == level_is_empty(*self),
    {
        self.pwc.is_none() && self.fwc.is_none() && self.nodes.len() == 0
    }
}

/// The place of the child under `token`, if there is one.
fn find_branch(nodes: &Vec<Branch>, token: &[u8]) -> (at: Option<usize>)
    ensures
        match at {
            Some(k) => k < nodes@.len() && nodes@[k as int].token@ == token@,
            None => forall|k: int| 0 <= k < nodes@.len() ==> (#[trigger] nodes@[k]).token@ != token@,
        },
{
    let mut k: usize = 0;
    while k < nodes.len()
        invariant
            k <= nodes@.len(),
            forall|j: int| 0 <= j < k ==> (#[trigger] nodes@[j]).token@ != token@,
        decreases nodes@.len() - k,
    {
        if bytes_eq(nodes[k].token.as_slice(), token) {
            return Some(k);
        }
        k += 1;
    }
    None
}

/// Whether a token is `*`.
fn is_pwc(token: &[u8]) -> (b: bool)
    ensures
        b == (token@ == pwc_token()),
{
    if token.len() == 1 && token[0] == PWC {
        assert(token@ =~= pwc_token());
        true
    } else {
        assert(pwc_token().len() == 1 && pwc_token()[0] == PWC);
        false
    }
}

/// Whether a token is `>`.
fn is_fwc(token: &[u8]) -> (b: bool)
    ensures
        b == (token@ == fwc_token()),
{
    if token.len() == 1 && token[0] == FWC {
        assert(token@ =~= fwc_token());
        true
    } else {
        assert(fwc_token().len() == 1 && fwc_token()[0] == FWC);
        false
    }
}

/// Adds to `r` the subscriptions at and below the node `n` that the tokens
/// `toks` match. The node stands under the token at `i`.
fn match_node(
    n: &TrieNode,
    toks: &Vec<Vec<u8>>,
    i: usize,
    r: &mut SubResult,
    Ghost(path): Ghost<Seq<Seq<u8>>>,
)
    requires
        node_wf(*n, path),
        path.len() == i + 1,
        i < toks@.len(),
        beside(views(toks@), path),
        valid_literal_tokens(views(toks@)),
        old(r)@.wf(),
    ensures
        final(r)@.wf(),
        final(r)@.members() == old(r)@.members().union(matched(node_set(*n), views(toks@))),
    decreases toks@.len() - i, 0int,
{
    let ghost lit = views(toks@);
    let ghost before = r@.members();
    if i == toks.len() - 1 {
        r.add_all(&n.held);
        proof {
            assert forall|s: SubscriptionView| matched(node_set(*n), lit).contains(s)
                <==> n.held@.members().contains(s) by {
                if node_set(*n).contains(s) {
                    lemma_node_match(*n, path, lit, s);
                }
            }
            assert(r@.members() =~= before.union(matched(node_set(*n), lit)));
        }
    } else {
        match &n.next {
            Some(l) => {
                match_level(l, toks, i + 1, r, Ghost(path));
                proof {
                    assert forall|s: SubscriptionView| matched(node_set(*n), lit).contains(s)
                        <==> matched(level_set(**l), lit).contains(s) by {
                        if node_set(*n).contains(s) {
                            lemma_node_match(*n, path, lit, s);
                        }
                    }
                    assert(r@.members() =~= before.union(matched(node_set(*n), lit)));
                }
            },
            None => {
                proof {
                    assert forall|s: SubscriptionView| !matched(node_set(*n), lit).contains(s) by {
                        if node_set(*n).contains(s) {
                            lemma_node_match(*n, path, lit, s);
                        }
                    }
                    assert(r@.members() =~= before.union(matched(node_set(*n), lit)));
                }
            },
        }
    }
}

/// Whether a subscription at or below a node is matched: where the node
/// stands under the last token of the subject, just those at the node
/// are; where it does not, none at the node is.
proof fn lemma_node_match(n: TrieNode, path: Seq<Seq<u8>>, lit: Seq<Seq<u8>>, s: SubscriptionView)
    requires
        node_wf(n, path),
        beside(lit, path),
        node_set(n).contains(s),
    ensures
        path.len() == lit.len() ==> (tokens_match(lit, tokens(s.subject))
            <==> n.held@.members().contains(s)),
        path.len() < lit.len() && n.held@.members().contains(s) ==> !tokens_match(
            lit,
            tokens(s.subject),
        ),
        !n.held@.members().contains(s) ==> n.next is Some && level_set(*n.next->Some_0).contains(s),
{
    let pat = tokens(s.subject);
    let k = path.len() as int;
    lemma_node_path(n, path, s);
    lemma_match_below(lit, pat, path);
    let rest = lit.skip(k);
    let left = pat.skip(k);
    if k == lit.len() {
        assert(rest.len() == 0);
        if left.len() == 0 {
            assert(pat.take(k) =~= pat);
        }
    } else {
        if pat == path {
            assert(left.len() == 0);
            assert(rest.len() > 0);
        }
    }
}

/// Adds to `r` the subscriptions below the level `l` that the tokens
/// `toks` match. The children of the level stand under the token at `i`.
fn match_level(
    l: &Level,
    toks: &Vec<Vec<u8>>,
    i: usize,
    r: &mut SubResult,
    Ghost(path): Ghost<Seq<Seq<u8>>>,
)
    requires
        level_wf(*l, path),
        path.len() == i,
        i < toks@.len(),
        beside(views(toks@), path),
        valid_literal_tokens(views(toks@)),
        old(r)@.wf(),
    ensures
        final(r)@.wf(),
        final(r)@.members() == old(r)@.members().union(matched(level_set(*l), views(toks@))),
    decreases toks@.len() - i, 1int,
{
    let ghost lit = views(toks@);
    let ghost before = r@.members();
    let ghost bs = l.nodes@;
    let ghost d = i as int;
    assert(lit[d] == toks@[d]@);
    assert(!is_wildcard(lit[d]));
    proof {
        assert(pwc_token() != fwc_token()) by {
            assert(pwc_token()[0] != fwc_token()[0]);
        }
        assert(is_wildcard(pwc_token()) && is_wildcard(fwc_token()));
    }
    // The child under `>` takes whatever is left.
    match &l.fwc {
        Some(f) => {
            proof {
                assert(slot_wf(l.fwc, path, fwc_token()));
                assert forall|s: SubscriptionView| slot_set(l.fwc).contains(s) implies tokens_match(
                    lit,
                    tokens(s.subject),
                ) && f.held@.members().contains(s) by {
                    let pat = tokens(s.subject);
                    let p = path.push(fwc_token());
                    lemma_node_path(**f, p, s);
                    assert(node_set(**f) == f.held@.members().union(Set::empty()));
                    lemma_begins_longer(pat, path, fwc_token());
                    lemma_match_below(lit, pat, path);
                    let rest = lit.skip(d);
                    let left = pat.skip(d);
                    assert(rest[0] == lit[d]);
                    assert(left[0] == fwc_token());
                }
                assert(node_set(**f) =~= f.held@.members());
            }
            r.add_all(&f.held);
        },
        None => {},
    }
    assert(r@.members() =~= before.union(matched(slot_set(l.fwc), lit)));
    let ghost after_fwc = r@.members();
    // The child under `*` stands for the token at `i`.
    match &l.pwc {
        Some(p) => {
            proof {
                assert(slot_wf(l.pwc, path, pwc_token()));
                let pp = path.push(pwc_token());
                assert forall|j: int| 0 <= j < pp.len() implies lit[j] == #[trigger] pp[j]
                    || pp[j] == pwc_token() by {
                    if j < d {
                        assert(pp[j] == path[j]);
                    }
                }
            }
            match_node(p, toks, i, r, Ghost(path.push(pwc_token())));
        },
        None => {},
    }
    assert(r@.members() =~= after_fwc.union(matched(slot_set(l.pwc), lit)));
    let ghost after_pwc = r@.members();
    // Of the other children only the one under the token at `i` matches.
    let at = find_branch(&l.nodes, toks[i].as_slice());
    proof {
        assert(branches_wf(bs, path));
        assert forall|s: SubscriptionView| branches_set(bs).contains(s) && tokens_match(
            lit,
            tokens(s.subject),
        ) implies at is Some && node_set(bs[at->Some_0 as int].node).contains(s) by {
            let pat = tokens(s.subject);
            let k = choose|k: int| 0 <= k < bs.len() && node_set((#[trigger] bs[k]).node).contains(s);
            assert(level_set(*l).contains(s));
            lemma_level_path(*l, path, s);
            assert(pat[d] == bs[k].token@);
            lemma_match_below(lit, pat, path);
            let rest = lit.skip(d);
            let left = pat.skip(d);
            assert(rest[0] == lit[d]);
            assert(left[0] == pat[d]);
            assert(!is_wildcard(bs[k].token@));
            assert(lit[d] == pat[d]);
            if at is Some {
                let a = at->Some_0 as int;
                if a != k {
                    if a < k {
                        assert(bs[a].token@ != bs[k].token@);
                    } else {
                        assert(bs[k].token@ != bs[a].token@);
                    }
                }
            }
        }
    }
    match at {
        Some(k) => {
            proof {
                let pp = path.push(lit[d]);
                assert(bs[k as int].token@ == lit[d]);
                assert forall|j: int| 0 <= j < pp.len() implies lit[j] == #[trigger] pp[j]
                    || pp[j] == pwc_token() by {
                    if j < d {
                        assert(pp[j] == path[j]);
                    }
                }
            }
            match_node(&l.nodes[k].node, toks, i, r, Ghost(path.push(lit[d])));
            assert(r@.members() =~= after_pwc.union(matched(branches_set(bs), lit)));
        },
        None => {
            assert(r@.members() =~= after_pwc.union(matched(branches_set(bs), lit)));
        },
    }
    assert(r@.members() =~= before.union(matched(level_set(*l), lit)));
}

/// Where one child changes, the subscriptions below the children change as
/// the subscriptions below that child do.
proof fn lemma_branches_update(bs: Seq<Branch>, cs: Seq<Branch>, k: int)
    requires
        0 <= k < bs.len(),
        cs.len() == bs.len(),
        forall|j: int| 0 <= j < bs.len() && j != k ==> cs[j] == bs[j],
    ensures
        forall|s: SubscriptionView|
            branches_set(cs).contains(s) <==> (node_set(cs[k].node).contains(s) || exists|j: int|
                0 <= j < bs.len() && j != k && node_set((#[trigger] bs[j]).node).contains(s)),
        forall|s: SubscriptionView|
            branches_set(bs).contains(s) <==> (node_set(bs[k].node).contains(s) || exists|j: int|
                0 <= j < bs.len() && j != k && node_set((#[trigger] bs[j]).node).contains(s)),
{
    assert forall|s: SubscriptionView|
        branches_set(cs).contains(s) <==> (node_set(cs[k].node).contains(s) || exists|j: int|
            0 <= j < bs.len() && j != k && node_set((#[trigger] bs[j]).node).contains(s)) by {
        if branches_set(cs).contains(s) {
            let j = choose|j: int| 0 <= j < cs.len() && node_set((#[trigger] cs[j]).node).contains(s);
            if j != k {
                assert(cs[j] == bs[j]);
                assert(node_set(bs[j].node).contains(s));
            }
        }
        if exists|j: int| 0 <= j < bs.len() && j != k && node_set((#[trigger] bs[j]).node).contains(s) {
            let j = choose|j: int|
                0 <= j < bs.len() && j != k && node_set((#[trigger] bs[j]).node).contains(s);
            assert(cs[j] == bs[j]);
            assert(node_set(cs[j].node).contains(s));
        }
        if node_set(cs[k].node).contains(s) {
            assert(node_set(cs[k].node).contains(s));
        }
    }
    assert forall|s: SubscriptionView|
        branches_set(bs).contains(s) <==> (node_set(bs[k].node).contains(s) || exists|j: int|
            0 <= j < bs.len() && j != k && node_set((#[trigger] bs[j]).node).contains(s)) by {
        if branches_set(bs).contains(s) {
            let j = choose|j: int| 0 <= j < bs.len() && node_set((#[trigger] bs[j]).node).contains(s);
            if j != k {
                assert(node_set(bs[j].node).contains(s));
            }
        }
        if node_set(bs[k].node).contains(s) {
            assert(node_set(bs[k].node).contains(s));
        }
    }
}

/// A new child brings the subscriptions below it.
proof fn lemma_branches_push(bs: Seq<Branch>, b: Branch)
    ensures
        branches_set(bs.push(b)) == branches_set(bs).union(node_set(b.node)),
{
    let cs = bs.push(b);
    assert forall|s: SubscriptionView| branches_set(cs).contains(s) <==> branches_set(bs).union(
        node_set(b.node),
    ).contains(s) by {
        if branches_set(cs).contains(s) {
            let j = choose|j: int| 0 <= j < cs.len() && node_set((#[trigger] cs[j]).node).contains(s);
            if j < bs.len() {
                assert(cs[j] == bs[j]);
                assert(node_set(bs[j].node).contains(s));
            }
        }
        if branches_set(bs).contains(s) {
            let j = choose|j: int| 0 <= j < bs.len() && node_set((#[trigger] bs[j]).node).contains(s);
            assert(cs[j] == bs[j]);
            assert(node_set(cs[j].node).contains(s));
        }
        if node_set(b.node).contains(s) {
            assert(cs[bs.len() as int] == b);
            assert(node_set(cs[bs.len() as int].node).contains(s));
        }
    }
    assert(branches_set(cs) =~= branches_set(bs).union(node_set(b.node)));
}

/// Puts `sub` at or below the node `n`, which stands under the token at
/// `i` of the tokens `toks` of the subscription's subject.
fn node_insert(
    n: &mut TrieNode,
    toks: &Vec<Vec<u8>>,
    i: usize,
    sub: ArcSubscription,
    Ghost(path): Ghost<Seq<Seq<u8>>>,
)
    requires
        node_wf(*old(n), path),
        i < toks@.len(),
        path == views(toks@).take(i + 1),
        views(toks@) == tokens(sub@.subject),
        valid_subject_tokens(views(toks@)),
    ensures
        node_wf(*final(n), path),
        node_set(*final(n)) == node_set(*old(n)).insert(sub@),
        !node_is_empty(*final(n)),
        i == toks@.len() - 1 ==> final(n).next == old(n).next,
    decreases toks@.len() - i, 0int,
{
    let ghost all = views(toks@);
    if i == toks.len() - 1 {
        proof {
            assert(all.take(i + 1) =~= all);
        }
        n.held.add(sub);
        proof {
            lemma_members_empty(n.held@);
            assert(n.held@.members().contains(sub@));
            assert(node_set(*n) =~= node_set(*old(n)).insert(sub@));
        }
    } else {
        if n.next.is_none() {
            n.next = Some(Box::new(Level::new()));
        }
        match &mut n.next {
            Some(l) => {
                level_insert(l, toks, i + 1, sub, Ghost(path));
            },
            None => {},
        }
        assert(node_set(*n) =~= node_set(*old(n)).insert(sub@));
    }
}

/// Puts `sub` below the level `l`, whose children stand under the token at
/// `i` of the tokens `toks` of the subscription's subject.
fn level_insert(
    l: &mut Level,
    toks: &Vec<Vec<u8>>,
    i: usize,
    sub: ArcSubscription,
    Ghost(path): Ghost<Seq<Seq<u8>>>,
)
    requires
        level_wf(*old(l), path),
        i < toks@.len(),
        path == views(toks@).take(i as int),
        views(toks@) == tokens(sub@.subject),
        valid_subject_tokens(views(toks@)),
    ensures
        level_wf(*final(l), path),
        level_set(*final(l)) == level_set(*old(l)).insert(sub@),
        !level_is_empty(*final(l)),
    decreases toks@.len() - i, 1int,
{
    let ghost all = views(toks@);
    let ghost t = all[i as int];
    assert(t == toks@[i as int]@);
    assert(all.take(i + 1) =~= path.push(t));
    assert(t.len() > 0);
    if is_pwc(toks[i].as_slice()) {
        if l.pwc.is_none() {
            l.pwc = Some(Box::new(TrieNode::new()));
        }
        match &mut l.pwc {
            Some(n) => {
                node_insert(n, toks, i, sub, Ghost(path.push(t)));
            },
            None => {},
        }
        assert(level_set(*l) =~= level_set(*old(l)).insert(sub@));
    } else if is_fwc(toks[i].as_slice()) {
        assert(i == toks@.len() - 1);
        if l.fwc.is_none() {
            l.fwc = Some(Box::new(TrieNode::new()));
        }
        match &mut l.fwc {
            Some(n) => {
                node_insert(n, toks, i, sub, Ghost(path.push(t)));
            },
            None => {},
        }
        assert(level_set(*l) =~= level_set(*old(l)).insert(sub@));
    } else {
        assert(!is_wildcard(t));
        let ghost bs = l.nodes@;
        let k = match find_branch(&l.nodes, toks[i].as_slice()) {
            Some(k) => k,
            None => {
                let branch = Branch {
                    token: vstd::slice::slice_to_vec(toks[i].as_slice()),
                    node: TrieNode::new(),
                };
                proof {
                    lemma_branches_push(bs, branch);
                }
                l.nodes.push(branch);
                l.nodes.len() - 1
            },
        };
        let ghost ms = l.nodes@;
        assert(branches_set(ms) =~= branches_set(bs));
        assert(ms[k as int].token@ == t);
        assert(node_wf(ms[k as int].node, path.push(t)));
        assert(forall|j: int| 0 <= j < ms.len() && j != k ==> (#[trigger] ms[j]).token@ != t);
        node_insert(&mut l.nodes[k].node, toks, i, sub, Ghost(path.push(t)));
        proof {
            let cs = l.nodes@;
            assert(cs.len() == ms.len());
            assert(cs[k as int].token == ms[k as int].token);
            assert forall|j: int| 0 <= j < ms.len() && j != k implies cs[j] == ms[j] by {}
            lemma_branches_update(ms, cs, k as int);
            assert(branches_set(cs) =~= branches_set(ms).insert(sub@));
            assert forall|a: int| 0 <= a < cs.len() implies {
                &&& !is_wildcard((#[trigger] cs[a]).token@)
                &&& node_wf(cs[a].node, path.push(cs[a].token@))
                &&& !node_is_empty(cs[a].node)
            } by {
                if a != k {
                    assert(cs[a] == ms[a]);
                    if a < bs.len() {
                        assert(ms[a] == bs[a]);
                    }
                }
            }
            assert forall|a: int, b: int| 0 <= a < b < cs.len() implies (#[trigger] cs[a]).token@
                != (#[trigger] cs[b]).token@ by {
                if a != k && b != k {
                    assert(cs[a] == ms[a] && cs[b] == ms[b]);
                    assert(ms[a] == bs[a] && ms[b] == bs[b]);
                } else if a == k {
                    assert(cs[b] == ms[b]);
                } else {
                    assert(cs[a] == ms[a]);
                }
            }
            assert(level_set(*l) =~= level_set(*old(l)).insert(sub@));
        }
    }
}

/// A child with no subscription below it can go without loss.
proof fn lemma_branches_remove(cs: Seq<Branch>, k: int)
    requires
        0 <= k < cs.len(),
        node_set(cs[k].node) == Set::<SubscriptionView>::empty(),
    ensures
        branches_set(cs.remove(k)) == branches_set(cs),
{
    let ds = cs.remove(k);
    assert forall|s: SubscriptionView| branches_set(ds).contains(s) <==> branches_set(cs).contains(
        s,
    ) by {
        if branches_set(ds).contains(s) {
            let j = choose|j: int| 0 <= j < ds.len() && node_set((#[trigger] ds[j]).node).contains(s);
            let j1 = if j < k {
                j
            } else {
                j + 1
            };
            assert(ds[j] == cs[j1]);
            assert(node_set(cs[j1].node).contains(s));
        }
        if branches_set(cs).contains(s) {
            let j = choose|j: int| 0 <= j < cs.len() && node_set((#[trigger] cs[j]).node).contains(s);
            let j2 = if j < k {
                j
            } else {
                j - 1
            };
            assert(ds[j2] == cs[j]);
            assert(node_set(ds[j2].node).contains(s));
        }
    }
    assert(branches_set(ds) =~= branches_set(cs));
}

/// A level without children has no subscription below it.
proof fn lemma_empty_level(l: Level)
    ensures
        level_is_empty(l) ==> level_set(l) == Set::<SubscriptionView>::empty(),
{
    if level_is_empty(l) {
        assert(level_set(l) =~= Set::<SubscriptionView>::empty());
    }
}

/// An empty node has no subscription at or below it.
proof fn lemma_empty_node(n: TrieNode, path: Seq<Seq<u8>>)
    requires
        node_wf(n, path),
    ensures
        node_is_empty(n) ==> node_set(n) == Set::<SubscriptionView>::empty(),
{
    lemma_members_empty(n.held@);
    if node_is_empty(n) {
        assert(node_set(n) =~= Set::<SubscriptionView>::empty());
    }
}

/// Takes `sub` out of the node `n` or from below it. The node stands under
/// the token at `i` of the tokens `toks` of the subscription's subject. A
/// level below that is left without children goes too.
fn node_remove(
    n: &mut TrieNode,
    toks: &Vec<Vec<u8>>,
    i: usize,
    sub: &Subscription,
    Ghost(path): Ghost<Seq<Seq<u8>>>,
) -> (removed: bool)
    requires
        node_wf(*old(n), path),
        i < toks@.len(),
        path == views(toks@).take(i + 1),
        views(toks@) == tokens(sub@.subject),
    ensures
        node_wf(*final(n), path),
        node_set(*final(n)) == node_set(*old(n)).remove(sub@),
        removed == node_set(*old(n)).contains(sub@),
        old(n).next is None ==> final(n).next is None,
    decreases toks@.len() - i, 0int,
{
    let ghost all = views(toks@);
    proof {
        if node_set(*n).contains(sub@) {
            lemma_node_path(*n, path, sub@);
        }
        if n.next is Some {
            let below = *n.next->Some_0;
            if level_set(below).contains(sub@) {
                lemma_level_path(below, path, sub@);
            }
        }
    }
    if i == toks.len() - 1 {
        assert(all.take(i + 1) =~= all);
        let removed = n.held.remove(sub);
        assert(node_set(*n) =~= node_set(*old(n)).remove(sub@));
        removed
    } else {
        assert(all != path) by {
            assert(path.len() == i + 1);
        }
        let removed = match &mut n.next {
            Some(l) => level_remove(l, toks, i + 1, sub, Ghost(path)),
            None => false,
        };
        let bare = match &n.next {
            Some(l) => l.is_empty(),
            None => false,
        };
        proof {
            if n.next is Some {
                lemma_empty_level(*n.next->Some_0);
            }
        }
        let ghost kept = node_set(*n);
        assert(kept =~= node_set(*old(n)).remove(sub@));
        if bare {
            n.next = None;
        }
        assert(node_set(*n) =~= kept);
        removed
    }
}

/// Takes `sub` out from below the level `l`, whose children stand under
/// the token at `i` of the tokens `toks` of the subscription's subject. A
/// child that is left empty goes too.
fn level_remove(
    l: &mut Level,
    toks: &Vec<Vec<u8>>,
    i: usize,
    sub: &Subscription,
    Ghost(path): Ghost<Seq<Seq<u8>>>,
) -> (removed: bool)
    requires
        level_wf(*old(l), path),
        i < toks@.len(),
        path == views(toks@).take(i as int),
        views(toks@) == tokens(sub@.subject),
    ensures
        level_wf(*final(l), path),
        level_set(*final(l)) == level_set(*old(l)).remove(sub@),
        removed == level_set(*old(l)).contains(sub@),
    decreases toks@.len() - i, 1int,
{
    let ghost all = views(toks@);
    let ghost t = all[i as int];
    let ghost bs = l.nodes@;
    assert(t == toks@[i as int]@);
    assert(all.take(i + 1) =~= path.push(t));
    proof {
        assert(pwc_token() != fwc_token()) by {
            assert(pwc_token()[0] != fwc_token()[0]);
        }
        assert(is_wildcard(pwc_token()) && is_wildcard(fwc_token()));
        assert(branches_wf(bs, path));
        if level_set(*l).contains(sub@) {
            lemma_level_path(*l, path, sub@);
        }
    }
    if is_pwc(toks[i].as_slice()) {
        let removed = match &mut l.pwc {
            Some(n) => node_remove(n, toks, i, sub, Ghost(path.push(t))),
            None => false,
        };
        let bare = match &l.pwc {
            Some(n) => n.is_empty(),
            None => false,
        };
        proof {
            if l.pwc is Some {
                lemma_empty_node(*l.pwc->Some_0, path.push(t));
            }
        }
        if bare {
            l.pwc = None;
        }
        assert(level_set(*l) =~= level_set(*old(l)).remove(sub@));
        removed
    } else if is_fwc(toks[i].as_slice()) {
        let removed = match &mut l.fwc {
            Some(n) => node_remove(n, toks, i, sub, Ghost(path.push(t))),
            None => false,
        };
        let bare = match &l.fwc {
            Some(n) => n.is_empty(),
            None => false,
        };
        proof {
            if l.fwc is Some {
                lemma_empty_node(*l.fwc->Some_0, path.push(t));
            }
        }
        if bare {
            l.fwc = None;
        }
        assert(level_set(*l) =~= level_set(*old(l)).remove(sub@));
        removed
    } else {
        match find_branch(&l.nodes, toks[i].as_slice()) {
            None => {
                proof {
                    if branches_set(bs).contains(sub@) {
                        let j = choose|j: int|
                            0 <= j < bs.len() && node_set((#[trigger] bs[j]).node).contains(sub@);
                        assert(bs[j].token@ == t);
                    }
                    assert(level_set(*l) =~= level_set(*old(l)).remove(sub@));
                }
                false
            },
            Some(k) => {
                assert(forall|j: int| 0 <= j < bs.len() && j != k ==> (#[trigger] bs[j]).token@ != t) by {
                    assert forall|j: int| 0 <= j < bs.len() && j != k implies (
                    #[trigger] bs[j]).token@ != t by {
                        if j < k {
                            assert(bs[j].token@ != bs[k as int].token@);
                        } else {
                            assert(bs[k as int].token@ != bs[j].token@);
                        }
                    }
                }
                let removed = node_remove(&mut l.nodes[k].node, toks, i, sub, Ghost(path.push(t)));
                let ghost cs = l.nodes@;
                proof {
                    assert(cs.len() == bs.len());
                    assert(cs[k as int].token == bs[k as int].token);
                    assert forall|j: int| 0 <= j < bs.len() && j != k implies cs[j] == bs[j] by {}
                    lemma_branches_update(bs, cs, k as int);
                    assert forall|j: int|
                        0 <= j < bs.len() && j != k implies !node_set((#[trigger] bs[j]).node).contains(
                        sub@,
                    ) by {
                        if node_set(bs[j].node).contains(sub@) {
                            assert(branches_set(bs).contains(sub@));
                            assert(bs[j].token@ == t);
                        }
                    }
                    assert(branches_set(cs) =~= branches_set(bs).remove(sub@));
                    lemma_empty_node(cs[k as int].node, path.push(t));
                }
                if l.nodes[k].node.is_empty() {
                    proof {
                        lemma_branches_remove(cs, k as int);
                    }
                    let _gone = l.nodes.remove(k);
                    proof {
                        let ds = l.nodes@;
                        assert forall|a: int| 0 <= a < ds.len() implies {
                            &&& !is_wildcard((#[trigger] ds[a]).token@)
                            &&& node_wf(ds[a].node, path.push(ds[a].token@))
                            &&& !node_is_empty(ds[a].node)
                        } by {
                            let a1 = if a < k {
                                a
                            } else {
                                a + 1
                            };
                            assert(ds[a] == cs[a1]);
                            assert(cs[a1] == bs[a1]);
                        }
                        assert forall|a: int, b: int| 0 <= a < b < ds.len() implies (
                        #[trigger] ds[a]).token@ != (#[trigger] ds[b]).token@ by {
                            let a1 = if a < k {
                                a
                            } else {
                                a + 1
                            };
                            let b1 = if b < k {
                                b
                            } else {
                                b + 1
                            };
                            assert(ds[a] == cs[a1] && ds[b] == cs[b1]);
                            assert(cs[a1] == bs[a1] && cs[b1] == bs[b1]);
                        }
                    }
                } else {
                    proof {
                        assert forall|a: int| 0 <= a < cs.len() implies {
                            &&& !is_wildcard((#[trigger] cs[a]).token@)
                            &&& node_wf(cs[a].node, path.push(cs[a].token@))
                            &&& !node_is_empty(cs[a].node)
                        } by {
                            if a != k {
                                assert(cs[a] == bs[a]);
                            }
                        }
                        assert forall|a: int, b: int| 0 <= a < b < cs.len() implies (
                        #[trigger] cs[a]).token@ != (#[trigger] cs[b]).token@ by {
                            assert(cs[a].token@ == bs[a].token@ && cs[b].token@ == bs[b].token@);
                        }
                    }
                }
                assert(level_set(*l) =~= level_set(*old(l)).remove(sub@));
                removed
            },
        }
    }
}

/// The number of results that the cache of an index holds at most.
pub const SL_CACHE_MAX: usize = 1024;

/// The subscription index of the broker: the trie, and in front of it the
/// cache of the results that were asked for last.
pub struct TrieSubList {
    cache: SubResultCache,
    root: Level,
}

impl TrieSubList {
    /// An index without subscriptions.
    pub fn new() -> (list: Self)
        ensures
            list.wf(),
            list.subs() == Set::<SubscriptionView>::empty(),
            list.cached().len() == 0,
    {
        TrieSubList { cache: SubResultCache::new(SL_CACHE_MAX), root: Level::new() }
    }

    /// What the cache keeps: for each subject that was asked for of late
    /// the result, from the one that was used least recently to the one
    /// that was used last.
    pub closed spec fn cached(&self) -> Kept {
        self.cache.kept()
    }

    /// Whether the trie has no node.
    pub closed spec fn bare(&self) -> bool {
        level_is_empty(self.root)
    }

    /// The number of results in the cache. It is never above
    /// [`SL_CACHE_MAX`].
    pub fn cache_count(&self) -> (n: usize)
        ensures
            n == self.cached().len(),
            self.wf() ==> n <= SL_CACHE_MAX,
    {
        self.cache.len()
    }

    /// The subjects that the cache keeps results for, from the one that was
    /// used least recently to the one that was used last.
    pub fn cached_subjects(&self) -> (keys: Vec<Vec<u8>>)
        ensures
            keys@.len() == self.cached().len(),
            forall|k: int| 0 <= k < keys@.len() ==> (#[trigger] keys@[k])@ == self.cached()[k].0,
    {
        self.cache.subjects()
    }

    /// Whether the trie has no node. That is so just when the index holds
    /// no subscription: no node outlasts the subscriptions under it.
    pub fn is_empty(&self) -> (empty: bool)
        requires
            self.wf(),
        ensures
            empty == self.bare(),
            empty == (self.subs() == Set::<SubscriptionView>::empty()),
    {
        proof {
            lemma_empty_level(self.root);
            lemma_level_inhabited(self.root, Seq::empty());
            if !level_is_empty(self.root) {
                let s = choose|s: SubscriptionView| level_set(self.root).contains(s);
                assert(self.subs().contains(s));
            }
        }
        self.root.is_empty()
    }
}

/// Under a node that is not empty there is a subscription.
proof fn lemma_node_inhabited(n: TrieNode, path: Seq<Seq<u8>>)
    requires
        node_wf(n, path),
        !node_is_empty(n),
    ensures
        exists|s: SubscriptionView| node_set(n).contains(s),
    decreases n, 1int,
{
    lemma_members_empty(n.held@);
    if n.held@.members() != Set::<SubscriptionView>::empty() {
        if !(exists|s: SubscriptionView| n.held@.members().contains(s)) {
            assert(n.held@.members() =~= Set::<SubscriptionView>::empty());
        }
        let s = choose|s: SubscriptionView| n.held@.members().contains(s);
        assert(node_set(n).contains(s));
    } else {
        let l = *n.next->Some_0;
        lemma_level_inhabited(l, path);
        let s = choose|s: SubscriptionView| level_set(l).contains(s);
        assert(node_set(n).contains(s));
    }
}

/// Below a level that has a child there is a subscription.
proof fn lemma_level_inhabited(l: Level, path: Seq<Seq<u8>>)
    requires
        level_wf(l, path),
    ensures
        !level_is_empty(l) ==> exists|s: SubscriptionView| level_set(l).contains(s),
    decreases l, 0int,
{
    if !level_is_empty(l) {
        let bs = l.nodes@;
        if l.pwc is Some {
            let n = *l.pwc->Some_0;
            lemma_node_inhabited(n, path.push(pwc_token()));
            let s = choose|s: SubscriptionView| node_set(n).contains(s);
            assert(level_set(l).contains(s));
        } else if l.fwc is Some {
            let n = *l.fwc->Some_0;
            lemma_node_inhabited(n, path.push(fwc_token()));
            let s = choose|s: SubscriptionView| node_set(n).contains(s);
            assert(level_set(l).contains(s));
        } else {
            assert(branches_wf(bs, path));
            let b = bs[0];
            lemma_node_inhabited(b.node, path.push(b.token@));
            let s = choose|s: SubscriptionView| node_set(b.node).contains(s);
            assert(node_set(bs[0].node).contains(s));
            assert(branches_set(bs).contains(s));
            assert(level_set(l).contains(s));
        }
    }
}

impl SubListTrait for TrieSubList {
    closed spec fn subs(&self) -> Set<SubscriptionView> {
        level_set(self.root)
    }

    closed spec fn wf(&self) -> bool {
        &&& level_wf(self.root, Seq::empty())
        &&& self.cache.agrees(level_set(self.root))
        &&& self.cache.capacity() == SL_CACHE_MAX
        &&& self.cache.bounded()
    }

    open spec fn takes(subject: Seq<u8>) -> bool {
        valid_subject(subject)
    }

    open spec fn matches(literal: Seq<u8>, pattern: Seq<u8>) -> bool {
        subject_matches(literal, pattern)
    }

    /// Puts `sub` into the index, and into every result in the cache whose
    /// subject goes to it. A subject that is not valid for a subscription
    /// is an error.
    fn insert(&mut self, sub: ArcSubscription) -> (r: Result<(), NError>)
        ensures
            final(self).cached() == match r {
                Ok(_) => after_change(old(self).cached(), sub@, true, SL_CACHE_MAX as nat),
                Err(_) => old(self).cached(),
            },
    {
        if !is_valid_subject(sub.subject.as_slice()) {
            return Err(NError::new(ERROR_INVALID_SUBJECT));
        }
        let toks = split_tokens(sub.subject.as_slice());
        let ghost before = level_set(self.root);
        proof {
            lemma_pieces_nonempty(sub@.subject, crate::subject::BTSEP);
            assert(views(toks@).take(0) =~= Seq::<Seq<u8>>::empty());
        }
        level_insert(&mut self.root, &toks, 0, arc_clone(&sub), Ghost(Seq::empty()));
        self.cache.insert(&sub, Ghost(before));
        Ok(())
    }

    /// Takes `sub` out of the index, and out of every result in the cache.
    /// The nodes that are left empty go too. A subject that is not valid
    /// for a subscription, or a subscription that is not in the index, is
    /// an error.
    fn remove(&mut self, sub: ArcSubscription) -> (r: Result<(), NError>)
        ensures
            final(self).cached() == match r {
                Ok(_) => after_change(old(self).cached(), sub@, false, SL_CACHE_MAX as nat),
                Err(_) => old(self).cached(),
            },
    {
        if !is_valid_subject(sub.subject.as_slice()) {
            return Err(NError::new(ERROR_INVALID_SUBJECT));
        }
        let toks = split_tokens(sub.subject.as_slice());
        let ghost before = level_set(self.root);
        proof {
            lemma_pieces_nonempty(sub@.subject, crate::subject::BTSEP);
            assert(views(toks@).take(0) =~= Seq::<Seq<u8>>::empty());
        }
        if level_remove(&mut self.root, &toks, 0, &sub, Ghost(Seq::empty())) {
            self.cache.remove(&sub, Ghost(before));
            Ok(())
        } else {
            assert(before.remove(sub@) =~= before);
            Err(NError::new(ERROR_SUBSCRIBTION_NOT_FOUND))
        }
    }

    /// The subscribers that a message on the literal subject `subject`
    /// goes to. The answer comes from the cache where it is there, and is
    /// else found in the trie and kept in the cache.
    fn match_subject(&mut self, subject: &[u8]) -> (r: ArcSubResult)
        ensures
            kept_find(old(self).cached(), subject@) matches Some(found) ==> r@ == found,
            final(self).cached() == kept_put(
                old(self).cached(),
                subject@,
                r@,
                SL_CACHE_MAX as nat,
            ),
    {
        let ghost held = level_set(self.root);
        let ghost lit = tokens(subject@);
        proof {
            assert(matching(held, subject@, |l: Seq<u8>, p: Seq<u8>| Self::matches(l, p))
                =~= matched(held, lit));
        }
        match self.cache.get(subject, Ghost(held)) {
            Some(r) => {
                return r;
            },
            None => {},
        }
        let toks = split_tokens(subject);
        proof {
            lemma_pieces_nonempty(subject@, crate::subject::BTSEP);
        }
        let mut found = SubResult::new();
        match_level(&self.root, &toks, 0, &mut found, Ghost(Seq::empty()));
        assert(found@.members() =~= matched(held, lit));
        let r = Arc::new(found);
        self.cache.insert_result(subject, arc_clone(&r), Ghost(held));
        r
    }
}

/// The child of a level under the token `t`, if there is one.
closed spec fn child_under(l: Level, t: Seq<u8>) -> Option<TrieNode> {
    if t == pwc_token() {
        match l.pwc {
            Some(n) => Some(*n),
            None => None,
        }
    } else if t == fwc_token() {
        match l.fwc {
            Some(n) => Some(*n),
            None => None,
        }
    } else if exists|i: int| 0 <= i < l.nodes@.len() && (#[trigger] l.nodes@[i]).token@ == t {
        Some(
            l.nodes@[choose|i: int| 0 <= i < l.nodes@.len() && (#[trigger] l.nodes@[i]).token@ == t].node,
        )
    } else {
        None
    }
}

/// Whether a node is reached from the level `l` by the tokens `rel`.
closed spec fn level_has(l: Level, rel: Seq<Seq<u8>>) -> bool
    decreases rel.len(),
{
    rel.len() > 0 && match child_under(l, rel[0]) {
        None => false,
        Some(n) => rel.len() == 1 || (n.next matches Some(below) && level_has(
            *below,
            rel.drop_first(),
        )),
    }
}

/// The child under a token holds just the subscriptions whose subject has
/// that token next.
proof fn lemma_child(l: Level, path: Seq<Seq<u8>>, t: Seq<u8>)
    requires
        level_wf(l, path),
    ensures
        match child_under(l, t) {
            Some(n) => node_wf(n, path.push(t)) && !node_is_empty(n) && node_set(n).subset_of(
                level_set(l),
            ),
            None => true,
        },
{
    let bs = l.nodes@;
    assert(pwc_token() != fwc_token()) by {
        assert(pwc_token()[0] != fwc_token()[0]);
    }
    assert(is_wildcard(pwc_token()) && is_wildcard(fwc_token()));
    assert(branches_wf(bs, path));
    if t != pwc_token() && t != fwc_token() {
        if exists|i: int| 0 <= i < bs.len() && (#[trigger] bs[i]).token@ == t {
            let c = choose|i: int| 0 <= i < bs.len() && (#[trigger] bs[i]).token@ == t;
            assert(!is_wildcard(bs[c].token@));
            assert forall|s: SubscriptionView| node_set(bs[c].node).contains(s) implies level_set(
                l,
            ).contains(s) by {
                assert(branches_set(bs).contains(s));
            }
        }
    } else if t == pwc_token() {
        assert(slot_wf(l.pwc, path, pwc_token()));
    } else {
        assert(slot_wf(l.fwc, path, fwc_token()));
    }
}

/// A subscription below a level is below the child under the token that
/// its subject has next.
proof fn lemma_child_of(l: Level, path: Seq<Seq<u8>>, s: SubscriptionView)
    requires
        level_wf(l, path),
        level_set(l).contains(s),
    ensures
        tokens(s.subject).len() > path.len(),
        child_under(l, tokens(s.subject)[path.len() as int]) is Some,
        node_set(child_under(l, tokens(s.subject)[path.len() as int])->Some_0).contains(s),
{
    let bs = l.nodes@;
    let t = tokens(s.subject)[path.len() as int];
    assert(pwc_token() != fwc_token()) by {
        assert(pwc_token()[0] != fwc_token()[0]);
    }
    assert(is_wildcard(pwc_token()) && is_wildcard(fwc_token()));
    assert(branches_wf(bs, path));
    lemma_level_path(l, path, s);
    if t == pwc_token() {
        assert(slot_set(l.pwc).contains(s));
        assert(l.pwc is Some);
    } else if t == fwc_token() {
        assert(slot_set(l.fwc).contains(s));
        assert(l.fwc is Some);
    } else {
        assert(branches_set(bs).contains(s));
        let i = choose|i: int| 0 <= i < bs.len() && node_set((#[trigger] bs[i]).node).contains(s);
        assert(bs[i].token@ == t);
        let c = choose|i: int| 0 <= i < bs.len() && (#[trigger] bs[i]).token@ == t;
        if c != i {
            if c < i {
                assert(bs[c].token@ != bs[i].token@);
            } else {
                assert(bs[i].token@ != bs[c].token@);
            }
        }
    }
}

/// The nodes below a level are those that a subscription needs: a node is
/// reached by the tokens `rel` just when a subscription below the level
/// has a subject that goes on with `rel`.
proof fn lemma_level_nodes(l: Level, path: Seq<Seq<u8>>, rel: Seq<Seq<u8>>)
    requires
        level_wf(l, path),
        rel.len() > 0,
    ensures
        level_has(l, rel) <==> exists|s: SubscriptionView| #[trigger]
            level_set(l).contains(s) && begins_with(tokens(s.subject), path + rel),
    decreases rel.len(),
{
    let t = rel[0];
    let d = path.len() as int;
    lemma_child(l, path, t);
    assert(path.push(t) + rel.drop_first() =~= path + rel);
    if level_has(l, rel) {
        let n = child_under(l, t)->Some_0;
        if rel.len() == 1 {
            lemma_node_inhabited(n, path.push(t));
            let s = choose|s: SubscriptionView| node_set(n).contains(s);
            lemma_node_path(n, path.push(t), s);
            assert(level_set(l).contains(s));
        } else {
            let below = *n.next->Some_0;
            lemma_level_nodes(below, path.push(t), rel.drop_first());
            let s = choose|s: SubscriptionView| #[trigger]
                level_set(below).contains(s) && begins_with(
                    tokens(s.subject),
                    path.push(t) + rel.drop_first(),
                );
            assert(node_set(n).contains(s));
            assert(level_set(l).contains(s));
        }
    }
    if exists|s: SubscriptionView| #[trigger]
        level_set(l).contains(s) && begins_with(tokens(s.subject), path + rel) {
        let s = choose|s: SubscriptionView| #[trigger]
            level_set(l).contains(s) && begins_with(tokens(s.subject), path + rel);
        let pat = tokens(s.subject);
        let whole = path + rel;
        assert(pat.take(whole.len() as int)[d] == whole[d]);
        assert(pat[d] == t);
        lemma_child_of(l, path, s);
        let n = child_under(l, t)->Some_0;
        assert(node_set(n).contains(s));
        if rel.len() > 1 {
            lemma_node_path(n, path.push(t), s);
            assert(pat.len() > d + 1);
            assert(pat != path.push(t));
            let below = *n.next->Some_0;
            assert(level_set(below).contains(s));
            lemma_level_nodes(below, path.push(t), rel.drop_first());
        }
    }
}

impl TrieSubList {
    /// Whether the trie has a node that is reached by the tokens `path`.
    pub closed spec fn has_node(&self, path: Seq<Seq<u8>>) -> bool {
        level_has(self.root, path)
    }

    /// The trie has the nodes that its subscriptions need, and no others:
    /// a node is reached by the tokens `path` just when the index holds a
    /// subscription to a subject that begins with them. So the nodes are
    /// given by the subscriptions alone, and an index from which all that
    /// was put in is taken out again has the nodes that it had before.
    pub proof fn lemma_nodes(&self, path: Seq<Seq<u8>>)
        requires
            self.wf(),
            path.len() > 0,
        ensures
            self.has_node(path) <==> exists|s: SubscriptionView| #[trigger]
                self.subs().contains(s) && begins_with(tokens(s.subject), path),
    {
        lemma_level_nodes(self.root, Seq::empty(), path);
        assert(Seq::<Seq<u8>>::empty() + path =~= path);
        if self.has_node(path) {
            let s = choose|s: SubscriptionView| #[trigger]
                level_set(self.root).contains(s) && begins_with(
                    tokens(s.subject),
                    Seq::<Seq<u8>>::empty() + path,
                );
            assert(self.subs().contains(s) && begins_with(tokens(s.subject), path));
        }
        if exists|s: SubscriptionView| #[trigger]
            self.subs().contains(s) && begins_with(tokens(s.subject), path) {
            let s = choose|s: SubscriptionView| #[trigger]
                self.subs().contains(s) && begins_with(tokens(s.subject), path);
            assert(level_set(self.root).contains(s) && begins_with(
                tokens(s.subject),
                Seq::<Seq<u8>>::empty() + path,
            ));
        }
    }
}

} // verus!
