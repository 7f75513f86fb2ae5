use vstd::prelude::*;
use crate::context::TokenContext;
use crate::token::{end_marker, start_marker, Token, TokenKind, TokenView};
use crate::source::IndexSource;
use crate::tokenizer::{line_tokens, tokenize, TokenizeError};

verus! {

/// How often `b` followed `a`, over the first `n` records.
pub open spec fn weight_prefix(ctxs: Seq<TokenContext>, a: TokenView, b: TokenView, n: int) -> nat
    decreases n,
{
    if n <= 0 {
        0
    } else {
        weight_prefix(ctxs, a, b, n - 1) + if ctxs[n - 1].token@ == a {
            ctxs[n - 1].count_of(b)
        } else {
            0
        }
    }
}

/// How often anything followed `a`, over the first `n` records.
pub open spec fn total_prefix(ctxs: Seq<TokenContext>, a: TokenView, n: int) -> nat
    decreases n,
{
    if n <= 0 {
        0
    } else {
        total_prefix(ctxs, a, n - 1) + if ctxs[n - 1].token@ == a {
            ctxs[n - 1].total_weight as nat
        } else {
            0
        }
    }
}

/// The views of a sequence of tokens.
pub open spec fn views(s: Seq<Token>) -> Seq<TokenView> {
    s.map_values(|t: Token| t@)
}

/// How many times `b` directly follows `a` in `s`.
pub open spec fn pair_count(s: Seq<TokenView>, a: TokenView, b: TokenView) -> nat
    decreases s.len(),
{
    if s.len() < 2 {
        0
    } else {
        pair_count(s.drop_last(), a, b) + if s[s.len() - 2] == a && s[s.len() - 1] == b {
            1nat
        } else {
            0nat
        }
    }
}

/// How many times `a` is directly followed by anything in `s`.
pub open spec fn left_count(s: Seq<TokenView>, a: TokenView) -> nat
    decreases s.len(),
{
    if s.len() < 2 {
        0
    } else {
        left_count(s.drop_last(), a) + if s[s.len() - 2] == a {
            1nat
        } else {
            0nat
        }
    }
}

proof fn lemma_left_count_bound(s: Seq<TokenView>, a: TokenView)
    ensures
        left_count(s, a) <= s.len(),
    decreases s.len(),
{
    if s.len() >= 2 {
        lemma_left_count_bound(s.drop_last(), a);
    }
}

/// A token that is followed by something in `s.take(i + 1)` is followed by
/// something in `s`.
proof fn lemma_left_count_take(s: Seq<TokenView>, a: TokenView, i: int)
    requires
        1 <= i < s.len(),
        s[i - 1] == a,
    ensures
        left_count(s, a) > 0,
    decreases s.len(),
{
    let t = s.drop_last();
    if s[s.len() - 2] != a {
        assert(t[i - 1] == a);
        lemma_left_count_take(t, a, i);
    }
}

/// The successors, in order, in the last of the first `n` records that is for `a`.
pub open spec fn keys_prefix(ctxs: Seq<TokenContext>, a: TokenView, n: int) -> Seq<TokenView>
    decreases n,
{
    if n <= 0 {
        Seq::empty()
    } else if ctxs[n - 1].token@ == a {
        ctxs[n - 1].keys()
    } else {
        keys_prefix(ctxs, a, n - 1)
    }
}

/// The successors of `a` after training `s` onto successors `ks`: each token that
/// follows `a` in `s` and is not yet among them is added, in order.
pub open spec fn keys_after(ks: Seq<TokenView>, s: Seq<TokenView>, a: TokenView) -> Seq<TokenView>
    decreases s.len(),
{
    if s.len() < 2 {
        ks
    } else {
        let before = keys_after(ks, s.drop_last(), a);
        if s[s.len() - 2] == a && !before.contains(s.last()) {
            before.push(s.last())
        } else {
            before
        }
    }
}

proof fn lemma_keys_absent(ctxs: Seq<TokenContext>, a: TokenView, n: int)
    requires
        0 <= n <= ctxs.len(),
        forall|j: int| 0 <= j < n ==> ctxs[j].token@ != a,
    ensures
        keys_prefix(ctxs, a, n) == Seq::<TokenView>::empty(),
    decreases n,
{
    if n > 0 {
        lemma_keys_absent(ctxs, a, n - 1);
    }
}

proof fn lemma_keys_at(ctxs: Seq<TokenContext>, i: int, n: int)
    requires
        forall|j: int, k: int| 0 <= j < k < ctxs.len() ==> ctxs[j].token@ != ctxs[k].token@,
        0 <= i < n <= ctxs.len(),
    ensures
        keys_prefix(ctxs, ctxs[i].token@, n) == ctxs[i].keys(),
    decreases n,
{
    if n - 1 != i {
        lemma_keys_at(ctxs, i, n - 1);
    }
}

proof fn lemma_ctx_absent(ctxs: Seq<TokenContext>, a: TokenView, b: TokenView, n: int)
    requires
        0 <= n <= ctxs.len(),
        forall|j: int| 0 <= j < n ==> ctxs[j].token@ != a,
    ensures
        weight_prefix(ctxs, a, b, n) == 0,
        total_prefix(ctxs, a, n) == 0,
    decreases n,
{
    if n > 0 {
        lemma_ctx_absent(ctxs, a, b, n - 1);
    }
}

proof fn lemma_ctx_at(ctxs: Seq<TokenContext>, i: int, b: TokenView, n: int)
    requires
        forall|j: int, k: int| 0 <= j < k < ctxs.len() ==> ctxs[j].token@ != ctxs[k].token@,
        0 <= i < n <= ctxs.len(),
    ensures
        weight_prefix(ctxs, ctxs[i].token@, b, n) == ctxs[i].count_of(b),
        total_prefix(ctxs, ctxs[i].token@, n) == ctxs[i].total_weight as nat,
    decreases n,
{
    if n - 1 == i {
        lemma_ctx_absent(ctxs, ctxs[i].token@, b, i);
    } else {
        lemma_ctx_at(ctxs, i, b, n - 1);
    }
}

/// The texts of the tokens of `p` that carry one, in order.
pub open spec fn texts(p: Seq<TokenView>) -> Seq<Seq<char>>
    decreases p.len(),
{
    if p.len() == 0 {
        Seq::empty()
    } else {
        match p.last().text {
            Some(t) => texts(p.drop_last()).push(t),
            None => texts(p.drop_last()),
        }
    }
}

/// The words of `w` with one space between each two.
pub open spec fn join_words(w: Seq<Seq<char>>) -> Seq<char>
    decreases w.len(),
{
    if w.len() == 0 {
        Seq::empty()
    } else if w.len() == 1 {
        w[0]
    } else {
        join_words(w.drop_last()) + seq![' '] + w.last()
    }
}

/// The line that a walk through `p` produces.
pub open spec fn render(p: Seq<TokenView>) -> Seq<char> {
    join_words(texts(p))
}

/// Why no line could be generated.
#[derive(Clone, Copy, Debug, PartialEq, Eq, Structural)]
pub enum GenerateError {
    /// The walk reached a token that was never trained as the left of a pair;
    /// before any training this is the start marker.
    MissingContext,
    /// The walk took as many steps as a `u64` counts without reaching an end.
    WalkTooLong,
}

/// In a sequence that ends with a token of the end kind, every token that follows
/// another and is not of the end kind is itself followed by something.
proof fn lemma_successor_leads_on(s: Seq<TokenView>, a: TokenView, b: TokenView)
    requires
        pair_count(s, a, b) > 0,
        s.len() > 0,
        s.last().kind == TokenKind::InputEnd,
        b.kind != TokenKind::InputEnd,
    ensures
        left_count(s, b) > 0,
    decreases s.len(),
{
    let t = s.drop_last();
    if s[s.len() - 2] == a && s[s.len() - 1] == b {
        assert(false);
    } else if pair_count(t, a, b) > 0 {
        if t.last() == b {
            assert(s[s.len() - 2] == b);
        } else {
            lemma_pair_not_last(t, a, b);
        }
    }
}

/// Where `b` follows something in `t` and `t` does not end with `b`, `b` is
/// followed by something in `t`.
proof fn lemma_pair_not_last(t: Seq<TokenView>, a: TokenView, b: TokenView)
    requires
        pair_count(t, a, b) > 0,
        t.last() != b,
    ensures
        left_count(t, b) > 0,
    decreases t.len(),
{
    let u = t.drop_last();
    if t[t.len() - 2] == a && t[t.len() - 1] == b {
        assert(false);
    } else {
        if u.last() == b {
            assert(t[t.len() - 2] == b);
        } else {
            lemma_pair_not_last(u, a, b);
        }
    }
}

/// Why a line was not trained.
#[derive(Clone, Copy, Debug, PartialEq, Eq, Structural)]
pub enum TrainError {
    /// The line could not be tokenized.
    Tokenize(TokenizeError),
    /// Some token's total would no longer fit in a `u32`.
    CountOverflow,
}

/// The trained transition graph: one record per token that has been seen
/// followed by something.
pub struct KnowledgeBase {
    pub contexts: Vec<TokenContext>,
}

impl KnowledgeBase {
    /// How often `b` has been trained right after `a`.
    pub open spec fn weight(&self, a: TokenView, b: TokenView) -> nat {
        weight_prefix(self.contexts@, a, b, self.contexts@.len() as int)
    }

    /// How often anything has been trained right after `a`.
    pub open spec fn total(&self, a: TokenView) -> nat {
        total_prefix(self.contexts@, a, self.contexts@.len() as int)
    }

    /// One record per token, each well formed and not empty.
    pub open spec fn wf(&self) -> bool {
        &&& forall|j: int, k: int|
            0 <= j < k < self.contexts@.len() ==> self.contexts@[j].token@
                != self.contexts@[k].token@
        &&& forall|j: int|
            0 <= j < self.contexts@.len() ==> (#[trigger] self.contexts@[j]).wf()
                && self.contexts@[j].total_weight > 0
    }

    /// What training `s` adds: every pair of neighbours in `s` once more, and
    /// nothing else.
    pub open spec fn trained_from(&self, before: &KnowledgeBase, s: Seq<TokenView>) -> bool {
        &&& forall|a: TokenView, b: TokenView|
            #![auto]
            self.weight(a, b) == before.weight(a, b) + pair_count(s, a, b)
        &&& forall|a: TokenView| #![auto] self.total(a) == before.total(a) + left_count(s, a)
    }

    /// `p` starts at the start marker, follows only trained pairs, and meets no
    /// end-kind token before its last.
    pub open spec fn is_walk(&self, p: Seq<TokenView>) -> bool {
        &&& p.len() >= 1
        &&& p[0] == start_marker()
        &&& forall|i: int| 0 <= i < p.len() - 1 ==> #[trigger] self.weight(p[i], p[i + 1]) > 0
        &&& forall|i: int| 0 <= i < p.len() - 1 ==> (#[trigger] p[i]).kind != TokenKind::InputEnd
    }

    /// Every token that has been trained as a successor, other than one of the end
    /// kind, has itself been trained as the left of a pair.
    pub open spec fn closed(&self) -> bool {
        forall|a: TokenView, b: TokenView|
            #![trigger self.weight(a, b)]
            self.weight(a, b) > 0 && b.kind != TokenKind::InputEnd ==> self.total(b) > 0
    }

    /// The successors of `a`, in the order in which they were first trained.
    pub open spec fn successors_of(&self, a: TokenView) -> Seq<TokenView> {
        keys_prefix(self.contexts@, a, self.contexts@.len() as int)
    }

    /// `index` lies in the range of weights that the record of `a` gives `b`.
    pub open spec fn picks(&self, a: TokenView, index: nat, b: TokenView) -> bool {
        exists|j: int|
            0 <= j < self.contexts@.len() && (#[trigger] self.contexts@[j]).token@ == a
                && self.contexts@[j].picks(index, b)
    }

    /// Each step of `p` was taken by drawing the matching index of `ds`: an index
    /// below the total of the token left, whose range of weights is the next token's.
    pub open spec fn walk_drawn(&self, p: Seq<TokenView>, ds: Seq<u32>) -> bool {
        &&& ds.len() + 1 == p.len()
        &&& forall|k: int|
            0 <= k < ds.len() ==> #[trigger] ds[k] < self.total(p[k]) && self.picks(
                p[k],
                ds[k] as nat,
                p[k + 1],
            )
    }

    /// What `add_pair(l, r)` does: one more `(l, r)`, one more for the total of `l`,
    /// and nothing else.
    pub open spec fn pair_added(&self, before: &KnowledgeBase, l: TokenView, r: TokenView) -> bool {
        &&& forall|a: TokenView, b: TokenView|
            #![auto]
            self.weight(a, b) == before.weight(a, b) + if a == l && b == r {
                1nat
            } else {
                0nat
            }
        &&& forall|a: TokenView|
            #![auto]
            self.total(a) == before.total(a) + if a == l {
                1nat
            } else {
                0nat
            }
    }

    /// An empty knowledge base.
    pub fn new() -> (r: KnowledgeBase)
        ensures
            r.wf(),
            forall|a: TokenView, b: TokenView| #![auto] r.weight(a, b) == 0,
            forall|a: TokenView| #![auto] r.total(a) == 0,
            r.contexts@.len() == 0,
            r.closed(),
    {
        KnowledgeBase { contexts: Vec::new() }
    }

    /// The number of tokens that have a record.
    pub fn num_tokens(&self) -> (r: usize)
        ensures
            r == self.contexts@.len(),
    {
        self.contexts.len()
    }

    /// The index of the record of `t`, if it has one.
    fn find_context(&self, t: &Token) -> (r: Option<usize>)
        requires
            self.wf(),
        ensures
            match r {
                Some(i) => i < self.contexts@.len() && self.contexts@[i as int].token@ == t@,
                None => forall|j: int|
                    0 <= j < self.contexts@.len() ==> self.contexts@[j].token@ != t@,
            },
    {
        let mut i: usize = 0;
        while i < self.contexts.len()
            invariant
                i <= self.contexts@.len(),
                forall|j: int| 0 <= j < i ==> self.contexts@[j].token@ != t@,
            decreases self.contexts@.len() - i,
        {
            if self.contexts[i].token.same_as(t) {
                return Some(i);
            }
            i = i + 1;
        }
        None
    }

    /// How often `right` has been trained right after `left`.
    pub fn weight_of(&self, left: &Token, right: &Token) -> (r: u32)
        requires
            self.wf(),
        ensures
            r as nat == self.weight(left@, right@),
    {
        let ghost ctxs = self.contexts@;
        match self.find_context(left) {
            Some(i) => {
                proof {
                    lemma_ctx_at(ctxs, i as int, right@, ctxs.len() as int);
                }
                self.contexts[i].count(right)
            },
            None => {
                proof {
                    lemma_ctx_absent(ctxs, left@, right@, ctxs.len() as int);
                }
                0
            },
        }
    }

    /// How often anything has been trained right after `left`.
    pub fn total_of(&self, left: &Token) -> (r: u32)
        requires
            self.wf(),
        ensures
            r as nat == self.total(left@),
    {
        let ghost ctxs = self.contexts@;
        match self.find_context(left) {
            Some(i) => {
                proof {
                    lemma_ctx_at(ctxs, i as int, left@, ctxs.len() as int);
                }
                self.contexts[i].total_weight()
            },
            None => {
                proof {
                    lemma_ctx_absent(ctxs, left@, left@, ctxs.len() as int);
                }
                0
            },
        }
    }

    /// Records that `right` followed `left` once more.
    pub fn add_pair(&mut self, left: &Token, right: &Token)
        requires
            old(self).wf(),
            old(self).total(left@) < u32::MAX,
        ensures
            final(self).wf(),
            final(self).contexts@.len() == old(self).contexts@.len() + if old(self).total(left@)
                == 0 {
                1nat
            } else {
                0nat
            },
            final(self).pair_added(old(self), left@, right@),
            forall|a: TokenView|
                #![auto]
                final(self).successors_of(a) == keys_after(
                    old(self).successors_of(a),
                    seq![left@, right@],
                    a,
                ),
    {
        let ghost ctxs0 = self.contexts@;
        let ghost n0 = ctxs0.len() as int;
        match self.find_context(left) {
            Some(i) => {
                proof {
                    lemma_ctx_at(ctxs0, i as int, right@, n0);
                    assert(ctxs0[i as int].wf() && ctxs0[i as int].total_weight > 0);
                }
                self.contexts[i].add_next(right);
                proof {
                    let ctxs1 = self.contexts@;
                    assert(ctxs1 == ctxs0.update(i as int, ctxs1[i as int]));
                    assert forall|j: int, k: int| 0 <= j < k < ctxs1.len() implies ctxs1[j].token@
                        != ctxs1[k].token@ by {
                        assert(ctxs1[j].token@ == ctxs0[j].token@);
                        assert(ctxs1[k].token@ == ctxs0[k].token@);
                    }
                    assert forall|a: TokenView, b: TokenView|
                        #![auto]
                        self.weight(a, b) == old(self).weight(a, b) + if a == left@ && b
                            == right@ {
                            1nat
                        } else {
                            0nat
                        } && self.total(a) == old(self).total(a) + if a == left@ {
                            1nat
                        } else {
                            0nat
                        } by {
                        if a == left@ {
                            lemma_ctx_at(ctxs0, i as int, b, n0);
                            lemma_ctx_at(ctxs1, i as int, b, n0);
                        } else if exists|j: int| 0 <= j < n0 && ctxs0[j].token@ == a {
                            let j = choose|j: int| 0 <= j < n0 && ctxs0[j].token@ == a;
                            lemma_ctx_at(ctxs0, j, b, n0);
                            lemma_ctx_at(ctxs1, j, b, n0);
                        } else {
                            lemma_ctx_absent(ctxs0, a, b, n0);
                            lemma_ctx_absent(ctxs1, a, b, n0);
                        }
                    }
                    assert forall|a: TokenView|
                        #![auto]
                        self.total(a) == old(self).total(a) + if a == left@ {
                            1nat
                        } else {
                            0nat
                        } by {
                        assert(self.weight(a, a) == old(self).weight(a, a) + if a == left@ && a
                            == right@ {
                            1nat
                        } else {
                            0nat
                        });
                    }
                    assert forall|a: TokenView|
                        #![auto]
                        self.successors_of(a) == keys_after(
                            old(self).successors_of(a),
                            seq![left@, right@],
                            a,
                        ) by {
                        let s2 = seq![left@, right@];
                        assert(s2.drop_last().len() == 1);
                        assert(keys_after(old(self).successors_of(a), s2.drop_last(), a)
                            == old(self).successors_of(a));
                        if a == left@ {
                            lemma_keys_at(ctxs0, i as int, n0);
                            lemma_keys_at(ctxs1, i as int, n0);
                        } else if exists|j: int| 0 <= j < n0 && ctxs0[j].token@ == a {
                            let j = choose|j: int| 0 <= j < n0 && ctxs0[j].token@ == a;
                            lemma_keys_at(ctxs0, j, n0);
                            lemma_keys_at(ctxs1, j, n0);
                        } else {
                            lemma_keys_absent(ctxs0, a, n0);
                            lemma_keys_absent(ctxs1, a, n0);
                        }
                    }
                    assert forall|j: int| 0 <= j < self.contexts@.len() implies (#[trigger] self.contexts@[j]).wf()
                        && self.contexts@[j].total_weight > 0 by {
                        if j != i {
                            assert(self.contexts@[j] == ctxs0[j]);
                        }
                    }
                }
            },
            None => {
                proof {
                    lemma_ctx_absent(ctxs0, left@, right@, n0);
                }
                let mut c = TokenContext::new(left);
                c.add_next(right);
                self.contexts.push(c);
                proof {
                    let ctxs1 = self.contexts@;
                    assert(ctxs1 == ctxs0.push(c));
                    assert forall|j: int, k: int| 0 <= j < k < ctxs1.len() implies ctxs1[j].token@
                        != ctxs1[k].token@ by {
                        if k < n0 {
                            assert(ctxs1[j] == ctxs0[j] && ctxs1[k] == ctxs0[k]);
                        } else {
                            assert(ctxs1[j] == ctxs0[j]);
                        }
                    }
                    assert forall|a: TokenView, b: TokenView|
                        #![auto]
                        self.weight(a, b) == old(self).weight(a, b) + if a == left@ && b
                            == right@ {
                            1nat
                        } else {
                            0nat
                        } && self.total(a) == old(self).total(a) + if a == left@ {
                            1nat
                        } else {
                            0nat
                        } by {
                        if a == left@ {
                            lemma_ctx_absent(ctxs0, a, b, n0);
                            lemma_ctx_at(ctxs1, n0, b, n0 + 1);
                        } else if exists|j: int| 0 <= j < n0 && ctxs0[j].token@ == a {
                            let j = choose|j: int| 0 <= j < n0 && ctxs0[j].token@ == a;
                            lemma_ctx_at(ctxs0, j, b, n0);
                            lemma_ctx_at(ctxs1, j, b, n0 + 1);
                        } else {
                            lemma_ctx_absent(ctxs0, a, b, n0);
                            lemma_ctx_absent(ctxs1, a, b, n0 + 1);
                        }
                    }
                    assert forall|a: TokenView|
                        #![auto]
                        self.total(a) == old(self).total(a) + if a == left@ {
                            1nat
                        } else {
                            0nat
                        } by {
                        assert(self.weight(a, a) == old(self).weight(a, a) + if a == left@ && a
                            == right@ {
                            1nat
                        } else {
                            0nat
                        });
                    }
                    assert forall|a: TokenView|
                        #![auto]
                        self.successors_of(a) == keys_after(
                            old(self).successors_of(a),
                            seq![left@, right@],
                            a,
                        ) by {
                        let s2 = seq![left@, right@];
                        assert(s2.drop_last().len() == 1);
                        assert(keys_after(old(self).successors_of(a), s2.drop_last(), a)
                            == old(self).successors_of(a));
                        if a == left@ {
                            lemma_keys_absent(ctxs0, a, n0);
                            lemma_keys_at(ctxs1, n0, n0 + 1);
                            assert(Seq::<TokenView>::empty().push(right@) == c.keys());
                        } else if exists|j: int| 0 <= j < n0 && ctxs0[j].token@ == a {
                            let j = choose|j: int| 0 <= j < n0 && ctxs0[j].token@ == a;
                            lemma_keys_at(ctxs0, j, n0);
                            lemma_keys_at(ctxs1, j, n0 + 1);
                        } else {
                            lemma_keys_absent(ctxs0, a, n0);
                            lemma_keys_absent(ctxs1, a, n0 + 1);
                        }
                    }
                    assert forall|j: int| 0 <= j < self.contexts@.len() implies (#[trigger] self.contexts@[j]).wf()
                        && self.contexts@[j].total_weight > 0 by {
                        if j < n0 {
                            assert(self.contexts@[j] == ctxs0[j]);
                        }
                    }
                }
            },
        }
    }

    /// Whether every token's total stays within a `u32` after `extra` more pairs.
    pub fn fits(&self, extra: usize) -> (r: bool)
        requires
            self.wf(),
        ensures
            r == forall|a: TokenView| #![auto] self.total(a) + extra <= u32::MAX,
    {
        let ghost ctxs = self.contexts@;
        let ghost len = ctxs.len() as int;
        if extra > u32::MAX as usize {
            proof {
                lemma_ctx_absent(ctxs, end_marker(), end_marker(), 0);
                assert(self.total(end_marker()) + extra > u32::MAX);
            }
            return false;
        }
        let room = u32::MAX - extra as u32;
        let mut i: usize = 0;
        while i < self.contexts.len()
            invariant
                ctxs == self.contexts@,
                len == ctxs.len(),
                self.wf(),
                i <= len,
                extra <= u32::MAX,
                room == u32::MAX - extra,
                forall|j: int| 0 <= j < i ==> (#[trigger] ctxs[j]).total_weight <= room,
            decreases len - i,
        {
            if self.contexts[i].total_weight > room {
                proof {
                    lemma_ctx_at(ctxs, i as int, end_marker(), len);
                    assert(self.total(ctxs[i as int].token@) + extra > u32::MAX);
                }
                return false;
            }
            i = i + 1;
        }
        proof {
            assert forall|a: TokenView| #![auto] self.total(a) + extra <= u32::MAX by {
                if exists|j: int| 0 <= j < len && ctxs[j].token@ == a {
                    let j = choose|j: int| 0 <= j < len && ctxs[j].token@ == a;
                    lemma_ctx_at(ctxs, j, a, len);
                } else {
                    lemma_ctx_absent(ctxs, a, a, len);
                }
            }
        }
        true
    }

    /// Trains every pair of neighbours in `tokens`.
    pub fn train(&mut self, tokens: &Vec<Token>)
        requires
            old(self).wf(),
            forall|a: TokenView| #![auto] old(self).total(a) + tokens@.len() <= u32::MAX,
        ensures
            final(self).wf(),
            final(self).trained_from(old(self), views(tokens@)),
            old(self).closed() && tokens@.len() > 0 && tokens@.last().kind == TokenKind::InputEnd
                ==> final(self).closed(),
            final(self).contexts@.len() >= old(self).contexts@.len(),
            forall|a: TokenView|
                #![auto]
                final(self).successors_of(a) == keys_after(
                    old(self).successors_of(a),
                    views(tokens@),
                    a,
                ),
            (forall|a: TokenView|
                #![auto]
                left_count(views(tokens@), a) > 0 ==> old(self).total(a) > 0)
                ==> final(self).contexts@.len() == old(self).contexts@.len(),
    {
        let ghost s = views(tokens@);
        let n = tokens.len();
        if n == 0 {
            return;
        }
        assert(s.take(1).len() == 1);
        let mut i: usize = 1;
        while i < n
            invariant
                self.wf(),
                n == tokens@.len(),
                s == views(tokens@),
                1 <= i <= n,
                self.trained_from(old(self), s.take(i as int)),
                forall|a: TokenView| #![auto] old(self).total(a) + n <= u32::MAX,
                self.contexts@.len() >= old(self).contexts@.len(),
                forall|a: TokenView|
                    #![auto]
                    self.successors_of(a) == keys_after(old(self).successors_of(a), s.take(i as int), a),
                (forall|a: TokenView|
                    #![auto]
                    left_count(s, a) > 0 ==> old(self).total(a) > 0) ==> self.contexts@.len()
                    == old(self).contexts@.len(),
            decreases n - i,
        {
            proof {
                lemma_left_count_bound(s.take(i as int), tokens@[i - 1]@);
                assert(self.total(tokens@[i - 1]@) == old(self).total(tokens@[i - 1]@) + left_count(
                    s.take(i as int),
                    tokens@[i - 1]@,
                ));
            }
            proof {
                if forall|a: TokenView| #![auto] left_count(s, a) > 0 ==> old(self).total(a) > 0 {
                    lemma_left_count_take(s, tokens@[i - 1]@, i as int);
                    assert(old(self).total(tokens@[i - 1]@) > 0);
                }
            }
            let ghost mid = *self;
            self.add_pair(&tokens[i - 1], &tokens[i]);
            proof {
                let t = s.take(i + 1);
                assert(t.drop_last() == s.take(i as int));
                let s2 = seq![tokens@[i - 1]@, tokens@[i as int]@];
                assert(s2.drop_last().len() == 1);
                assert forall|a: TokenView| #![auto]
                    self.successors_of(a) == keys_after(old(self).successors_of(a), t, a) by {
                    assert(keys_after(mid.successors_of(a), s2.drop_last(), a) == mid.successors_of(a));
                    assert(self.successors_of(a) == keys_after(mid.successors_of(a), s2, a));
                }
                assert(t[t.len() - 2] == tokens@[i - 1]@);
                assert(t[t.len() - 1] == tokens@[i as int]@);
            }
            i = i + 1;
        }
        proof {
            assert(s.take(n as int) == s);
            if old(self).closed() && s.last().kind == TokenKind::InputEnd {
                assert forall|a: TokenView, b: TokenView|
                    #![trigger self.weight(a, b)]
                    self.weight(a, b) > 0 && b.kind != TokenKind::InputEnd implies self.total(b)
                    > 0 by {
                    if pair_count(s, a, b) > 0 {
                        lemma_successor_leads_on(s, a, b);
                    } else {
                        assert(old(self).weight(a, b) > 0);
                    }
                }
            }
        }
    }

    /// Tokenizes `line` and trains its tokens, between the start and end markers.
    pub fn train_line(&mut self, line: &str) -> (r: Result<(), TrainError>)
        requires
            old(self).wf(),
        ensures
            final(self).wf(),
            match r {
                Ok(()) => exists|t: Seq<TokenView>|
                    line_tokens(line@) == Some(t) && final(self).trained_from(
                        old(self),
                        seq![start_marker()] + t + seq![end_marker()],
                    ) && forall|a: TokenView|
                        #![auto]
                        final(self).successors_of(a) == keys_after(
                            old(self).successors_of(a),
                            seq![start_marker()] + t + seq![end_marker()],
                            a,
                        ),
                Err(TrainError::Tokenize(_)) => line_tokens(line@) is None && *final(self)
                    == *old(self),
                Err(TrainError::CountOverflow) => exists|t: Seq<TokenView>|
                    line_tokens(line@) == Some(t) && !(forall|a: TokenView|
                        #![auto]
                        old(self).total(a) + t.len() + 2 <= u32::MAX) && *final(self) == *old(self),
            },
            r is Ok && old(self).closed() ==> final(self).closed(),
    {
        match tokenize(line) {
            Err(e) => Err(TrainError::Tokenize(e)),
            Ok(tokens) => {
                let ghost t = choose|t: Seq<TokenView>|
                    line_tokens(line@) == Some(t) && views(tokens@) == seq![start_marker()] + t
                        + seq![end_marker()];
                assert(tokens@.len() == views(tokens@).len());
                assert(tokens@.len() == t.len() + 2);
                if !self.fits(tokens.len()) {
                    return Err(TrainError::CountOverflow);
                }
                proof {
                    assert(views(tokens@).last() == end_marker());
                    assert(tokens@.last()@ == views(tokens@).last());
                }
                self.train(&tokens);
                Ok(())
            },
        }
    }

    /// Walks the graph from the start marker, drawing each step from `rng` in
    /// proportion to the trained counts, until a token of the end kind; returns the
    /// texts met on the way, one space between each two.
    pub fn gen_output<R: IndexSource>(&self, rng: &mut R) -> (r: Result<String, GenerateError>)
        requires
            self.wf(),
        ensures
            exists|p: Seq<TokenView>, ds: Seq<u32>|
                #![trigger self.walk_drawn(p, ds)]
                final(rng).draws() == old(rng).draws() + ds && self.is_walk(p) && self.walk_drawn(p, ds)
                    && match r {
                    Ok(s) => p.last().kind == TokenKind::InputEnd && s@ == render(p),
                    Err(GenerateError::MissingContext) => p.last().kind != TokenKind::InputEnd
                        && self.total(p.last()) == 0,
                    Err(GenerateError::WalkTooLong) => p.last().kind != TokenKind::InputEnd
                        && p.len() == u64::MAX + 1,
                },
            self.total(start_marker()) == 0 ==> r == Err::<String, GenerateError>(
                GenerateError::MissingContext,
            ) && final(rng).draws() == old(rng).draws(),
            self.closed() && self.total(start_marker()) > 0 ==> r != Err::<String, GenerateError>(
                GenerateError::MissingContext,
            ),
    {
        let ghost d0 = rng.draws();
        let ghost mut ds: Seq<u32> = Seq::empty();
        let mut out = String::new();
        let mut current = Token::new(TokenKind::InputStart);
        let mut any_text = false;
        let mut steps: u64 = 0;
        let ghost mut path = seq![current@];
        proof {
            assert(texts(path) == texts(path.drop_last()));
            assert(path.drop_last().len() == 0);
        }
        while current.is_not_end()
            invariant
                self.wf(),
                self.is_walk(path),
                path.last() == current@,
                path.len() == steps + 1,
                out@ == render(path),
                any_text == (texts(path).len() > 0),
                steps > 0 ==> self.total(start_marker()) > 0,
                rng.draws() == d0 + ds,
                d0 == old(rng).draws(),
                self.walk_drawn(path, ds),
                self.closed() && self.total(start_marker()) > 0 && current@.kind
                    != TokenKind::InputEnd ==> self.total(current@) > 0,
            decreases u64::MAX - steps,
        {
            if steps == u64::MAX {
                assert(self.walk_drawn(path, ds));
                return Err(GenerateError::WalkTooLong);
            }
            let i = match self.find_context(&current) {
                Some(i) => i,
                None => {
                    proof {
                        lemma_ctx_absent(self.contexts@, current@, current@, self.contexts@.len() as int);
                        assert(self.walk_drawn(path, ds));
                        if steps == 0 {
                            assert(ds.len() == 0);
                            assert(d0 + ds == d0);
                        }
                    }
                    return Err(GenerateError::MissingContext);
                },
            };
            let ctx = &self.contexts[i];
            assert(self.contexts@[i as int].wf() && ctx.total_weight > 0);
            let index = rng.index_below(ctx.total_weight());
            let next = ctx.get_weighted(index).duplicate();
            proof {
                lemma_ctx_at(self.contexts@, i as int, next@, self.contexts@.len() as int);
                lemma_ctx_at(self.contexts@, i as int, current@, self.contexts@.len() as int);
            }
            let ghost old_path = path;
            let ghost old_ds = ds;
            let ghost old_out = out@;
            proof {
                ds = ds.push(index);
                assert(rng.draws() == d0 + ds);
                assert(self.picks(current@, index as nat, next@));
            }
            match next.value() {
                Some(text) => {
                    if any_text {
                        out.append(" ");
                    }
                    out.append(text);
                    any_text = true;
                },
                None => {},
            }
            proof {
                path = path.push(next@);
                assert(path.drop_last() == old_path);
                assert forall|j: int| 0 <= j < path.len() - 1 implies #[trigger] self.weight(path[j], path[j + 1]) > 0 by {
                    if j < old_path.len() - 1 {
                        assert(path[j] == old_path[j] && path[j + 1] == old_path[j + 1]);
                    }
                }
                assert forall|j: int| 0 <= j < path.len() - 1 implies (#[trigger] path[j]).kind != TokenKind::InputEnd by {
                    if j < old_path.len() - 1 {
                        assert(path[j] == old_path[j]);
                    }
                }
                assert(self.weight(current@, next@) > 0);
                assert forall|k: int| 0 <= k < ds.len() implies #[trigger] ds[k] < self.total(path[k])
                    && self.picks(path[k], ds[k] as nat, path[k + 1]) by {
                    if k < old_ds.len() {
                        assert(ds[k] == old_ds[k]);
                        assert(path[k] == old_path[k] && path[k + 1] == old_path[k + 1]);
                    }
                }
                reveal_strlit(" ");
                let w = texts(path);
                if next@.text is Some {
                    assert(w.drop_last() == texts(old_path));
                    if texts(old_path).len() > 0 {
                        assert(out@ == old_out + seq![' '] + w.last());
                    } else {
                        assert(out@ == w[0]);
                    }
                } else {
                    assert(w == texts(old_path));
                }
            }
            current = next;
            steps = steps + 1;
        }
        Ok(out)
    }
}

/// Trained once from an empty knowledge base, every pair `(a, b)` has exactly the
/// count of its occurrences in the sequence, and the total of `a` is the number of
/// pairs that start with it.
pub proof fn law_trained_counts(before: &KnowledgeBase, after: &KnowledgeBase, s: Seq<TokenView>)
    requires
        before.contexts@.len() == 0,
        after.trained_from(before, s),
    ensures
        forall|a: TokenView, b: TokenView| #![auto] after.weight(a, b) == pair_count(s, a, b),
        forall|a: TokenView| #![auto] after.total(a) == left_count(s, a),
{
    assert forall|a: TokenView, b: TokenView| #![auto] after.weight(a, b) == pair_count(s, a, b) by {
        assert(before.weight(a, b) == 0);
    }
    assert forall|a: TokenView| #![auto] after.total(a) == left_count(s, a) by {
        assert(before.total(a) == 0);
    }
}

/// Training the same sequence a second time adds to every pair exactly what the
/// first training added, and every token it trains as the left of a pair already
/// has a record then, so `train` adds no record the second time.
pub proof fn law_train_twice(
    k0: &KnowledgeBase,
    k1: &KnowledgeBase,
    k2: &KnowledgeBase,
    s: Seq<TokenView>,
)
    requires
        k1.trained_from(k0, s),
        k2.trained_from(k1, s),
    ensures
        forall|a: TokenView, b: TokenView|
            #![auto]
            k2.weight(a, b) == k1.weight(a, b) + (k1.weight(a, b) - k0.weight(a, b)),
        forall|a: TokenView, b: TokenView|
            #![auto]
            k2.weight(a, b) == k0.weight(a, b) + 2 * pair_count(s, a, b),
        forall|a: TokenView| #![auto] left_count(s, a) > 0 ==> k1.total(a) > 0,
{
}

/// Training the tokens of the empty line adds one to the pair of the start and end
/// markers and nothing else.
pub proof fn law_train_empty_line(before: &KnowledgeBase, after: &KnowledgeBase)
    requires
        after.trained_from(before, seq![start_marker(), end_marker()]),
    ensures
        forall|a: TokenView, b: TokenView|
            #![auto]
            after.weight(a, b) == before.weight(a, b) + if a == start_marker() && b
                == end_marker() {
                1nat
            } else {
                0nat
            },
{
    let s = seq![start_marker(), end_marker()];
    assert forall|a: TokenView, b: TokenView| #![auto]
        pair_count(s, a, b) == if a == start_marker() && b == end_marker() {
            1nat
        } else {
            0nat
        } by {
        assert(s.drop_last().len() == 1);
        assert(pair_count(s.drop_last(), a, b) == 0);
        assert(s[0] == start_marker() && s[1] == end_marker());
        assert(pair_count(s, a, b) == pair_count(s.drop_last(), a, b) + if s[0] == a && s[1] == b {
            1nat
        } else {
            0nat
        });
    }
}

/// How many of the first `n` pairs `(ls[i], rs[i])` are `(a, b)`.
pub open spec fn pair_occurrences(
    ls: Seq<TokenView>,
    rs: Seq<TokenView>,
    a: TokenView,
    b: TokenView,
    n: int,
) -> nat
    decreases n,
{
    if n <= 0 {
        0
    } else {
        pair_occurrences(ls, rs, a, b, n - 1) + if ls[n - 1] == a && rs[n - 1] == b {
            1nat
        } else {
            0nat
        }
    }
}

/// How many of the first `n` entries of `ls` are `a`.
pub open spec fn left_occurrences(ls: Seq<TokenView>, a: TokenView, n: int) -> nat
    decreases n,
{
    if n <= 0 {
        0
    } else {
        left_occurrences(ls, a, n - 1) + if ls[n - 1] == a {
            1nat
        } else {
            0nat
        }
    }
}

proof fn lemma_added_pairs(kbs: Seq<KnowledgeBase>, ls: Seq<TokenView>, rs: Seq<TokenView>, n: int)
    requires
        kbs.len() == ls.len() + 1,
        ls.len() == rs.len(),
        0 <= n <= ls.len(),
        forall|i: int| 0 <= i < ls.len() ==> #[trigger] kbs[i + 1].pair_added(&kbs[i], ls[i], rs[i]),
    ensures
        forall|a: TokenView, b: TokenView|
            #![auto]
            kbs[n].weight(a, b) == kbs[0].weight(a, b) + pair_occurrences(ls, rs, a, b, n),
        forall|a: TokenView|
            #![auto]
            kbs[n].total(a) == kbs[0].total(a) + left_occurrences(ls, a, n),
    decreases n,
{
    if n > 0 {
        lemma_added_pairs(kbs, ls, rs, n - 1);
        let i = n - 1;
        assert(kbs[i + 1].pair_added(&kbs[i], ls[i], rs[i]));
        assert(i + 1 == n);
    }
}

/// Over a run of `add_pair(ls[i], rs[i])` calls taking `kbs[i]` to `kbs[i + 1]`,
/// every pair `(a, b)` gains exactly the number of calls that added it, and the
/// total of `a` the number of calls with `a` on the left. From an empty base the
/// counts are those numbers; adding the same pairs again adds them once more.
pub proof fn law_added_pairs_counts(kbs: Seq<KnowledgeBase>, ls: Seq<TokenView>, rs: Seq<TokenView>)
    requires
        kbs.len() == ls.len() + 1,
        ls.len() == rs.len(),
        forall|i: int| 0 <= i < ls.len() ==> #[trigger] kbs[i + 1].pair_added(&kbs[i], ls[i], rs[i]),
    ensures
        forall|a: TokenView, b: TokenView|
            #![auto]
            kbs.last().weight(a, b) == kbs[0].weight(a, b) + pair_occurrences(
                ls,
                rs,
                a,
                b,
                ls.len() as int,
            ),
        forall|a: TokenView|
            #![auto]
            kbs.last().total(a) == kbs[0].total(a) + left_occurrences(ls, a, ls.len() as int),
        kbs[0].contexts@.len() == 0 ==> forall|a: TokenView, b: TokenView|
            #![auto]
            kbs.last().weight(a, b) == pair_occurrences(ls, rs, a, b, ls.len() as int),
{
    lemma_added_pairs(kbs, ls, rs, ls.len() as int);
    assert forall|a: TokenView, b: TokenView| #![auto] kbs[0].contexts@.len() == 0 implies kbs.last().weight(a, b) == pair_occurrences(ls, rs, a, b, ls.len() as int) by {
        let k0 = kbs[0];
        assert(k0.weight(a, b) == weight_prefix(k0.contexts@, a, b, 0));
    }
}

/// At a token that has been trained, drawing index 0 picks the first successor
/// ever trained after it.
pub proof fn law_lowest_index_picks_first(kb: &KnowledgeBase, a: TokenView, b: TokenView)
    requires
        kb.wf(),
        kb.total(a) > 0,
    ensures
        kb.successors_of(a).len() > 0,
        kb.picks(a, 0, b) <==> b == kb.successors_of(a)[0],
{
    let ctxs = kb.contexts@;
    let n = ctxs.len() as int;
    if forall|j: int| 0 <= j < n ==> ctxs[j].token@ != a {
        lemma_ctx_absent(ctxs, a, a, n);
    }
    let j = choose|j: int| 0 <= j < n && ctxs[j].token@ == a;
    let c = ctxs[j];
    assert(c.wf());
    lemma_ctx_at(ctxs, j, a, n);
    lemma_keys_at(ctxs, j, n);
    assert(c.keys().len() > 0);
    assert(c.range_end(-1) == 0);
    assert(c.range_end(0) == c.counts@[0]);
    if b == c.keys()[0] {
        assert(c.picks(0, b));
    }
    if kb.picks(a, 0, b) {
        let j2 = choose|j2: int| 0 <= j2 < n && (#[trigger] ctxs[j2]).token@ == a && ctxs[j2].picks(0, b);
        assert(j2 == j);
        let k = choose|k: int|
            0 <= k < c.keys().len() && c.range_end(k - 1) <= 0 < c.range_end(k) && b
                == #[trigger] c.keys()[k];
        if k > 0 {
            crate::context::lemma_sum_monotone(c.counts@, 1, k);
        }
    }
}

} // verus!
