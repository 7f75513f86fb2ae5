use vstd::prelude::*;
use vstd::set_lib::{lemma_int_range, set_int_range};
use crate::token::{Token, TokenView};

verus! {

/// The count that `t` has among the first `n` entries of `keys` / `counts`.
pub open spec fn count_prefix(keys: Seq<TokenView>, counts: Seq<u32>, t: TokenView, n: int) -> nat
    decreases n,
{
    if n <= 0 {
        0
    } else {
        count_prefix(keys, counts, t, n - 1) + if keys[n - 1] == t {
            counts[n - 1] as nat
        } else {
            0
        }
    }
}

/// The sum of the first `n` counts.
pub open spec fn sum_prefix(counts: Seq<u32>, n: int) -> nat
    decreases n,
{
    if n <= 0 {
        0
    } else {
        sum_prefix(counts, n - 1) + counts[n - 1] as nat
    }
}

/// No token occurs twice in `keys`.
pub open spec fn unique_keys(keys: Seq<TokenView>) -> bool {
    forall|i: int, j: int| 0 <= i < j < keys.len() ==> keys[i] != keys[j]
}

/// Where `t` is not among the first `n` keys, its count there is zero.
proof fn lemma_count_absent(keys: Seq<TokenView>, counts: Seq<u32>, t: TokenView, n: int)
    requires
        0 <= n <= keys.len(),
        forall|j: int| 0 <= j < n ==> keys[j] != t,
    ensures
        count_prefix(keys, counts, t, n) == 0,
    decreases n,
{
    if n > 0 {
        lemma_count_absent(keys, counts, t, n - 1);
    }
}

/// Where `t` stands at index `i` of unique keys, its count is the count at `i`.
pub proof fn lemma_count_at(keys: Seq<TokenView>, counts: Seq<u32>, i: int, n: int)
    requires
        unique_keys(keys),
        0 <= i < n <= keys.len(),
    ensures
        count_prefix(keys, counts, keys[i], n) == counts[i] as nat,
    decreases n,
{
    if n - 1 == i {
        lemma_count_absent(keys, counts, keys[i], i);
    } else {
        lemma_count_at(keys, counts, i, n - 1);
    }
}

/// Raising the count at index `i` by one raises the count of `keys[i]` and the sum
/// by one, and leaves every other count alone.
proof fn lemma_bump(keys: Seq<TokenView>, counts: Seq<u32>, i: int, n: int, t: TokenView)
    requires
        0 <= i < keys.len(),
        keys.len() == counts.len(),
        0 <= n <= keys.len(),
        counts[i] < u32::MAX,
    ensures
        count_prefix(keys, counts.update(i, (counts[i] + 1) as u32), t, n) == count_prefix(
            keys,
            counts,
            t,
            n,
        ) + if n > i && keys[i] == t {
            1nat
        } else {
            0nat
        },
        sum_prefix(counts.update(i, (counts[i] + 1) as u32), n) == sum_prefix(counts, n) + if n
            > i {
            1nat
        } else {
            0nat
        },
    decreases n,
{
    if n > 0 {
        lemma_bump(keys, counts, i, n - 1, t);
    }
}

/// Counts over a prefix do not see what is pushed at the end.
proof fn lemma_push_prefix(
    keys: Seq<TokenView>,
    counts: Seq<u32>,
    k: TokenView,
    c: u32,
    t: TokenView,
    n: int,
)
    requires
        0 <= n <= keys.len(),
        keys.len() == counts.len(),
    ensures
        count_prefix(keys.push(k), counts.push(c), t, n) == count_prefix(keys, counts, t, n),
        sum_prefix(counts.push(c), n) == sum_prefix(counts, n),
    decreases n,
{
    if n > 0 {
        lemma_push_prefix(keys, counts, k, c, t, n - 1);
    }
}

/// Sums over a prefix grow with the prefix.
pub proof fn lemma_sum_monotone(counts: Seq<u32>, m: int, n: int)
    requires
        0 <= m <= n <= counts.len(),
    ensures
        sum_prefix(counts, m) <= sum_prefix(counts, n),
    decreases n - m,
{
    if m < n {
        lemma_sum_monotone(counts, m, n - 1);
    }
}

/// An index below the sum of the first `n` counts lies in the range of one of them.
proof fn lemma_find_range(counts: Seq<u32>, index: nat, n: int)
    requires
        0 <= n <= counts.len(),
        index < sum_prefix(counts, n),
    ensures
        exists|k: int| 0 <= k < n && sum_prefix(counts, k) <= index < #[trigger] sum_prefix(counts, k + 1),
    decreases n,
{
    if index < sum_prefix(counts, n - 1) {
        lemma_find_range(counts, index, n - 1);
    } else {
        let k = n - 1;
        assert(sum_prefix(counts, k) <= index < sum_prefix(counts, k + 1));
    }
}

/// The record of what has been seen to follow one token, and how often.
pub struct TokenContext {
    pub token: Token,
    pub successors: Vec<Token>,
    pub counts: Vec<u32>,
    pub total_weight: u32,
}

impl TokenContext {
    /// The successors, in the order in which they were first seen.
    pub open spec fn keys(&self) -> Seq<TokenView> {
        self.successors@.map_values(|t: Token| t@)
    }

    /// How often `t` has been seen to follow.
    pub open spec fn count_of(&self, t: TokenView) -> nat {
        count_prefix(self.keys(), self.counts@, t, self.counts@.len() as int)
    }

    /// The first index past the range of weights that belongs to entry `k`.
    pub open spec fn range_end(&self, k: int) -> nat {
        sum_prefix(self.counts@, k + 1)
    }

    /// `index` lies in the range of weights of successor `b`.
    pub open spec fn picks(&self, index: nat, b: TokenView) -> bool {
        exists|k: int|
            0 <= k < self.keys().len() && self.range_end(k - 1) <= index < self.range_end(k)
                && b == #[trigger] self.keys()[k]
    }

    /// Unique successors with positive counts, and a total that is their sum.
    pub open spec fn wf(&self) -> bool {
        &&& self.successors@.len() == self.counts@.len()
        &&& unique_keys(self.keys())
        &&& forall|i: int| 0 <= i < self.counts@.len() ==> self.counts@[i] > 0
        &&& self.total_weight as nat == sum_prefix(self.counts@, self.counts@.len() as int)
    }

    /// An empty record for `token`.
    pub fn new(token: &Token) -> (r: TokenContext)
        ensures
            r.wf(),
            r.token@ == token@,
            r.keys() == Seq::<TokenView>::empty(),
            r.total_weight == 0,
    {
        let r = TokenContext {
            token: token.duplicate(),
            successors: Vec::new(),
            counts: Vec::new(),
            total_weight: 0,
        };
        assert(r.keys() =~= Seq::<TokenView>::empty());
        r
    }

    /// The sum of all counts.
    pub fn total_weight(&self) -> (r: u32)
        ensures
            r == self.total_weight,
    {
        self.total_weight
    }

    /// The index of `t` among the successors, if it is one.
    fn find(&self, t: &Token) -> (r: Option<usize>)
        requires
            self.wf(),
        ensures
            match r {
                Some(i) => i < self.successors@.len() && self.keys()[i as int] == t@,
                None => !self.keys().contains(t@),
            },
    {
        let mut i: usize = 0;
        while i < self.successors.len()
            invariant
                self.wf(),
                i <= self.successors@.len(),
                forall|j: int| 0 <= j < i ==> self.keys()[j] != t@,
            decreases self.successors@.len() - i,
        {
            if self.successors[i].same_as(t) {
                return Some(i);
            }
            i = i + 1;
        }
        None
    }

    /// How often `t` has been seen to follow.
    pub fn count(&self, t: &Token) -> (r: u32)
        requires
            self.wf(),
        ensures
            r as nat == self.count_of(t@),
    {
        match self.find(t) {
            Some(i) => {
                proof {
                    lemma_count_at(self.keys(), self.counts@, i as int, self.counts@.len() as int);
                }
                self.counts[i]
            },
            None => {
                proof {
                    lemma_count_absent(self.keys(), self.counts@, t@, self.counts@.len() as int);
                }
                0
            },
        }
    }

    /// Records one more occurrence of `token` after this one.
    pub fn add_next(&mut self, token: &Token)
        requires
            old(self).wf(),
            old(self).total_weight < u32::MAX,
        ensures
            final(self).wf(),
            final(self).token == old(self).token,
            final(self).total_weight == old(self).total_weight + 1,
            final(self).keys() == if old(self).keys().contains(token@) {
                old(self).keys()
            } else {
                old(self).keys().push(token@)
            },
            forall|t: TokenView|
                #![auto]
                final(self).count_of(t) == old(self).count_of(t) + if t == token@ {
                    1nat
                } else {
                    0nat
                },
    {
        let ghost keys0 = self.keys();
        let ghost counts0 = self.counts@;
        let ghost n = counts0.len() as int;
        match self.find(token) {
            Some(i) => {
                proof {
                    lemma_count_at(keys0, counts0, i as int, n);
                    lemma_sum_monotone(counts0, i as int + 1, n);
                }
                let c = self.counts[i];
                self.counts[i] = c + 1;
                self.total_weight = self.total_weight + 1;
                proof {
                    assert(self.counts@ == counts0.update(i as int, (c + 1) as u32));
                    assert(self.keys() == keys0);
                    assert(keys0.contains(token@));
                    lemma_bump(keys0, counts0, i as int, n, keys0[i as int]);
                    assert forall|t: TokenView| #![auto]
                        self.count_of(t) == old(self).count_of(t) + if t == token@ {
                            1nat
                        } else {
                            0nat
                        } by {
                        lemma_bump(keys0, counts0, i as int, n, t);
                    }
                }
            },
            None => {
                self.successors.push(token.duplicate());
                self.counts.push(1);
                self.total_weight = self.total_weight + 1;
                proof {
                    assert(self.keys() == keys0.push(token@));
                    assert(self.keys()[n] == token@);
                    assert forall|t: TokenView| #![auto]
                        self.count_of(t) == old(self).count_of(t) + if t == token@ {
                            1nat
                        } else {
                            0nat
                        } by {
                        lemma_push_prefix(keys0, counts0, token@, 1, t, n);
                    }
                    lemma_push_prefix(keys0, counts0, token@, 1, token@, n);
                }
            },
        }
    }

    /// The successor whose range of weights holds `index`: entry `k` owns the
    /// indices from the sum of the counts before it up to, not including, the sum
    /// with its own count.
    pub fn get_weighted(&self, index: u32) -> (r: &Token)
        requires
            self.wf(),
            index < self.total_weight,
        ensures
            self.picks(index as nat, r@),
            self.count_of(r@) > 0,
    {
        let n = self.successors.len();
        let mut i: usize = 0;
        let mut before: u32 = 0;
        while i < n
            invariant
                self.wf(),
                n == self.counts@.len(),
                index < self.total_weight,
                i <= n,
                before as nat == sum_prefix(self.counts@, i as int),
                before <= index,
            decreases n - i,
        {
            proof {
                lemma_sum_monotone(self.counts@, i as int + 1, n as int);
            }
            let c = self.counts[i];
            if index - before < c {
                assert(self.keys()[i as int] == self.successors@[i as int]@);
                proof {
                    lemma_count_at(self.keys(), self.counts@, i as int, n as int);
                }
                return &self.successors[i];
            }
            before = before + c;
            i = i + 1;
        }
        proof {
            assert(false);
        }
        &self.successors[0]
    }
}

/// Every index below a context's total falls in the range of exactly one
/// successor, and the range of each successor holds exactly as many indices as
/// its count: entry `k` owns the indices from `range_end(k - 1)` up to
/// `range_end(k)`, which are `counts[k]` apart.
pub proof fn law_pick_ranges_partition(ctx: &TokenContext, index: nat)
    requires
        ctx.wf(),
        index < ctx.total_weight,
    ensures
        forall|k: int|
            0 <= k < ctx.counts@.len() ==> #[trigger] ctx.range_end(k) == ctx.range_end(k - 1)
                + ctx.counts@[k],
        exists|k: int|
            0 <= k < ctx.counts@.len() && ctx.range_end(k - 1) <= index < #[trigger] ctx.range_end(k),
        forall|k: int, l: int|
            0 <= k < ctx.counts@.len() && 0 <= l < ctx.counts@.len() && ctx.range_end(k - 1)
                <= index < #[trigger] ctx.range_end(k) && ctx.range_end(l - 1) <= index
                < #[trigger] ctx.range_end(l) ==> k == l,
{
    let n = ctx.counts@.len() as int;
    lemma_find_range(ctx.counts@, index, n);
    let k = choose|k: int|
        0 <= k < n && sum_prefix(ctx.counts@, k) <= index < #[trigger] sum_prefix(ctx.counts@, k + 1);
    assert(ctx.range_end(k - 1) == sum_prefix(ctx.counts@, k));
    assert(ctx.range_end(k - 1) <= index < ctx.range_end(k));
    assert forall|k1: int, l: int|
        0 <= k1 < n && 0 <= l < n && ctx.range_end(k1 - 1) <= index < #[trigger] ctx.range_end(k1)
            && ctx.range_end(l - 1) <= index < #[trigger] ctx.range_end(l) implies k1 == l by {
        if k1 < l {
            lemma_sum_monotone(ctx.counts@, k1 + 1, l);
        } else if l < k1 {
            lemma_sum_monotone(ctx.counts@, l + 1, k1);
        }
    }
}

/// Of the indices below a context's total, exactly as many pick `b` as `b` has
/// been counted: none for a token that never followed.
pub proof fn law_pick_counts(ctx: &TokenContext, b: TokenView)
    requires
        ctx.wf(),
    ensures
        Set::new(|i: int| 0 <= i < ctx.total_weight && ctx.picks(i as nat, b)).finite(),
        Set::new(|i: int| 0 <= i < ctx.total_weight && ctx.picks(i as nat, b)).len()
            == ctx.count_of(b),
{
    let picked = Set::new(|i: int| 0 <= i < ctx.total_weight && ctx.picks(i as nat, b));
    let keys = ctx.keys();
    let n = ctx.counts@.len() as int;
    if keys.contains(b) {
        let k = choose|k: int| 0 <= k < keys.len() && keys[k] == b;
        let lo = ctx.range_end(k - 1) as int;
        let hi = ctx.range_end(k) as int;
        assert(hi == lo + ctx.counts@[k]);
        lemma_sum_monotone(ctx.counts@, k + 1, n);
        assert forall|i: int| picked.contains(i) <==> set_int_range(lo, hi).contains(i) by {
            if picked.contains(i) {
                let k2 = choose|k2: int|
                    0 <= k2 < keys.len() && ctx.range_end(k2 - 1) <= (i as nat)
                        < ctx.range_end(k2) && b == #[trigger] keys[k2];
                assert(k2 == k);
            }
            if set_int_range(lo, hi).contains(i) {
                assert(b == keys[k]);
                assert(ctx.picks(i as nat, b));
            }
        }
        assert(picked =~= set_int_range(lo, hi));
        lemma_int_range(lo, hi);
        lemma_count_at(keys, ctx.counts@, k, n);
    } else {
        assert forall|i: int| !picked.contains(i) by {
            if picked.contains(i) {
                let k2 = choose|k2: int|
                    0 <= k2 < keys.len() && ctx.range_end(k2 - 1) <= (i as nat)
                        < ctx.range_end(k2) && b == #[trigger] keys[k2];
                assert(keys.contains(b));
            }
        }
        assert(picked =~= Set::<int>::empty());
        lemma_count_absent(keys, ctx.counts@, b, n);
    }
}

} // verus!
