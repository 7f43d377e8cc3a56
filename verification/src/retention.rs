use vstd::prelude::*;

verus! {

use vstd::arithmetic::power::{pow, lemma_pow_increases, lemma_pow_positive};
use vstd::arithmetic::div_mod::{
    lemma_fundamental_div_mod, lemma_mod_division_less_than_divisor, lemma_mod_multiples_basic,
    lemma_small_mod, lemma_sub_mod_noop,
};
use crate::catalog::strictly_descending;
use crate::config::{BtmCfg, SnapAlgo, STEP_CNT};
use crate::math::pow_u64;

/// A snapshot may be created at index `h` only when `h` is aligned to the
/// interval, counted downward from the maximum representable index.
pub open spec fn eligible(h: u64, itv: u64) -> bool {
    (u64::MAX - h) % (itv as int) == 0
}

/// Descending order (duplicates allowed).
pub open spec fn descending(s: Seq<u64>) -> bool {
    forall|i: int, j: int| 0 <= i <= j < s.len() ==> s[i] >= s[j]
}

/// Law (eligibility spacing): two distinct eligible indices lie at least one
/// interval apart, so each window of `itv` consecutive indices holds at most
/// one eligible index.
pub proof fn lemma_eligible_spacing(itv: u64, a: u64, b: u64)
    requires
        1 <= itv,
        a < b,
        eligible(a, itv),
        eligible(b, itv),
    ensures
        b - a >= itv,
{
    let m = itv as int;
    let x = u64::MAX - a;
    let y = u64::MAX - b;
    lemma_sub_mod_noop(x, y, m);
    lemma_small_mod(0nat, itv as nat);
    assert((x - y) % m == 0);
    assert(x - y == b - a);
    if b - a < itv {
        lemma_small_mod((b - a) as nat, itv as nat);
        assert(false);
    }
}

/// Law (eligibility density): every window of `itv` consecutive indices holds
/// an eligible index. Together with the spacing law: exactly one per window.
pub proof fn lemma_eligible_exists(itv: u64, lo: u64)
    requires
        1 <= itv,
        lo + itv - 1 <= u64::MAX,
    ensures
        exists|e: u64| lo <= e <= lo + itv - 1 && eligible(e, itv),
{
    let m = itv as int;
    let d = u64::MAX - lo;
    lemma_mod_division_less_than_divisor(d, m);
    let r = d % m;
    let e = (lo + r) as u64;
    lemma_fundamental_div_mod(d, m);
    let q = d / m;
    assert(u64::MAX - e == m * q);
    lemma_mod_multiples_basic(q, m);
    assert((q * m) % m == 0);
    assert(m * q == q * m) by (nonlinear_arith);
    assert(eligible(e, itv));
    assert(lo <= e <= lo + itv - 1 && eligible(e, itv));
}

impl BtmCfg {
    /// Whether index `h` is due for a snapshot under this configuration.
    pub fn is_eligible(&self, h: u64) -> (r: bool)
        requires
            1 <= self.itv,
        ensures
            r == eligible(h, self.itv),
    {
        0 == (u64::MAX - h) % self.itv
    }
}

/// The deletion plan of the `Fair` policy on a descending catalog: everything
/// beyond position `cap`, and nothing when the catalog is not yet over
/// capacity.
pub open spec fn fair_plan(s: Seq<u64>, cap: int) -> Seq<u64> {
    if s.len() < cap + 1 {
        Seq::empty()
    } else {
        s.skip(cap)
    }
}

/// What the `Fair` policy retains: the plan's complement, positionally.
pub open spec fn fair_retained(s: Seq<u64>, cap: int) -> Seq<u64> {
    if s.len() < cap + 1 {
        s
    } else {
        s.take(cap)
    }
}

/// Law (fair retention bound): once fair pruning has run, at most `cap`
/// snapshots remain; retained and deleted parts partition the catalog, the
/// retained part being its first (most recent, on a descending catalog)
/// `cap` entries, each at least as recent as every deleted one.
pub proof fn lemma_fair_retention_bound(s: Seq<u64>, cap: int)
    requires
        0 <= cap,
    ensures
        fair_retained(s, cap).len() <= cap,
        fair_retained(s, cap) + fair_plan(s, cap) == s,
        descending(s) ==> forall|i: int, j: int|
            0 <= i < fair_retained(s, cap).len() && 0 <= j < fair_plan(s, cap).len()
                ==> fair_retained(s, cap)[i] >= fair_plan(s, cap)[j],
{
    if s.len() < cap + 1 {
        assert(fair_retained(s, cap) + fair_plan(s, cap) =~= s);
    } else {
        assert(fair_retained(s, cap) + fair_plan(s, cap) =~= s);
        if descending(s) {
            assert forall|i: int, j: int|
                0 <= i < fair_retained(s, cap).len() && 0 <= j < fair_plan(s, cap).len()
                    implies fair_retained(s, cap)[i] >= fair_plan(s, cap)[j] by {
                assert(fair_retained(s, cap)[i] == s[i]);
                assert(fair_plan(s, cap)[j] == s[cap + j]);
            }
        }
    }
}

/// Computes the `Fair` deletion plan for a descending catalog.
pub fn fair_deletion_plan(snaps: &Vec<u64>, cap: u64) -> (plan: Vec<u64>)
    ensures
        plan@ == fair_plan(snaps@, cap as int),
{
    let n = snaps.len();
    if n as u64 <= cap {
        let plan: Vec<u64> = Vec::new();
        proof {
            assert(plan@ =~= fair_plan(snaps@, cap as int));
        }
        return plan;
    }
    let capu = cap as usize;
    let mut plan: Vec<u64> = Vec::new();
    let mut i: usize = capu;
    proof {
        assert(plan@ =~= snaps@.subrange(capu as int, capu as int));
    }
    while i < n
        invariant
            capu <= i <= n,
            n == snaps@.len(),
            capu == cap,
            plan@ == snaps@.subrange(capu as int, i as int),
        decreases n - i,
    {
        plan.push(snaps[i]);
        proof {
            assert(plan@ =~= snaps@.subrange(capu as int, i + 1));
        }
        i = i + 1;
    }
    proof {
        assert(plan@ =~= fair_plan(snaps@, cap as int));
    }
    plan
}

/// The thinning modulus of the chunk that position `p` falls in: the interval
/// raised to the chunk's one-based rank.
pub open spec fn fade_modulus(itv: u64, cs: int, p: int) -> int {
    pow(itv as int, (1 + p / cs) as nat)
}

/// Whether the `Fade` policy deletes the entry at position `p` of a descending
/// catalog: every entry beyond position `cap` goes, and within the k-th chunk
/// of `cs = cap / STEP_CNT` entries everything not aligned to `itv^k` goes.
pub open spec fn fade_deletes_at(s: Seq<u64>, itv: u64, cap: int, p: int) -> bool {
    let cs = cap / (STEP_CNT as int);
    ||| p >= cap
    ||| (0 < cs && p < (STEP_CNT as int) * cs && (u64::MAX - s[p]) % fade_modulus(itv, cs, p)
        != 0)
}

/// The `Fade` deletion plan entries at positions `p` and beyond, in position
/// order.
pub open spec fn fade_plan_from(s: Seq<u64>, itv: u64, cap: int, p: int) -> Seq<u64>
    decreases s.len() - p,
{
    if p < 0 || p >= s.len() {
        Seq::empty()
    } else {
        let rest = fade_plan_from(s, itv, cap, p + 1);
        if fade_deletes_at(s, itv, cap, p) {
            seq![s[p]] + rest
        } else {
            rest
        }
    }
}

/// The deletion plan of the `Fade` policy on a descending catalog; empty when
/// the catalog holds no more entries than one chunk.
pub open spec fn fade_plan(s: Seq<u64>, itv: u64, cap: int) -> Seq<u64> {
    let cs = cap / (STEP_CNT as int);
    if s.len() < cs + 1 {
        Seq::empty()
    } else {
        fade_plan_from(s, itv, cap, 0)
    }
}

/// Law (fade density): once fade pruning has run, nothing beyond position
/// `cap` is retained, and a retained entry within the k-th most recent chunk
/// is aligned to `itv^k`, counted downward from the maximum index.
pub proof fn lemma_fade_density(s: Seq<u64>, itv: u64, cap: int, p: int)
    requires
        0 <= cap,
        cap / (STEP_CNT as int) + 1 <= s.len(),
        0 <= p < s.len(),
        !fade_deletes_at(s, itv, cap, p),
    ensures
        p < cap,
        ({
            let cs = cap / (STEP_CNT as int);
            0 < cs && p < (STEP_CNT as int) * cs ==> (u64::MAX - s[p]) % pow(
                itv as int,
                (1 + p / cs) as nat,
            ) == 0
        }),
{
}

/// Computes the `Fade` deletion plan for a descending catalog.
pub fn fade_deletion_plan(snaps: &Vec<u64>, itv: u64, cap: u64) -> (plan: Vec<u64>)
    requires
        1 <= itv,
        pow(itv as int, STEP_CNT as nat) <= u64::MAX,
    ensures
        plan@ == fade_plan(snaps@, itv, cap as int),
{
    let n = snaps.len();
    let cs = cap / (STEP_CNT as u64);
    proof {
        lemma_fundamental_div_mod(cap as int, STEP_CNT as int);
        lemma_mod_division_less_than_divisor(cap as int, STEP_CNT as int);
    }
    if n as u64 <= cs {
        let plan: Vec<u64> = Vec::new();
        proof {
            assert(plan@ =~= fade_plan(snaps@, itv, cap as int));
        }
        return plan;
    }
    let mut plan: Vec<u64> = Vec::new();
    let mut p: usize = 0;
    while p < n
        invariant
            p <= n,
            n == snaps@.len(),
            n as u64 > cs,
            cs == cap as int / (STEP_CNT as int),
            (STEP_CNT as int) * (cs as int) <= cap,
            1 <= itv,
            pow(itv as int, STEP_CNT as nat) <= u64::MAX,
            plan@ + fade_plan_from(snaps@, itv, cap as int, p as int) == fade_plan(
                snaps@,
                itv,
                cap as int,
            ),
        decreases n - p,
    {
        let del: bool;
        if p as u64 >= cap {
            del = true;
        } else if cs > 0 && (p as u64) < (STEP_CNT as u64) * cs {
            let k = (p as u64) / cs;
            proof {
                lemma_fundamental_div_mod(p as int, cs as int);
                lemma_mod_division_less_than_divisor(p as int, cs as int);
                assert(k < STEP_CNT as u64) by (nonlinear_arith)
                    requires
                        0 < cs as int,
                        (p as int) < (STEP_CNT as int) * (cs as int),
                        k == (p as int) / (cs as int),
                        p as int == (cs as int) * (k as int) + (p as int) % (cs as int),
                        0 <= (p as int) % (cs as int) < cs as int,
                ;
                lemma_pow_increases(itv as nat, (k + 1) as nat, STEP_CNT as nat);
                lemma_pow_positive(itv as int, (k + 1) as nat);
            }
            let m = pow_u64(itv, (k + 1) as u32);
            del = 0 != (u64::MAX - snaps[p]) % m;
            proof {
                assert(del == fade_deletes_at(snaps@, itv, cap as int, p as int));
            }
        } else {
            del = false;
            proof {
                assert(!fade_deletes_at(snaps@, itv, cap as int, p as int));
            }
        }
        let ghost pre = plan@;
        if del {
            plan.push(snaps[p]);
            proof {
                assert(plan@ =~= pre + seq![snaps@[p as int]]);
            }
        }
        proof {
            let sv = snaps@;
            let c = cap as int;
            let pi = p as int;
            assert(fade_plan_from(sv, itv, c, pi) == (if fade_deletes_at(sv, itv, c, pi) {
                seq![sv[pi]] + fade_plan_from(sv, itv, c, pi + 1)
            } else {
                fade_plan_from(sv, itv, c, pi + 1)
            }));
            if del {
                assert(pre + (seq![sv[pi]] + fade_plan_from(sv, itv, c, pi + 1)) =~= (pre
                    + seq![sv[pi]]) + fade_plan_from(sv, itv, c, pi + 1));
            }
        }
        p = p + 1;
    }
    proof {
        assert(fade_plan_from(snaps@, itv, cap as int, n as int) =~= Seq::<u64>::empty());
        assert(plan@ + Seq::<u64>::empty() =~= plan@);
    }
    plan
}


proof fn lemma_fade_plan_from_members(s: Seq<u64>, itv: u64, cap: int, p: int, v: u64)
    requires
        0 <= p <= s.len(),
    ensures
        fade_plan_from(s, itv, cap, p).contains(v) <==> exists|q: int|
            p <= q < s.len() && s[q] == v && #[trigger] fade_deletes_at(s, itv, cap, q),
    decreases s.len() - p,
{
    if p < s.len() {
        lemma_fade_plan_from_members(s, itv, cap, p + 1, v);
        let rest = fade_plan_from(s, itv, cap, p + 1);
        if fade_deletes_at(s, itv, cap, p) {
            let whole = seq![s[p]] + rest;
            assert(fade_plan_from(s, itv, cap, p) == whole);
            if whole.contains(v) {
                let k = choose|k: int| 0 <= k < whole.len() && whole[k] == v;
                if k == 0 {
                    assert(s[p] == v && fade_deletes_at(s, itv, cap, p));
                } else {
                    assert(rest[k - 1] == v);
                    assert(rest.contains(v));
                }
            }
            if exists|q: int| p <= q < s.len() && s[q] == v && #[trigger] fade_deletes_at(
                s,
                itv,
                cap,
                q,
            ) {
                let q = choose|q: int| p <= q < s.len() && s[q] == v && #[trigger] fade_deletes_at(
                    s,
                    itv,
                    cap,
                    q,
                );
                if q == p {
                    assert(whole[0] == v);
                } else {
                    assert(rest.contains(v));
                    let j = choose|j: int| 0 <= j < rest.len() && rest[j] == v;
                    assert(whole[j + 1] == v);
                }
            }
        } else {
            assert(fade_plan_from(s, itv, cap, p) == rest);
            if rest.contains(v) {
            }
        }
    }
}

/// Law (fade plan membership): on a pruned, duplicate-free catalog the plan
/// holds an index exactly when its position is thinned out — so an index
/// survives fade pruning exactly when the density law speaks for it.
pub proof fn lemma_fade_plan_membership(s: Seq<u64>, itv: u64, cap: int, p: int)
    requires
        strictly_descending(s),
        0 <= cap,
        cap / (STEP_CNT as int) + 1 <= s.len(),
        0 <= p < s.len(),
    ensures
        fade_plan(s, itv, cap).contains(s[p]) <==> fade_deletes_at(s, itv, cap, p),
{
    lemma_fade_plan_from_members(s, itv, cap, 0, s[p]);
    if fade_plan(s, itv, cap).contains(s[p]) {
        let q = choose|q: int| 0 <= q < s.len() && s[q] == s[p] && #[trigger] fade_deletes_at(
            s,
            itv,
            cap,
            q,
        );
        crate::catalog::lemma_desc_unique(s, q, p);
    }
}

/// What a `clean` pass deletes: everything but the `kept` most recent entries
/// of a descending catalog, oldest first.
pub open spec fn clean_plan(s: Seq<u64>, kept: int) -> Seq<u64> {
    if kept >= s.len() {
        Seq::empty()
    } else {
        s.skip(kept).reverse()
    }
}

/// Computes the deletion plan of a `clean` pass over a descending catalog.
pub fn clean_deletion_plan(snaps: &Vec<u64>, kept: usize) -> (plan: Vec<u64>)
    ensures
        plan@ == clean_plan(snaps@, kept as int),
{
    let n = snaps.len();
    if kept >= n {
        let plan: Vec<u64> = Vec::new();
        proof {
            assert(plan@ =~= clean_plan(snaps@, kept as int));
        }
        return plan;
    }
    let mut plan: Vec<u64> = Vec::new();
    let mut i: usize = n;
    proof {
        assert(plan@ =~= snaps@.subrange(i as int, n as int).reverse());
    }
    while i > kept
        invariant
            kept <= i <= n,
            n == snaps@.len(),
            plan@ == snaps@.subrange(i as int, n as int).reverse(),
        decreases i,
    {
        i = i - 1;
        plan.push(snaps[i]);
        proof {
            assert(plan@ =~= snaps@.subrange(i as int, n as int).reverse());
        }
    }
    proof {
        assert(snaps@.subrange(kept as int, n as int) =~= snaps@.skip(kept as int));
    }
    plan
}

impl BtmCfg {
    /// The deletion plan this configuration's retention policy prescribes for
    /// a descending catalog.
    pub fn deletion_plan(&self, snaps: &Vec<u64>) -> (plan: Vec<u64>)
        requires
            self.wf(),
        ensures
            plan@ == policy_plan(self, snaps@),
    {
        match self.algo {
            SnapAlgo::Fair => fair_deletion_plan(snaps, self.get_cap()),
            SnapAlgo::Fade => fade_deletion_plan(snaps, self.itv, self.get_cap()),
        }
    }
}

/// The deletion plan prescribed by the configured policy.
pub open spec fn policy_plan(cfg: &BtmCfg, s: Seq<u64>) -> Seq<u64> {
    match cfg.algo {
        SnapAlgo::Fair => fair_plan(s, cfg.spec_cap() as int),
        SnapAlgo::Fade => fade_plan(s, cfg.itv, cfg.spec_cap() as int),
    }
}

} // verus!
