use vstd::prelude::*;

verus! {

use vstd::arithmetic::div_mod::{lemma_fundamental_div_mod, lemma_mod_division_less_than_divisor};
use crate::errors::BtmErr;
use crate::resolve::{resolve, resolve_post, strictly_ascending};

/// Sorted strictly descending: ordered, most recent first, no duplicates.
pub open spec fn strictly_descending(s: Seq<u64>) -> bool {
    forall|i: int, j: int| 0 <= i < j < s.len() ==> s[i] > s[j]
}

/// The value of a decimal digit string, most significant digit first.
pub open spec fn dec_int(l: Seq<u8>) -> int
    decreases l.len(),
{
    if l.len() == 0 {
        0
    } else {
        dec_int(l.drop_last()) * 10 + (l.last() - 48)
    }
}

/// All bytes are ASCII digits.
pub open spec fn all_digits(l: Seq<u8>) -> bool {
    forall|i: int| 0 <= i < l.len() ==> 48 <= #[trigger] l[i] <= 57
}

/// A line this backend accepts as a snapshot index: a nonempty digit string
/// whose value fits `u64`.
pub open spec fn is_dec(l: Seq<u8>) -> bool {
    l.len() >= 1 && all_digits(l) && dec_int(l) <= u64::MAX
}

/// The catalog entries contributed by one listing line.
pub open spec fn line_vals(l: Seq<u8>) -> Set<u64> {
    if is_dec(l) {
        Set::empty().insert(dec_int(l) as u64)
    } else {
        Set::empty()
    }
}

pub proof fn lemma_dec_nonneg(l: Seq<u8>)
    requires
        all_digits(l),
    ensures
        dec_int(l) >= 0,
    decreases l.len(),
{
    if l.len() > 0 {
        assert(all_digits(l.drop_last()));
        lemma_dec_nonneg(l.drop_last());
    }
}

pub proof fn lemma_dec_extend(l: Seq<u8>, k: int)
    requires
        all_digits(l),
        0 <= k <= l.len(),
    ensures
        dec_int(l.take(k)) <= dec_int(l),
    decreases l.len() - k,
{
    if k < l.len() {
        assert(l.take(k + 1).drop_last() =~= l.take(k));
        assert(l.take(k + 1).last() == l[k]);
        assert(all_digits(l.take(k)));
        lemma_dec_nonneg(l.take(k));
        assert(dec_int(l.take(k + 1)) == dec_int(l.take(k)) * 10 + (l[k] - 48));
        assert(dec_int(l.take(k)) * 10 >= dec_int(l.take(k))) by (nonlinear_arith)
            requires
                dec_int(l.take(k)) >= 0,
        ;
        lemma_dec_extend(l, k + 1);
    } else {
        assert(l.take(k) =~= l);
    }
}

/// The position of the first newline at or after `a`, or the end of the text.
pub open spec fn line_end(s: Seq<u8>, a: int) -> int
    decreases s.len() - a,
{
    if a < 0 || a >= s.len() {
        s.len() as int
    } else if s[a] == 10 {
        a
    } else {
        line_end(s, a + 1)
    }
}

proof fn lemma_line_end(s: Seq<u8>, a: int)
    requires
        0 <= a <= s.len(),
    ensures
        a <= line_end(s, a) <= s.len(),
        line_end(s, a) < s.len() ==> s[line_end(s, a)] == 10,
    decreases s.len() - a,
{
    if a < s.len() && s[a] != 10 {
        lemma_line_end(s, a + 1);
    }
}

/// The snapshot indices listed by the catalog text `s` from line start `a` on.
pub open spec fn catalog_from(s: Seq<u8>, a: int) -> Set<u64>
    decreases s.len() - a,
    when 0 <= a <= s.len()
    via catalog_from_decreases
{
    let b = line_end(s, a);
    if b >= s.len() {
        line_vals(s.subrange(a, s.len() as int))
    } else {
        line_vals(s.subrange(a, b)).union(catalog_from(s, b + 1))
    }
}

#[via_fn]
proof fn catalog_from_decreases(s: Seq<u8>, a: int) {
    lemma_line_end(s, a);
}

/// The set of snapshot indices a catalog listing denotes: one decimal index
/// per line; malformed or foreign lines contribute nothing.
pub open spec fn catalog_of(s: Seq<u8>) -> Set<u64> {
    catalog_from(s, 0)
}

/// Inserts index `v` into a strictly descending catalog, keeping order and
/// uniqueness: an index already present is not duplicated.
pub fn insert_desc(snaps: &mut Vec<u64>, v: u64)
    requires
        strictly_descending(old(snaps)@),
    ensures
        strictly_descending(final(snaps)@),
        final(snaps)@.to_set() == old(snaps)@.to_set().insert(v),
{
    let n = snaps.len();
    let mut i: usize = 0;
    while i < n && snaps[i] > v
        invariant
            i <= n,
            n == snaps@.len(),
            strictly_descending(snaps@),
            snaps@ == old(snaps)@,
            forall|j: int| 0 <= j < i ==> snaps@[j] > v,
        decreases n - i,
    {
        i = i + 1;
    }
    if i < n && snaps[i] == v {
        proof {
            assert(snaps@.to_set() =~= old(snaps)@.to_set().insert(v)) by {
                assert(snaps@.contains(v)) by {
                    assert(snaps@[i as int] == v);
                }
            }
        }
        return;
    }
    proof {
        if i < n {
            assert(snaps@[i as int] < v);
        }
    }
    let ghost pre = snaps@;
    snaps.insert(i, v);
    proof {
        let post = snaps@;
        assert(post == pre.insert(i as int, v));
        assert(post.len() == pre.len() + 1);
        assert(forall|k: int| 0 <= k < i ==> post[k] == pre[k]);
        assert(post[i as int] == v);
        assert(forall|k: int| i < k < post.len() ==> post[k] == pre[k - 1]);
        assert forall|p: int, q: int| 0 <= p < q < post.len() implies post[p] > post[q] by {
            if p < i && q < i {
            } else if p < i && q == i {
                assert(post[p] == pre[p] && pre[p] > v);
            } else if p < i && q > i {
                assert(pre[p] > v);
                if i < n {
                    assert(pre[q - 1] <= pre[i as int]);
                }
                assert(pre[q - 1] < v);
            } else if p == i {
                assert(pre[q - 1] < v) by {
                    if q - 1 > i {
                        assert(pre[i as int] > pre[q - 1]);
                    }
                }
            } else {
            }
        }
        assert(post.to_set() =~= pre.to_set().insert(v)) by {
            assert forall|x: u64| post.to_set().contains(x) implies pre.to_set().contains(x)
                || x == v by {
                let k = choose|k: int| 0 <= k < post.len() && post[k] == x;
                if k < i {
                    assert(pre[k] == x);
                } else if k > i {
                    assert(pre[k - 1] == x);
                }
            }
            assert forall|x: u64| pre.to_set().contains(x) implies post.to_set().contains(x) by {
                let k = choose|k: int| 0 <= k < pre.len() && pre[k] == x;
                if k < i {
                    assert(post[k] == x);
                } else {
                    assert(post[k + 1] == x);
                }
            }
            assert(post.to_set().contains(v)) by {
                assert(post[i as int] == v);
            }
        }
    }
}

/// Law (idempotent create): the catalog is a set of indices, so creating a
/// snapshot at an index that is already present replaces it — a second
/// creation at the same index leaves the catalog exactly as the first did.
pub proof fn lemma_create_idempotent(s: Set<u64>, h: u64)
    ensures
        s.insert(h).insert(h) == s.insert(h),
{
    assert(s.insert(h).insert(h) =~= s.insert(h));
}

/// In a strictly descending catalog an index occupies at most one position.
pub proof fn lemma_desc_unique(s: Seq<u64>, i: int, j: int)
    requires
        strictly_descending(s),
        0 <= i < s.len(),
        0 <= j < s.len(),
        s[i] == s[j],
    ensures
        i == j,
{
}

/// Parses a snapshot tool's catalog listing — one decimal index per line,
/// malformed or foreign lines skipped, never fatal — into the strictly
/// descending (most recent first) list of snapshot indices.
pub fn parse_catalog(raw: &[u8]) -> (snaps: Vec<u64>)
    ensures
        strictly_descending(snaps@),
        snaps@.to_set() == catalog_of(raw@),
{
    let n = raw.len();
    let mut snaps: Vec<u64> = Vec::new();
    let mut a: usize = 0;
    loop
        invariant
            a <= n,
            n == raw@.len(),
            strictly_descending(snaps@),
            catalog_of(raw@) == snaps@.to_set().union(catalog_from(raw@, a as int)),
        ensures
            strictly_descending(snaps@),
            catalog_of(raw@) == snaps@.to_set(),
        decreases n - a,
    {
        // find the end of the current line
        let mut b: usize = a;
        while b < n && raw[b] != 10
            invariant
                a <= b <= n,
                n == raw@.len(),
                line_end(raw@, a as int) == line_end(raw@, b as int),
            decreases n - b,
        {
            b = b + 1;
        }
        proof {
            assert(line_end(raw@, a as int) == b as int);
        }
        let ghost line = raw@.subrange(a as int, b as int);
        // parse the line as a decimal u64; any malformed byte or overflow
        // marks the whole line as skipped
        let mut val: u64 = 0;
        let mut ok: bool = b > a;
        let mut i: usize = a;
        while i < b
            invariant
                a <= i <= b <= n,
                n == raw@.len(),
                line == raw@.subrange(a as int, b as int),
                ok ==> all_digits(line.take(i - a)) && val == dec_int(line.take(i - a)),
                ok ==> b > a,
                !ok ==> !is_dec(line),
            decreases b - i,
        {
            let c = raw[i];
            if ok {
                if c < 48 || c > 57 {
                    ok = false;
                    proof {
                        assert(line[i - a] == c);
                        assert(!all_digits(line));
                    }
                } else {
                    let d = (c - 48) as u64;
                    let lim = (u64::MAX - d) / 10;
                    proof {
                        lemma_fundamental_div_mod(u64::MAX - d, 10);
                        lemma_mod_division_less_than_divisor(u64::MAX - d, 10);
                    }
                    if val > lim {
                        ok = false;
                        proof {
                            let pref = line.take(i - a + 1);
                            assert(pref.drop_last() =~= line.take(i - a));
                            assert(pref.last() == line[i - a] == c);
                            assert((val as int) * 10 + d > u64::MAX) by (nonlinear_arith)
                                requires
                                    val as int > lim as int,
                                    u64::MAX - d == 10 * (lim as int) + (u64::MAX - d) % 10,
                                    0 <= (u64::MAX - d) % 10 < 10,
                            ;
                            assert(dec_int(pref) > u64::MAX);
                            if is_dec(line) {
                                lemma_dec_extend(line, i - a + 1);
                                assert(false);
                            }
                        }
                    } else {
                        proof {
                            assert((val as int) * 10 + d <= u64::MAX) by (nonlinear_arith)
                                requires
                                    val as int <= lim as int,
                                    u64::MAX - d == 10 * (lim as int) + (u64::MAX - d) % 10,
                                    0 <= (u64::MAX - d) % 10 < 10,
                            ;
                        }
                        val = val * 10 + d;
                        proof {
                            let pref = line.take(i - a + 1);
                            assert(pref.drop_last() =~= line.take(i - a));
                            assert(pref.last() == line[i - a] == c);
                            assert(all_digits(pref));
                            assert(val == dec_int(pref));
                        }
                    }
                }
            }
            i = i + 1;
        }
        proof {
            if ok {
                assert(line.take(b - a) =~= line);
                assert(is_dec(line));
                assert(line_vals(line) =~= Set::empty().insert(val));
            } else {
                assert(line_vals(line) =~= Set::<u64>::empty());
            }
        }
        if ok {
            insert_desc(&mut snaps, val);
        }
        proof {
            let sv = raw@;
            let ai = a as int;
            let bi = b as int;
            if bi >= sv.len() {
                assert(catalog_from(sv, ai) == line_vals(sv.subrange(ai, sv.len() as int)));
                assert(sv.subrange(ai, sv.len() as int) =~= line);
                assert(catalog_of(sv) =~= snaps@.to_set());
            } else {
                assert(catalog_from(sv, ai) == line_vals(line).union(catalog_from(sv, bi + 1)));
                assert(catalog_of(sv) =~= snaps@.to_set().union(catalog_from(sv, bi + 1)));
            }
        }
        if b == n {
            break;
        }
        a = b + 1;
    }
    snaps
}

/// The same indices in the opposite order; a strictly descending catalog
/// becomes strictly ascending.
pub fn reversed(snaps: &Vec<u64>) -> (r: Vec<u64>)
    ensures
        r@ == snaps@.reverse(),
        strictly_descending(snaps@) ==> strictly_ascending(r@),
{
    let n = snaps.len();
    let mut r: Vec<u64> = Vec::new();
    let mut i: usize = n;
    proof {
        assert(r@ =~= snaps@.skip(i as int).reverse());
    }
    while i > 0
        invariant
            i <= n,
            n == snaps@.len(),
            r@ == snaps@.skip(i as int).reverse(),
        decreases i,
    {
        i = i - 1;
        r.push(snaps[i]);
        proof {
            assert(r@ =~= snaps@.skip(i as int).reverse());
        }
    }
    proof {
        assert(snaps@.skip(0) =~= snaps@);
        if strictly_descending(snaps@) {
            assert forall|p: int, q: int| 0 <= p < q < r@.len() implies r@[p] < r@[q] by {
                assert(r@[p] == snaps@[n - 1 - p]);
                assert(r@[q] == snaps@[n - 1 - q]);
            }
        }
    }
    r
}

/// Resolves a rollback request against a descending catalog, as the snapshot
/// listing provides it.
pub fn rollback_target(snaps_desc: &Vec<u64>, target: Option<u64>, strict: bool) -> (r: Result<
    u64,
    BtmErr,
>)
    requires
        strictly_descending(snaps_desc@),
    ensures
        resolve_post(snaps_desc@.reverse(), target, strict, r),
{
    let asc = reversed(snaps_desc);
    resolve(&asc, target, strict)
}

} // verus!
