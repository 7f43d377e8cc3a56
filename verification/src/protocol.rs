use vstd::prelude::*;

verus! {

use vstd::arithmetic::power::{pow, lemma_pow1, lemma_pow_adds};
use vstd::arithmetic::div_mod::{
    lemma_fundamental_div_mod, lemma_fundamental_div_mod_converse_div,
    lemma_fundamental_div_mod_converse_mod, lemma_mod_division_less_than_divisor,
};
use crate::catalog::{all_digits, dec_int, lemma_dec_extend, lemma_dec_nonneg};
use crate::errors::BtmErr;

/// Per-attempt receive timeout of a coordination call, in milliseconds.
pub const TIMEOUT_MS: u64 = 500;

/// How many receive attempts one coordination call makes before it gives up.
pub const RETRY_CNT: u64 = 20;

/// Every coordination datagram fits this many bytes.
pub const MSG_MAX: usize = 128;

/// The canonical decimal digits of `n`: most significant first, no leading
/// zeros.
pub open spec fn dec_digits(n: nat) -> Seq<u8>
    decreases n,
{
    if n < 10 {
        seq![(48 + n) as u8]
    } else {
        dec_digits(n / 10).push((48 + n % 10) as u8)
    }
}

pub proof fn lemma_dec_digits_form(n: nat)
    ensures
        dec_digits(n).len() >= 1,
        all_digits(dec_digits(n)),
        n >= 1 ==> dec_digits(n)[0] != 48,
        n == 0 ==> dec_digits(n) == seq![48u8],
        dec_int(dec_digits(n)) == n,
    decreases n,
{
    if n < 10 {
        let d = dec_digits(n);
        assert(d =~= seq![(48 + n) as u8]);
        assert(d.drop_last() =~= Seq::<u8>::empty());
        assert(dec_int(Seq::<u8>::empty()) == 0);
        assert(dec_int(d) == 0 * 10 + (d.last() - 48));
        assert(n == 0 ==> d =~= seq![48u8]);
    } else {
        lemma_dec_digits_form(n / 10);
        let q = dec_digits(n / 10);
        let d = dec_digits(n);
        assert(d == q.push((48 + n % 10) as u8));
        assert(d.drop_last() =~= q);
        assert(d.last() == (48 + n % 10) as u8);
        lemma_fundamental_div_mod(n as int, 10);
        assert(dec_int(d) == dec_int(q) * 10 + (n % 10));
        assert(forall|i: int| 0 <= i < d.len() ==> 48 <= #[trigger] d[i] <= 57) by {
            assert(forall|i: int| 0 <= i < q.len() ==> d[i] == q[i]);
        }
        assert(d[0] == q[0]);
    }
}

proof fn lemma_dec_lower(d: Seq<u8>)
    requires
        all_digits(d),
        d.len() >= 1,
        d[0] != 48,
    ensures
        dec_int(d) >= 1,
    decreases d.len(),
{
    if d.len() == 1 {
        assert(d.drop_last() =~= Seq::<u8>::empty());
        assert(dec_int(Seq::<u8>::empty()) == 0);
        assert(dec_int(d) == 0 * 10 + (d.last() - 48));
        assert(d.last() == d[0]);
    } else {
        let dl = d.drop_last();
        assert(all_digits(dl));
        assert(dl[0] == d[0]);
        lemma_dec_lower(dl);
    }
}

pub proof fn lemma_digits_canonical(d: Seq<u8>)
    requires
        all_digits(d),
        d.len() >= 1,
        d.len() > 1 ==> d[0] != 48,
    ensures
        dec_int(d) >= 0,
        dec_digits(dec_int(d) as nat) == d,
    decreases d.len(),
{
    lemma_dec_nonneg(d);
    if d.len() == 1 {
        assert(d.drop_last() =~= Seq::<u8>::empty());
        assert(dec_int(Seq::<u8>::empty()) == 0);
        assert(dec_int(d) == 0 * 10 + (d.last() - 48));
        assert(d.last() == d[0]);
        assert(dec_digits(dec_int(d) as nat) =~= d);
    } else {
        let dl = d.drop_last();
        assert(all_digits(dl));
        assert(dl[0] == d[0]);
        lemma_digits_canonical(dl);
        lemma_dec_lower(dl);
        let q = dec_int(dl);
        let r = d.last() - 48;
        let v = dec_int(d);
        assert(v == q * 10 + r);
        assert(v >= 10);
        lemma_fundamental_div_mod_converse_div(v, 10, q, r);
        lemma_fundamental_div_mod_converse_mod(v, 10, q, r);
        assert((v as nat) / 10 == q && (v as nat) % 10 == r);
        assert(dec_digits(v as nat) == dec_digits(q as nat).push((48 + (v as nat) % 10) as u8));
        assert(dec_digits(q as nat) == dl);
        assert(dl.push(d.last()) =~= d);
        assert((48 + (v as nat) % 10) as u8 == d.last());
    }
}

pub proof fn lemma_dec_digits_len(n: nat, k: nat)
    requires
        n < pow(10, k),
        1 <= k,
    ensures
        dec_digits(n).len() <= k,
    decreases n,
{
    if n >= 10 {
        lemma_pow1(10);
        lemma_pow_adds(10, 1, (k - 1) as nat);
        assert(pow(10, k) == 10 * pow(10, (k - 1) as nat));
        if k == 1 {
            assert(pow(10, 1nat) == 10) by {
                lemma_pow1(10);
            }
            assert(false);
        }
        lemma_fundamental_div_mod(n as int, 10);
        lemma_mod_division_less_than_divisor(n as int, 10);
        assert((n as int) / 10 < pow(10, (k - 1) as nat)) by (nonlinear_arith)
            requires
                n as int == 10 * ((n as int) / 10) + (n as int) % 10,
                0 <= (n as int) % 10 < 10,
                (n as int) < 10 * pow(10, (k - 1) as nat),
        ;
        lemma_dec_digits_len(n / 10, (k - 1) as nat);
    }
}

pub proof fn lemma_u64_digits_len(n: u64)
    ensures
        dec_digits(n as nat).len() <= 20,
{
    assert(u64::MAX < pow(10int, 20nat)) by {
        reveal_with_fuel(pow, 21);
    }
    lemma_dec_digits_len(n as nat, 20);
}

/// The bytes of `{"idx":`, opening both coordination messages.
pub open spec fn idx_key() -> Seq<u8> {
    seq![123u8, 34u8, 105u8, 100u8, 120u8, 34u8, 58u8]
}

/// The bytes of `,"success":`.
pub open spec fn success_key() -> Seq<u8> {
    seq![44u8, 34u8, 115u8, 117u8, 99u8, 99u8, 101u8, 115u8, 115u8, 34u8, 58u8]
}

/// The bytes of `true`.
pub open spec fn true_lit() -> Seq<u8> {
    seq![116u8, 114u8, 117u8, 101u8]
}

/// The bytes of `false`.
pub open spec fn false_lit() -> Seq<u8> {
    seq![102u8, 97u8, 108u8, 115u8, 101u8]
}

/// The wire form of a snapshot request: `{"idx":N}` in compact JSON.
pub open spec fn req_bytes(idx: u64) -> Seq<u8> {
    idx_key() + dec_digits(idx as nat) + seq![125u8]
}

/// The wire form of a snapshot reply: `{"idx":N,"success":B}` in compact JSON.
pub open spec fn resp_bytes(idx: u64, success: bool) -> Seq<u8> {
    idx_key() + dec_digits(idx as nat) + success_key() + (if success {
        true_lit()
    } else {
        false_lit()
    }) + seq![125u8]
}

/// Appends the canonical decimal digits of `n`.
fn push_digits(out: &mut Vec<u8>, n: u64)
    ensures
        final(out)@ == old(out)@ + dec_digits(n as nat),
{
    let ghost base = out@;
    if n == 0 {
        out.push(48);
        proof {
            assert(out@ =~= base + dec_digits(0nat));
        }
        return;
    }
    let mut tmp: Vec<u8> = Vec::new();
    let mut m: u64 = n;
    while m > 0
        invariant
            n > 0,
            m > 0 ==> dec_digits(n as nat) == dec_digits(m as nat) + tmp@.reverse(),
            m == 0 ==> dec_digits(n as nat) == tmp@.reverse(),
        decreases m,
    {
        let d = (m % 10) as u8 + 48;
        let ghost tpre = tmp@;
        tmp.push(d);
        proof {
            assert(tmp@.reverse() =~= seq![d] + tpre.reverse());
            assert(d == (48 + (m as nat) % 10) as u8);
            if m >= 10 {
                assert(dec_digits(m as nat) == dec_digits((m as nat) / 10).push(d));
                assert(dec_digits((m as nat) / 10) + (seq![d] + tpre.reverse()) =~= dec_digits(
                    (m as nat) / 10,
                ).push(d) + tpre.reverse());
                assert((m / 10) as nat == (m as nat) / 10);
            } else {
                assert(dec_digits(m as nat) =~= seq![d]);
            }
        }
        m = m / 10;
    }
    let k = tmp.len();
    let mut j: usize = k;
    proof {
        assert(tmp@.skip(k as int).reverse() =~= Seq::<u8>::empty());
        assert(out@ =~= base + tmp@.skip(k as int).reverse());
    }
    while j > 0
        invariant
            j <= k,
            k == tmp@.len(),
            out@ == base + tmp@.skip(j as int).reverse(),
            dec_digits(n as nat) == tmp@.reverse(),
        decreases j,
    {
        j = j - 1;
        out.push(tmp[j]);
        proof {
            assert(out@ =~= base + tmp@.skip(j as int).reverse());
        }
    }
    proof {
        assert(tmp@.skip(0) =~= tmp@);
    }
}

/// A snapshot request delegated to the daemon.
pub struct Req {
    /// The index to snapshot at.
    pub idx: u64,
}

/// The daemon's reply to one request.
pub struct Resp {
    /// The index of the request this answers.
    pub idx: u64,
    /// Whether the daemon's snapshot attempt succeeded.
    pub success: bool,
}

impl Req {
    /// Builds a request for index `idx`.
    pub fn new(idx: u64) -> (r: Req)
        ensures
            r.idx == idx,
    {
        Req { idx }
    }

    /// The requested index.
    pub fn idx(&self) -> (r: u64)
        ensures
            r == self.idx,
    {
        self.idx
    }

    /// Encodes the request for the wire; always fits one datagram.
    pub fn to_bytes(&self) -> (r: Vec<u8>)
        ensures
            r@ == req_bytes(self.idx),
            r@.len() <= MSG_MAX,
    {
        let mut r: Vec<u8> = Vec::new();
        r.push(123);
        r.push(34);
        r.push(105);
        r.push(100);
        r.push(120);
        r.push(34);
        r.push(58);
        proof {
            assert(r@ =~= idx_key());
        }
        push_digits(&mut r, self.idx);
        r.push(125);
        proof {
            assert(r@ =~= idx_key() + dec_digits(self.idx as nat) + seq![125u8]);
            lemma_u64_digits_len(self.idx);
        }
        r
    }
}

impl Resp {
    /// Builds a reply for index `idx` with the execution verdict.
    pub fn new(idx: u64, success: bool) -> (r: Resp)
        ensures
            r.idx == idx,
            r.success == success,
    {
        Resp { idx, success }
    }

    /// The index of the request this answers.
    pub fn idx(&self) -> (r: u64)
        ensures
            r == self.idx,
    {
        self.idx
    }

    /// Whether the daemon's snapshot attempt succeeded.
    pub fn success(&self) -> (r: bool)
        ensures
            r == self.success,
    {
        self.success
    }

    /// Encodes the reply for the wire; always fits one datagram.
    pub fn to_bytes(&self) -> (r: Vec<u8>)
        ensures
            r@ == resp_bytes(self.idx, self.success),
            r@.len() <= MSG_MAX,
    {
        let mut r: Vec<u8> = Vec::new();
        r.push(123);
        r.push(34);
        r.push(105);
        r.push(100);
        r.push(120);
        r.push(34);
        r.push(58);
        proof {
            assert(r@ =~= idx_key());
        }
        push_digits(&mut r, self.idx);
        r.push(44);
        r.push(34);
        r.push(115);
        r.push(117);
        r.push(99);
        r.push(99);
        r.push(101);
        r.push(115);
        r.push(115);
        r.push(34);
        r.push(58);
        if self.success {
            r.push(116);
            r.push(114);
            r.push(117);
            r.push(101);
        } else {
            r.push(102);
            r.push(97);
            r.push(108);
            r.push(115);
            r.push(101);
        }
        r.push(125);
        proof {
            assert(r@ =~= idx_key() + dec_digits(self.idx as nat) + success_key() + (
            if self.success {
                true_lit()
            } else {
                false_lit()
            }) + seq![125u8]);
            lemma_u64_digits_len(self.idx);
        }
        r
    }
}

/// An ASCII digit.
pub open spec fn is_digit(b: u8) -> bool {
    48 <= b <= 57
}

/// The end of the run of digits starting at `pos`.
pub open spec fn digit_run_end(s: Seq<u8>, pos: int) -> int
    decreases s.len() - pos,
{
    if pos < 0 || pos >= s.len() {
        s.len() as int
    } else if !is_digit(s[pos]) {
        pos
    } else {
        digit_run_end(s, pos + 1)
    }
}

proof fn lemma_run_bounds(s: Seq<u8>, pos: int)
    requires
        0 <= pos <= s.len(),
    ensures
        pos <= digit_run_end(s, pos) <= s.len(),
        forall|k: int| pos <= k < digit_run_end(s, pos) ==> is_digit(#[trigger] s[k]),
        digit_run_end(s, pos) < s.len() ==> !is_digit(s[digit_run_end(s, pos)]),
    decreases s.len() - pos,
{
    if pos < s.len() && is_digit(s[pos]) {
        lemma_run_bounds(s, pos + 1);
    }
}

proof fn lemma_run_end_is(s: Seq<u8>, pos: int, end: int)
    requires
        0 <= pos <= end <= s.len(),
        forall|k: int| pos <= k < end ==> is_digit(#[trigger] s[k]),
        end == s.len() || !is_digit(s[end]),
    ensures
        digit_run_end(s, pos) == end,
    decreases end - pos,
{
    if pos < end {
        lemma_run_end_is(s, pos + 1, end);
    }
}

/// Scans the digit run starting at `pos`, accepted exactly when it is the
/// canonical decimal form of a `u64`.
fn scan_number(b: &[u8], pos: usize) -> (r: Option<(u64, usize)>)
    requires
        pos <= b@.len(),
    ensures
        r matches Some(p) ==> {
            &&& pos <= p.1 <= b@.len()
            &&& p.1 == digit_run_end(b@, pos as int)
            &&& b@.subrange(pos as int, p.1 as int) == dec_digits(p.0 as nat)
        },
        r is None ==> forall|v: u64|
            b@.subrange(pos as int, digit_run_end(b@, pos as int)) != dec_digits(v as nat),
{
    let n = b.len();
    proof {
        lemma_run_bounds(b@, pos as int);
    }
    let ghost rend = digit_run_end(b@, pos as int);
    let ghost run = b@.subrange(pos as int, rend);
    if pos == n || b[pos] < 48 || b[pos] > 57 {
        proof {
            lemma_run_end_is(b@, pos as int, pos as int);
            assert(run.len() == 0);
            assert forall|v: u64| run != dec_digits(v as nat) by {
                lemma_dec_digits_form(v as nat);
            }
        }
        return None;
    }
    if b[pos] == 48 {
        if pos + 1 < n && 48 <= b[pos + 1] && b[pos + 1] <= 57 {
            proof {
                lemma_run_bounds(b@, pos as int + 2);
                assert(digit_run_end(b@, pos as int) == digit_run_end(b@, pos as int + 2));
                assert(rend >= pos + 2);
                assert(run.len() >= 2);
                assert(run[0] == 48);
                assert forall|v: u64| run != dec_digits(v as nat) by {
                    lemma_dec_digits_form(v as nat);
                }
            }
            return None;
        }
        proof {
            lemma_run_end_is(b@, pos as int, pos as int + 1);
            assert(run =~= seq![48u8]);
            assert(dec_digits(0nat) =~= seq![48u8]);
        }
        return Some((0, pos + 1));
    }
    let mut val: u64 = (b[pos] - 48) as u64;
    let mut i: usize = pos + 1;
    proof {
        let s1 = b@.subrange(pos as int, pos as int + 1);
        assert(s1.drop_last() =~= Seq::<u8>::empty());
        assert(dec_int(Seq::<u8>::empty()) == 0);
        assert(s1.last() == b@[pos as int]);
        assert(val == dec_int(s1));
    }
    while i < n && 48 <= b[i] && b[i] <= 57
        invariant
            pos < i <= n,
            n == b@.len(),
            49 <= b@[pos as int] <= 57,
            rend == digit_run_end(b@, pos as int),
            run == b@.subrange(pos as int, rend),
            forall|k: int| pos <= k < i ==> is_digit(#[trigger] b@[k]),
            val == dec_int(b@.subrange(pos as int, i as int)),
        decreases n - i,
    {
        let c = b[i];
        let d = (c - 48) as u64;
        let lim = (u64::MAX - d) / 10;
        proof {
            lemma_fundamental_div_mod(u64::MAX - d, 10);
            lemma_mod_division_less_than_divisor(u64::MAX - d, 10);
        }
        let ghost pre = b@.subrange(pos as int, i as int);
        let ghost pref = b@.subrange(pos as int, i as int + 1);
        proof {
            assert(pref.drop_last() =~= pre);
            assert(pref.last() == b@[i as int]);
        }
        if val > lim {
            proof {
                assert((val as int) * 10 + d > u64::MAX) by (nonlinear_arith)
                    requires
                        val as int > lim as int,
                        u64::MAX - d == 10 * (lim as int) + (u64::MAX - d) % 10,
                        0 <= (u64::MAX - d) % 10 < 10,
                ;
                assert(dec_int(pref) > u64::MAX);
                lemma_run_bounds(b@, pos as int);
                assert(rend >= i + 1) by {
                    if rend <= i as int {
                        assert(is_digit(b@[rend]));
                        assert(!is_digit(b@[rend]));
                    }
                }
                assert(all_digits(run)) by {
                    assert(forall|k: int| 0 <= k < run.len() ==> run[k] == b@[pos + k]);
                }
                assert(run.take(i + 1 - pos) =~= pref);
                lemma_dec_extend(run, i + 1 - pos);
                assert(dec_int(run) > u64::MAX);
                assert forall|v: u64| run != dec_digits(v as nat) by {
                    lemma_dec_digits_form(v as nat);
                }
            }
            return None;
        }
        proof {
            assert((val as int) * 10 + d <= u64::MAX) by (nonlinear_arith)
                requires
                    val as int <= lim as int,
                    u64::MAX - d == 10 * (lim as int) + (u64::MAX - d) % 10,
                    0 <= (u64::MAX - d) % 10 < 10,
            ;
        }
        val = val * 10 + d;
        proof {
            assert(val == dec_int(pref));
        }
        i = i + 1;
    }
    proof {
        lemma_run_end_is(b@, pos as int, i as int);
        assert(rend == i as int);
        assert(all_digits(run)) by {
            assert(forall|k: int| 0 <= k < run.len() ==> run[k] == b@[pos + k]);
        }
        assert(run[0] == b@[pos as int]);
        assert(run.len() >= 1);
        lemma_digits_canonical(run);
        assert(dec_int(run) == val);
        assert(dec_digits(val as nat) == run);
    }
    Some((val, i))
}

impl Req {
    /// Decodes a request datagram; `None` exactly when no index encodes to
    /// these bytes.
    pub fn from_bytes(b: &[u8]) -> (r: Option<Req>)
        ensures
            r matches Some(q) ==> b@ == req_bytes(q.idx),
            r is None ==> forall|i: u64| b@ != req_bytes(i),
    {
        let n = b.len();
        if n < 9 || b[0] != 123 || b[1] != 34 || b[2] != 105 || b[3] != 100 || b[4] != 120 || b[5]
            != 34 || b[6] != 58 {
            proof {
                assert forall|i: u64| b@ != req_bytes(i) by {
                    lemma_dec_digits_form(i as nat);
                    let rb = req_bytes(i);
                    assert(rb.len() >= 9);
                    assert(rb[0] == 123 && rb[1] == 34 && rb[2] == 105 && rb[3] == 100 && rb[4]
                        == 120 && rb[5] == 34 && rb[6] == 58);
                }
            }
            return None;
        }
        match scan_number(b, 7) {
            Some((v, end)) => {
                if end < n && n - end == 1 && b[end] == 125 {
                    proof {
                        lemma_dec_digits_form(v as nat);
                        assert(b@ =~= req_bytes(v));
                    }
                    Some(Req { idx: v })
                } else {
                    proof {
                        assert forall|i: u64| b@ != req_bytes(i) by {
                            if b@ == req_bytes(i) {
                                lemma_dec_digits_form(i as nat);
                                let dl = dec_digits(i as nat).len() as int;
                                assert(b@.len() == 8 + dl);
                                lemma_run_end_is(b@, 7, 7 + dl);
                                assert(end == 7 + dl);
                                assert(b@[end as int] == 125);
                                assert(false);
                            }
                        }
                    }
                    None
                }
            },
            None => {
                proof {
                    assert forall|i: u64| b@ != req_bytes(i) by {
                        if b@ == req_bytes(i) {
                            lemma_dec_digits_form(i as nat);
                            let dl = dec_digits(i as nat).len() as int;
                            lemma_run_end_is(b@, 7, 7 + dl);
                            assert(b@.subrange(7, digit_run_end(b@, 7)) =~= dec_digits(i as nat));
                            assert(false);
                        }
                    }
                }
                None
            },
        }
    }
}

impl Resp {
    /// Decodes a reply datagram; `None` exactly when no reply encodes to
    /// these bytes.
    #[verifier::rlimit(100)]
    #[verifier::spinoff_prover]
    pub fn from_bytes(b: &[u8]) -> (r: Option<Resp>)
        ensures
            r matches Some(p) ==> b@ == resp_bytes(p.idx, p.success),
            r is None ==> forall|i: u64, s: bool| b@ != resp_bytes(i, s),
    {
        let n = b.len();
        if n < 24 || b[0] != 123 || b[1] != 34 || b[2] != 105 || b[3] != 100 || b[4] != 120 || b[5]
            != 34 || b[6] != 58 {
            proof {
                assert forall|i: u64, s: bool| b@ != resp_bytes(i, s) by {
                    lemma_dec_digits_form(i as nat);
                    let rb = resp_bytes(i, s);
                    assert(rb.len() >= 24);
                    assert(rb[0] == 123 && rb[1] == 34 && rb[2] == 105 && rb[3] == 100 && rb[4]
                        == 120 && rb[5] == 34 && rb[6] == 58);
                }
            }
            return None;
        }
        let scanned = scan_number(b, 7);
        match scanned {
            Some((v, end)) => {
                let rem = n - end;
                if rem >= 16 && b[end] == 44 && b[end + 1] == 34 && b[end + 2] == 115 && b[end + 3]
                    == 117 && b[end + 4] == 99 && b[end + 5] == 99 && b[end + 6] == 101 && b[end
                    + 7] == 115 && b[end + 8] == 115 && b[end + 9] == 34 && b[end + 10] == 58 {
                    if rem == 16 && b[end + 11] == 116 && b[end + 12] == 114 && b[end + 13] == 117
                        && b[end + 14] == 101 && b[end + 15] == 125 {
                        proof {
                            lemma_dec_digits_form(v as nat);
                            assert(b@ =~= resp_bytes(v, true));
                        }
                        return Some(Resp { idx: v, success: true });
                    }
                    if rem == 17 && b[end + 11] == 102 && b[end + 12] == 97 && b[end + 13] == 108
                        && b[end + 14] == 115 && b[end + 15] == 101 && b[end + 16] == 125 {
                        proof {
                            lemma_dec_digits_form(v as nat);
                            assert(b@ =~= resp_bytes(v, false));
                        }
                        return Some(Resp { idx: v, success: false });
                    }
                }
                proof {
                    assert forall|i: u64, s: bool| b@ != resp_bytes(i, s) by {
                        if b@ == resp_bytes(i, s) {
                            lemma_dec_digits_form(i as nat);
                            let dl = dec_digits(i as nat).len() as int;
                            lemma_run_end_is(b@, 7, 7 + dl);
                            assert(end == 7 + dl);
                            assert(b@.len() == 19 + dl + (if s { 4int } else { 5int }));
                            assert(b@[end as int] == 44);
                            assert(false);
                        }
                    }
                }
                None
            },
            None => {
                proof {
                    assert forall|i: u64, s: bool| b@ != resp_bytes(i, s) by {
                        if b@ == resp_bytes(i, s) {
                            lemma_dec_digits_form(i as nat);
                            let dl = dec_digits(i as nat).len() as int;
                            lemma_run_end_is(b@, 7, 7 + dl);
                            assert(b@.subrange(7, digit_run_end(b@, 7)) =~= dec_digits(i as nat));
                            assert(false);
                        }
                    }
                }
                None
            },
        }
    }
}

/// Law (reply identity): the wire form of a reply determines its index and
/// verdict, so a stale reply can never be mistaken for the outstanding one.
pub proof fn lemma_resp_bytes_injective(i1: u64, s1: bool, i2: u64, s2: bool)
    requires
        resp_bytes(i1, s1) == resp_bytes(i2, s2),
    ensures
        i1 == i2,
        s1 == s2,
{
    lemma_dec_digits_form(i1 as nat);
    lemma_dec_digits_form(i2 as nat);
    let b = resp_bytes(i1, s1);
    let d1 = dec_digits(i1 as nat).len() as int;
    let d2 = dec_digits(i2 as nat).len() as int;
    lemma_run_end_is(b, 7, 7 + d1);
    lemma_run_end_is(b, 7, 7 + d2);
    assert(d1 == d2);
    assert(dec_digits(i1 as nat) =~= b.subrange(7, 7 + d1));
    assert(dec_digits(i2 as nat) =~= b.subrange(7, 7 + d2));
    assert(dec_int(dec_digits(i1 as nat)) == dec_int(dec_digits(i2 as nat)));
    if s1 != s2 {
        assert(b.len() == 19 + d1 + (if s1 { 4int } else { 5int }));
        assert(b.len() == 19 + d2 + (if s2 { 4int } else { 5int }));
        assert(false);
    }
}

/// One in-flight coordination request: the client side of the protocol state
/// machine. The embedding loop sends the request once, then feeds each receive
/// outcome into `on_msg` / `on_timeout` until the call completes.
pub struct ClientCall {
    /// The index of the outstanding request.
    pub expected: u64,
    /// How many receive attempts have been spent.
    pub attempts: u64,
}

impl ClientCall {
    /// Opens a call for index `idx` with a fresh retry budget.
    pub fn new(idx: u64) -> (c: ClientCall)
        ensures
            c.expected == idx,
            c.attempts == 0,
    {
        ClientCall { expected: idx, attempts: 0 }
    }

    /// Judges one received datagram: a reply matching the outstanding index
    /// completes the call with the server's verdict; anything else — a stale
    /// reply or a malformed message — is discarded and the call keeps waiting.
    pub fn on_msg(&self, msg: &[u8]) -> (r: Option<bool>)
        ensures
            r matches Some(s) ==> msg@ == resp_bytes(self.expected, s),
            r is None ==> forall|s: bool| msg@ != resp_bytes(self.expected, s),
    {
        match Resp::from_bytes(msg) {
            Some(rp) => {
                if rp.idx == self.expected {
                    Some(rp.success)
                } else {
                    proof {
                        assert forall|s: bool| msg@ != resp_bytes(self.expected, s) by {
                            if msg@ == resp_bytes(self.expected, s) {
                                lemma_resp_bytes_injective(rp.idx, rp.success, self.expected, s);
                            }
                        }
                    }
                    None
                }
            },
            None => None,
        }
    }

    /// Notes one receive attempt that timed out: the call keeps waiting until
    /// the retry budget is exhausted, and then fails with a protocol timeout.
    pub fn on_timeout(&mut self) -> (r: Option<BtmErr>)
        requires
            old(self).attempts < RETRY_CNT,
        ensures
            final(self).expected == old(self).expected,
            final(self).attempts == old(self).attempts + 1,
            final(self).attempts < RETRY_CNT ==> r is None,
            final(self).attempts == RETRY_CNT ==> r == Some(BtmErr::ProtocolTimeout),
    {
        self.attempts = self.attempts + 1;
        if self.attempts == RETRY_CNT {
            Some(BtmErr::ProtocolTimeout)
        } else {
            None
        }
    }
}

/// Decodes one datagram the daemon received: the snapshot index to execute,
/// or nothing for a malformed request, which the daemon logs and discards
/// without ever stopping its loop.
pub fn server_parse(msg: &[u8]) -> (r: Option<u64>)
    ensures
        r matches Some(i) ==> msg@ == req_bytes(i),
        r is None ==> forall|i: u64| msg@ != req_bytes(i),
{
    match Req::from_bytes(msg) {
        Some(q) => Some(q.idx),
        None => None,
    }
}

/// Encodes the daemon's reply to a request it parsed and executed: a failed
/// snapshot attempt is still answered, with `success` false.
pub fn server_reply(idx: u64, success: bool) -> (r: Vec<u8>)
    ensures
        r@ == resp_bytes(idx, success),
        r@.len() <= MSG_MAX,
{
    let resp = Resp::new(idx, success);
    resp.to_bytes()
}


} // verus!
