use vstd::prelude::*;

verus! {

use crate::errors::BtmErr;

/// Sorted strictly ascending: ordered and free of duplicates.
pub open spec fn strictly_ascending(s: Seq<u64>) -> bool {
    forall|i: int, j: int| 0 <= i < j < s.len() ==> s[i] < s[j]
}

/// What rollback target resolution returns on an ascending unique catalog `s`:
/// the latest index when no target is given; an exact match when retained;
/// under strict mode an error on a miss; otherwise the closest retained index
/// strictly below the target, falling back to the latest when the target is
/// newer than everything retained, and failing when it is older than
/// everything retained.
pub open spec fn resolve_post(
    s: Seq<u64>,
    target: Option<u64>,
    strict: bool,
    r: Result<u64, BtmErr>,
) -> bool {
    if s.len() == 0 {
        r == Err::<u64, BtmErr>(BtmErr::NoSnapshots)
    } else {
        match target {
            None => r == Ok::<u64, BtmErr>(s.last()),
            Some(t) => {
                if s.contains(t) {
                    r == Ok::<u64, BtmErr>(t)
                } else if strict {
                    r == Err::<u64, BtmErr>(BtmErr::TargetNotFound)
                } else if t > s.last() {
                    r == Ok::<u64, BtmErr>(s.last())
                } else if t < s[0] {
                    r == Err::<u64, BtmErr>(BtmErr::NoSnapshots)
                } else {
                    match r {
                        Ok(v) => s.contains(v) && v < t && forall|j: int|
                            0 <= j < s.len() && s[j] < t ==> s[j] <= v,
                        Err(_) => false,
                    }
                }
            },
        }
    }
}

/// Resolves a rollback request against the ascending list of retained
/// snapshot indices.
pub fn resolve(snaps: &Vec<u64>, target: Option<u64>, strict: bool) -> (r: Result<u64, BtmErr>)
    requires
        strictly_ascending(snaps@),
    ensures
        resolve_post(snaps@, target, strict, r),
{
    let n = snaps.len();
    if n == 0 {
        return Err(BtmErr::NoSnapshots);
    }
    let t: u64 = match target {
        None => {
            return Ok(snaps[n - 1]);
        },
        Some(t) => t,
    };
    // Binary search for the insertion point: the first index holding a value
    // not below `t`.
    let mut lo: usize = 0;
    let mut hi: usize = n;
    while lo < hi
        invariant
            lo <= hi <= n,
            n == snaps@.len(),
            strictly_ascending(snaps@),
            forall|j: int| 0 <= j < lo ==> snaps@[j] < t,
            forall|j: int| hi <= j < n ==> snaps@[j] >= t,
        decreases hi - lo,
    {
        let mid = lo + (hi - lo) / 2;
        if snaps[mid] < t {
            lo = mid + 1;
        } else {
            hi = mid;
        }
    }
    if lo < n && snaps[lo] == t {
        return Ok(t);
    }
    proof {
        assert(forall|j: int| 0 <= j < snaps@.len() ==> snaps@[j] != t) by {
            assert forall|j: int| 0 <= j < snaps@.len() implies snaps@[j] != t by {
                if j >= lo && (lo as int) < j {
                    assert(snaps@[lo as int] < snaps@[j]);
                }
            }
        }
    }
    if strict {
        return Err(BtmErr::TargetNotFound);
    }
    if lo == n {
        return Ok(snaps[n - 1]);
    }
    if lo == 0 {
        return Err(BtmErr::NoSnapshots);
    }
    let v = snaps[lo - 1];
    proof {
        assert(snaps@.contains(v)) by {
            assert(snaps@[lo - 1] == v);
        }
        assert(snaps@[lo as int] >= t);
        assert(snaps@.last() >= snaps@[lo as int]);
        assert(forall|j: int| 0 <= j < snaps@.len() && snaps@[j] < t ==> snaps@[j] <= v) by {
            assert forall|j: int| 0 <= j < snaps@.len() && snaps@[j] < t implies snaps@[j] <= v by {
                if j >= lo {
                    assert(snaps@[j] >= t);
                }
                if j < lo - 1 {
                    assert(snaps@[j] < snaps@[lo - 1]);
                }
            }
        }
    }
    Ok(v)
}

} // verus!
