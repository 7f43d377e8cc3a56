use vstd::prelude::*;

verus! {

use vstd::arithmetic::power::pow;
use vstd::string::StringSliceAdditionalSpecFns;
use crate::errors::BtmErr;
use crate::math::checked_pow_u64;

/// Maximum number of snapshots that can be kept.
pub const CAP_MAX: u64 = 4096;

/// The thinning depth of the `Fade` algorithm: retention density decreases
/// through `interval^1 .. interval^STEP_CNT`.
pub const STEP_CNT: usize = 10;

/// Which copy-on-write snapshot tool manages the volume.
#[derive(Clone, Copy, Debug, PartialEq, Eq, Structural)]
pub enum SnapMode {
    /// A zfs-managed volume.
    Zfs,
    /// A btrfs-managed volume.
    Btrfs,
    /// Snapshot creation is delegated to a separate daemon process.
    External,
}

/// The retention policy applied after each snapshot creation.
#[derive(Clone, Copy, Debug, PartialEq, Eq, Structural)]
pub enum SnapAlgo {
    /// Keep exactly the `capacity` most recent snapshots.
    Fair,
    /// Keep snapshots with geometrically decreasing density.
    Fade,
}

/// ASCII lower-casing of one byte.
pub open spec fn lower_byte(b: u8) -> u8 {
    if 65 <= b <= 90 {
        (b + 32) as u8
    } else {
        b
    }
}

/// ASCII lower-casing of a byte string.
pub open spec fn lower_bytes(s: Seq<u8>) -> Seq<u8> {
    s.map_values(|b: u8| lower_byte(b))
}

/// The bytes of "zfs".
pub open spec fn zfs_name() -> Seq<u8> {
    seq![122u8, 102u8, 115u8]
}

/// The bytes of "btrfs".
pub open spec fn btrfs_name() -> Seq<u8> {
    seq![98u8, 116u8, 114u8, 102u8, 115u8]
}

/// The bytes of "external".
pub open spec fn external_name() -> Seq<u8> {
    seq![101u8, 120u8, 116u8, 101u8, 114u8, 110u8, 97u8, 108u8]
}

/// The bytes of "fair".
pub open spec fn fair_name() -> Seq<u8> {
    seq![102u8, 97u8, 105u8, 114u8]
}

/// The bytes of "fade".
pub open spec fn fade_name() -> Seq<u8> {
    seq![102u8, 97u8, 100u8, 101u8]
}

/// Which mode an (already lower-cased) name denotes.
pub open spec fn mode_of_lower(s: Seq<u8>) -> Result<SnapMode, BtmErr> {
    if s == zfs_name() {
        Ok(SnapMode::Zfs)
    } else if s == btrfs_name() {
        Ok(SnapMode::Btrfs)
    } else if s == external_name() {
        Ok(SnapMode::External)
    } else {
        Err(BtmErr::ConfigInvalid)
    }
}

/// Which algorithm an (already lower-cased) name denotes.
pub open spec fn algo_of_lower(s: Seq<u8>) -> Result<SnapAlgo, BtmErr> {
    if s == fair_name() {
        Ok(SnapAlgo::Fair)
    } else if s == fade_name() {
        Ok(SnapAlgo::Fade)
    } else {
        Err(BtmErr::ConfigInvalid)
    }
}

fn lower_u8(b: u8) -> (r: u8)
    ensures
        r == lower_byte(b),
{
    if 65 <= b && b <= 90 {
        b + 32
    } else {
        b
    }
}

impl SnapMode {
    /// Parses a mode name, ASCII-case-insensitively.
    pub fn from_string(m: &str) -> (r: Result<SnapMode, BtmErr>)
        ensures
            r == mode_of_lower(lower_bytes(m.spec_bytes())),
    {
        let b = m.as_bytes();
        let ghost low = lower_bytes(m.spec_bytes());
        if b.len() == 3 && lower_u8(b[0]) == 122 && lower_u8(b[1]) == 102 && lower_u8(b[2]) == 115 {
            proof {
                assert(low =~= zfs_name());
            }
            Ok(SnapMode::Zfs)
        } else if b.len() == 5 && lower_u8(b[0]) == 98 && lower_u8(b[1]) == 116
            && lower_u8(b[2]) == 114 && lower_u8(b[3]) == 102 && lower_u8(b[4]) == 115 {
            proof {
                assert(low =~= btrfs_name());
            }
            Ok(SnapMode::Btrfs)
        } else if b.len() == 8 && lower_u8(b[0]) == 101 && lower_u8(b[1]) == 120
            && lower_u8(b[2]) == 116 && lower_u8(b[3]) == 101 && lower_u8(b[4]) == 114
            && lower_u8(b[5]) == 110 && lower_u8(b[6]) == 97 && lower_u8(b[7]) == 108 {
            proof {
                assert(low =~= external_name());
            }
            Ok(SnapMode::External)
        } else {
            proof {
                let sb = m.spec_bytes();
                if low == zfs_name() {
                    assert(zfs_name().len() == 3);
                    assert(low.len() == sb.len());
                    assert(sb.len() == 3);
                    assert(low[0] == lower_byte(sb[0]) && low[1] == lower_byte(sb[1])
                        && low[2] == lower_byte(sb[2]));
                    assert(false);
                }
                if low == btrfs_name() {
                    assert(btrfs_name().len() == 5);
                    assert(low.len() == sb.len());
                    assert(sb.len() == 5);
                    assert(low[0] == lower_byte(sb[0]) && low[1] == lower_byte(sb[1])
                        && low[2] == lower_byte(sb[2]) && low[3] == lower_byte(sb[3])
                        && low[4] == lower_byte(sb[4]));
                    assert(false);
                }
                if low == external_name() {
                    assert(external_name().len() == 8);
                    assert(low.len() == sb.len());
                    assert(sb.len() == 8);
                    assert(low[0] == lower_byte(sb[0]) && low[1] == lower_byte(sb[1])
                        && low[2] == lower_byte(sb[2]) && low[3] == lower_byte(sb[3])
                        && low[4] == lower_byte(sb[4]) && low[5] == lower_byte(sb[5])
                        && low[6] == lower_byte(sb[6]) && low[7] == lower_byte(sb[7]));
                    assert(false);
                }
            }
            Err(BtmErr::ConfigInvalid)
        }
    }
}

impl Default for SnapMode {
    /// The mode assumed when none is configured.
    fn default() -> (d: Self)
        ensures
            d == SnapMode::External,
    {
        SnapMode::External
    }
}

impl SnapAlgo {
    /// Parses an algorithm name, ASCII-case-insensitively.
    pub fn from_string(m: &str) -> (r: Result<SnapAlgo, BtmErr>)
        ensures
            r == algo_of_lower(lower_bytes(m.spec_bytes())),
    {
        let b = m.as_bytes();
        let ghost low = lower_bytes(m.spec_bytes());
        if b.len() == 4 && lower_u8(b[0]) == 102 && lower_u8(b[1]) == 97 && lower_u8(b[2]) == 105
            && lower_u8(b[3]) == 114 {
            proof {
                assert(low =~= fair_name());
            }
            Ok(SnapAlgo::Fair)
        } else if b.len() == 4 && lower_u8(b[0]) == 102 && lower_u8(b[1]) == 97
            && lower_u8(b[2]) == 100 && lower_u8(b[3]) == 101 {
            proof {
                assert(low =~= fade_name());
            }
            Ok(SnapAlgo::Fade)
        } else {
            proof {
                let sb = m.spec_bytes();
                if low == fair_name() {
                    assert(fair_name().len() == 4);
                    assert(low.len() == sb.len());
                    assert(sb.len() == 4);
                    assert(low[0] == lower_byte(sb[0]) && low[1] == lower_byte(sb[1])
                        && low[2] == lower_byte(sb[2]) && low[3] == lower_byte(sb[3]));
                    assert(false);
                }
                if low == fade_name() {
                    assert(fade_name().len() == 4);
                    assert(low.len() == sb.len());
                    assert(sb.len() == 4);
                    assert(low[0] == lower_byte(sb[0]) && low[1] == lower_byte(sb[1])
                        && low[2] == lower_byte(sb[2]) && low[3] == lower_byte(sb[3]));
                    assert(false);
                }
            }
            Err(BtmErr::ConfigInvalid)
        }
    }
}

impl Default for SnapAlgo {
    /// The policy assumed when none is configured.
    fn default() -> (d: Self)
        ensures
            d == SnapAlgo::Fair,
    {
        SnapAlgo::Fair
    }
}

/// Configuration of snapshot management for one volume.
#[derive(Clone, Debug)]
pub struct BtmCfg {
    /// The interval between adjacent eligible snapshot indices.
    pub itv: u64,
    /// The maximum number of snapshots that will be stored.
    pub cap: u64,
    /// How many snapshots a `clean` pass keeps.
    pub cap_clean_kept: usize,
    /// Which snapshot tool manages the volume.
    pub mode: SnapMode,
    /// The retention policy.
    pub algo: SnapAlgo,
    /// The data volume under management.
    pub volume: String,
}

impl BtmCfg {
    /// A usable configuration: a positive interval whose `STEP_CNT`-th power
    /// (the deepest `Fade` thinning modulus) fits in `u64`.
    pub open spec fn wf(&self) -> bool {
        &&& 1 <= self.itv
        &&& pow(self.itv as int, STEP_CNT as nat) <= u64::MAX
    }

    /// The retention capacity actually applied: `cap`, bounded by `CAP_MAX`.
    pub open spec fn spec_cap(&self) -> u64 {
        if self.cap > CAP_MAX {
            CAP_MAX
        } else {
            self.cap
        }
    }

    /// Validates the interval/capacity combination, once, up front.
    pub fn check(&self) -> (r: Result<(), BtmErr>)
        ensures
            r is Ok <==> self.wf(),
            r is Err ==> r == Err::<(), BtmErr>(BtmErr::ConfigInvalid),
    {
        if self.itv == 0 {
            return Err(BtmErr::ConfigInvalid);
        }
        match checked_pow_u64(self.itv, STEP_CNT as u32) {
            Some(_) => Ok(()),
            None => Err(BtmErr::ConfigInvalid),
        }
    }

    /// Creates a configuration with the default interval, capacity and policy.
    pub fn new(volume: &str, mode: SnapMode) -> (c: Self)
        ensures
            c.itv == 10,
            c.cap == 100,
            c.cap_clean_kept == 0,
            c.mode == mode,
            c.algo == SnapAlgo::Fair,
            c.volume@ == volume@,
            c.wf(),
    {
        let c = BtmCfg {
            itv: 10,
            cap: 100,
            cap_clean_kept: 0,
            mode,
            algo: SnapAlgo::Fair,
            volume: volume.to_owned(),
        };
        proof {
            reveal_with_fuel(pow, 11);
            assert(pow(10int, STEP_CNT as nat) == 10_000_000_000);
        }
        c
    }

    /// The capacity actually applied: `cap`, bounded by `CAP_MAX`.
    pub fn get_cap(&self) -> (r: u64)
        ensures
            r == self.spec_cap(),
    {
        if self.cap > CAP_MAX {
            CAP_MAX
        } else {
            self.cap
        }
    }
}

} // verus!
