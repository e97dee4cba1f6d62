//! Whole numbers held as floats.

use crate::data::{Data, DataV};
use vstd::arithmetic::power2::{
    lemma2_to64, lemma2_to64_rest, lemma_pow2_pos, lemma_pow2_strictly_increases, lemma_pow2_unfold,
    pow2,
};
use vstd::prelude::*;

verus! {

/// The exponent field of a float.
pub open spec fn exponent(bits: u64) -> int {
    (bits as int / 0x10_0000_0000_0000) % 0x800
}

/// The significand of a normal float.
pub open spec fn significand(bits: u64) -> int {
    bits as int % 0x10_0000_0000_0000 + 0x10_0000_0000_0000
}

/// The magnitude of a float that is a whole number.
pub open spec fn whole_magnitude(bits: u64) -> Option<int> {
    let e = exponent(bits);
    if e == 0x7ff {
        None
    } else if e == 0 {
        if bits as int % 0x10_0000_0000_0000 == 0 {
            Some(0)
        } else {
            None
        }
    } else if e >= 1075 {
        Some(significand(bits) * pow2((e - 1075) as nat))
    } else {
        let q = pow2((1075 - e) as nat) as int;
        if significand(bits) % q == 0 {
            Some(significand(bits) / q)
        } else {
            None
        }
    }
}

/// The whole number that the float with these bits is.
pub open spec fn whole(bits: u64) -> Option<int> {
    match whole_magnitude(bits) {
        None => None,
        Some(n) => Some(
            if bits >= 0x8000_0000_0000_0000 {
                -n
            } else {
                n
            },
        ),
    }
}

/// Two to the `n`.
fn two_to(n: u64) -> (r: u128)
    requires
        n <= 60,
    ensures
        r == pow2(n as nat),
        0 < r <= 0x1000_0000_0000_0000,
{
    let mut r: u128 = 1;
    let mut i: u64 = 0;
    proof {
        lemma2_to64();
        lemma2_to64_rest();
    }
    while i < n
        invariant
            i <= n <= 60,
            r == pow2(i as nat),
            pow2(60) == 0x1000_0000_0000_0000,
        decreases n - i,
    {
        proof {
            lemma_pow2_strictly_increases(i as nat, 60);
            lemma_pow2_unfold((i + 1) as nat);
        }
        r = r * 2;
        i = i + 1;
    }
    proof {
        lemma_pow2_pos(n as nat);
        if n < 60 {
            lemma_pow2_strictly_increases(n as nat, 60);
        }
    }
    r
}

/// The whole number that the float is, if it is less than 2 to the 65 in
/// magnitude.
pub fn small_whole(bits: u64) -> (r: Option<i128>)
    ensures
        match whole(bits) {
            Some(n) => if -0x2_0000_0000_0000_0000 < n < 0x2_0000_0000_0000_0000 {
                r == Some(n as i128)
            } else {
                r is None
            },
            None => r is None,
        },
{
    let e: u64 = (bits / 0x10_0000_0000_0000) % 0x800;
    let m: u64 = bits % 0x10_0000_0000_0000;
    if e == 0x7ff {
        return None;
    }
    if e == 0 {
        if m == 0 {
            return Some(0);
        } else {
            return None;
        }
    }
    let sig: u128 = m as u128 + 0x10_0000_0000_0000;
    let n: u128;
    if e >= 1075 {
        if e - 1075 > 12 {
            proof {
                lemma2_to64();
                if e - 1075 > 13 {
                    lemma_pow2_strictly_increases(13, (e - 1075) as nat);
                }
                let p = pow2((e - 1075) as nat) as int;
                assert(p >= 8192);
                assert(sig * p >= 0x10_0000_0000_0000 * 8192) by (nonlinear_arith)
                    requires
                        sig >= 0x10_0000_0000_0000,
                        p >= 8192,
                ;
            }
            return None;
        }
        let p: u128 = two_to(e - 1075);
        proof {
            lemma2_to64();
            if e - 1075 < 12 {
                lemma_pow2_strictly_increases((e - 1075) as nat, 12);
            }
            assert(p <= 4096);
            assert(sig * p < 0x20_0000_0000_0000 * 4096) by (nonlinear_arith)
                requires
                    0 <= sig < 0x20_0000_0000_0000,
                    0 < p <= 4096,
            ;
        }
        n = sig * p;
    } else {
        if 1075 - e > 60 {
            proof {
                lemma2_to64_rest();
                lemma_pow2_strictly_increases(60, (1075 - e) as nat);
                let q = pow2((1075 - e) as nat) as int;
                assert(sig as int % q == sig) by (nonlinear_arith)
                    requires
                        0 <= sig < q,
                ;
            }
            return None;
        }
        let q: u128 = two_to(1075 - e);
        if sig % q != 0 {
            return None;
        }
        n = sig / q;
        assert(n <= sig) by (nonlinear_arith)
            requires
                n == sig / q,
                q > 0,
        ;
    }
    if bits >= 0x8000_0000_0000_0000 {
        Some(-(n as i128))
    } else {
        Some(n as i128)
    }
}

/// The data as an unsigned integer: an integer that is one, or a float that is
/// a whole number in range. 2 to the 64 counts as the largest.
pub open spec fn as_u64_of(d: DataV) -> Option<u64> {
    match d {
        DataV::UInt(n) => Some(n),
        DataV::Float(b) => match whole(b) {
            Some(n) => if 0 <= n <= 0xffff_ffff_ffff_ffff {
                Some(n as u64)
            } else if n == 0x1_0000_0000_0000_0000 {
                Some(0xffff_ffff_ffff_ffff)
            } else {
                None
            },
            None => None,
        },
        _ => None,
    }
}

/// The data as a signed integer: an integer that is one, or a float that is a
/// whole number in range. 2 to the 63 as a float counts as the largest.
pub open spec fn as_i64_of(d: DataV) -> Option<i64> {
    match d {
        DataV::UInt(n) => if n <= 0x7fff_ffff_ffff_ffff {
            Some(n as i64)
        } else {
            None
        },
        DataV::NInt(n) => if n <= 0x7fff_ffff_ffff_ffff {
            Some((-1 - n) as i64)
        } else {
            None
        },
        DataV::Float(b) => match whole(b) {
            Some(n) => if -0x8000_0000_0000_0000 <= n <= 0x7fff_ffff_ffff_ffff {
                Some(n as i64)
            } else if n == 0x8000_0000_0000_0000 {
                Some(0x7fff_ffff_ffff_ffff)
            } else {
                None
            },
            None => None,
        },
        _ => None,
    }
}

/// The data as an unsigned integer.
pub fn as_u64(d: &Data) -> (r: Option<u64>)
    ensures
        r == as_u64_of(d@),
{
    match d {
        Data::UInt(n) => Some(*n),
        Data::Float(b) => match small_whole(*b) {
            Some(n) => if 0 <= n && n <= 0xffff_ffff_ffff_ffff {
                Some(n as u64)
            } else if n == 0x1_0000_0000_0000_0000 {
                Some(0xffff_ffff_ffff_ffff)
            } else {
                None
            },
            None => None,
        },
        _ => None,
    }
}

/// The data as a signed integer.
pub fn as_i64(d: &Data) -> (r: Option<i64>)
    ensures
        r == as_i64_of(d@),
{
    match d {
        Data::UInt(n) => if *n <= 0x7fff_ffff_ffff_ffff {
            Some(*n as i64)
        } else {
            None
        },
        Data::NInt(n) => if *n <= 0x7fff_ffff_ffff_ffff {
            Some((-1 - *n as i128) as i64)
        } else {
            None
        },
        Data::Float(b) => match small_whole(*b) {
            Some(n) => if -0x8000_0000_0000_0000 <= n && n <= 0x7fff_ffff_ffff_ffff {
                Some(n as i64)
            } else if n == 0x8000_0000_0000_0000 {
                Some(0x7fff_ffff_ffff_ffff)
            } else {
                None
            },
            None => None,
        },
        _ => None,
    }
}

/// The magnitude of a finite float, without its fraction.
pub open spec fn trunc_magnitude(bits: u64) -> int {
    let e = exponent(bits);
    if e == 0 {
        0
    } else if e >= 1075 {
        significand(bits) * pow2((e - 1075) as nat)
    } else {
        significand(bits) / (pow2((1075 - e) as nat) as int)
    }
}

/// The integer that a float becomes between `lo` and `hi`: its fraction is cut
/// off, what lies beyond is cut to the bound, and NaN is zero.
pub open spec fn cast_of(bits: u64, lo: int, hi: int) -> int {
    let negative = bits >= 0x8000_0000_0000_0000;
    if exponent(bits) == 0x7ff {
        if bits as int % 0x10_0000_0000_0000 != 0 {
            0
        } else if negative {
            lo
        } else {
            hi
        }
    } else {
        let n = if negative {
            -trunc_magnitude(bits)
        } else {
            trunc_magnitude(bits)
        };
        if n < lo {
            lo
        } else if n > hi {
            hi
        } else {
            n
        }
    }
}

/// The integer that a float becomes between `lo` and `hi`.
pub fn cast(bits: u64, lo: i128, hi: i128) -> (r: i128)
    requires
        -0x1_0000_0000_0000_0000 <= lo <= 0 <= hi <= 0x1_0000_0000_0000_0000,
    ensures
        r == cast_of(bits, lo as int, hi as int),
        lo <= r <= hi,
{
    let e: u64 = (bits / 0x10_0000_0000_0000) % 0x800;
    let m: u64 = bits % 0x10_0000_0000_0000;
    let negative: bool = bits >= 0x8000_0000_0000_0000;
    if e == 0x7ff {
        if m != 0 {
            return 0;
        }
        if negative {
            return lo;
        } else {
            return hi;
        }
    }
    if e == 0 {
        return 0;
    }
    let sig: u128 = m as u128 + 0x10_0000_0000_0000;
    let n: u128;
    if e >= 1075 {
        if e - 1075 > 12 {
            proof {
                lemma2_to64();
                if e - 1075 > 13 {
                    lemma_pow2_strictly_increases(13, (e - 1075) as nat);
                }
                let p = pow2((e - 1075) as nat) as int;
                assert(p >= 8192);
                assert(sig * p >= 0x10_0000_0000_0000 * 8192) by (nonlinear_arith)
                    requires
                        sig >= 0x10_0000_0000_0000,
                        p >= 8192,
                ;
            }
            if negative {
                return lo;
            } else {
                return hi;
            }
        }
        let p: u128 = two_to(e - 1075);
        proof {
            lemma2_to64();
            if e - 1075 < 12 {
                lemma_pow2_strictly_increases((e - 1075) as nat, 12);
            }
            assert(p <= 4096);
            assert(sig * p < 0x20_0000_0000_0000 * 4096) by (nonlinear_arith)
                requires
                    0 <= sig < 0x20_0000_0000_0000,
                    0 < p <= 4096,
            ;
        }
        n = sig * p;
    } else if 1075 - e > 60 {
        proof {
            lemma2_to64_rest();
            lemma_pow2_strictly_increases(60, (1075 - e) as nat);
            let q = pow2((1075 - e) as nat) as int;
            assert(sig as int / q == 0) by (nonlinear_arith)
                requires
                    0 <= sig < q,
            ;
        }
        n = 0;
    } else {
        let q: u128 = two_to(1075 - e);
        n = sig / q;
        assert(n <= sig) by (nonlinear_arith)
            requires
                n == sig / q,
                q > 0,
        ;
    }
    let v: i128 = if negative {
        -(n as i128)
    } else {
        n as i128
    };
    if v < lo {
        lo
    } else if v > hi {
        hi
    } else {
        v
    }
}

} // verus!
