//! The compression mode: an optional signed parameter chooses between
//! unconstrained growth, a depth bound of `2^n` bytes per phrase, or a size
//! bound of `2^|n|` nodes per dictionary with segmentation.

use vstd::prelude::*;
use vstd::arithmetic::power2::{pow2, lemma_pow2_adds, lemma_pow2_strictly_increases, lemma2_to64, lemma2_to64_rest};

verus! {

/// The growth policy of one compression run.
#[derive(Clone, Copy, Debug, PartialEq, Eq, Structural)]
pub enum Mode {
    Unlimited,
    LimitDepth(u128),
    LimitSize(u128),
}

/// The resolved configuration: the mode, and the exponent carried into the
/// output header byte (0 unless the mode is size-limited).
#[derive(Clone, Copy, Debug, PartialEq, Eq, Structural)]
pub struct RunConfig {
    pub mode: Mode,
    pub header: u8,
}

/// The mode chosen for a parameter: none (or one that failed to parse)
/// means unlimited, a positive `n` bounds phrase depth by `2^n`, and `n <= 0`
/// bounds dictionary size by `2^|n|`.
pub open spec fn spec_resolve(arg: Option<i8>) -> Mode {
    match arg {
        Option::None => Mode::Unlimited,
        Option::Some(n) => if n > 0 {
            Mode::LimitDepth(pow2(n as nat) as u128)
        } else {
            Mode::LimitSize(pow2((-n) as nat) as u128)
        },
    }
}

/// The header exponent for a parameter: `|n|` when `n <= 0` selects the
/// size-limited mode, else 0.
pub open spec fn spec_header(arg: Option<i8>) -> u8 {
    match arg {
        Option::None => 0,
        Option::Some(n) => if n > 0 {
            0
        } else {
            (-n) as u8
        },
    }
}

/// Raise 2 to a small power.
fn pow2_u128(e: u32) -> (r: u128)
    requires
        e <= 127,
    ensures
        r == pow2(e as nat),
{
    proof {
        lemma2_to64();
        lemma2_to64_rest();
        lemma_pow2_adds(63, 64);
        assert(pow2(127) < u128::MAX);
    }
    let mut r: u128 = 1;
    let mut i: u32 = 0;
    while i < e
        invariant
            i <= e <= 127,
            r == pow2(i as nat),
            pow2(127) < u128::MAX,
        decreases e - i,
    {
        proof {
            if i + 1 < 127 {
                lemma_pow2_strictly_increases((i + 1) as nat, 127);
            }
            crate::bits::lemma_pow2_double(i as nat);
        }
        r = r * 2;
        i = i + 1;
    }
    r
}

/// An ASCII decimal digit.
pub open spec fn is_ascii_digit(b: u8) -> bool {
    48 <= b <= 57
}

pub open spec fn all_ascii_digits(s: Seq<u8>) -> bool {
    forall|j: int| 0 <= j < s.len() ==> is_ascii_digit(#[trigger] s[j])
}

/// The value of a string of decimal digits, most significant first.
pub open spec fn digits_value(s: Seq<u8>) -> int
    decreases s.len(),
{
    if s.len() == 0 {
        0
    } else {
        digits_value(s.drop_last()) * 10 + (s.last() - 48)
    }
}

/// The text after an optional leading `+` or `-`.
pub open spec fn sign_skipped(s: Seq<u8>) -> Seq<u8> {
    if s.len() > 0 && (s[0] == 43 || s[0] == 45) {
        s.drop_first()
    } else {
        s
    }
}

/// What parsing a byte string as a signed decimal `i8` yields: an optional
/// `+` or `-`, then at least one ASCII digit, with the value in the type's
/// range; anything else fails.
pub open spec fn spec_parse_i8(s: Seq<u8>) -> Option<i8> {
    let neg = s.len() > 0 && s[0] == 45;
    let ds = sign_skipped(s);
    if ds.len() == 0 || !all_ascii_digits(ds) {
        Option::None
    } else {
        let v = digits_value(ds);
        if neg && v <= 128 {
            Option::Some((-v) as i8)
        } else if !neg && v <= 127 {
            Option::Some(v as i8)
        } else {
            Option::None
        }
    }
}

proof fn lemma_digits_value_snoc(s: Seq<u8>, j: int)
    requires
        0 <= j < s.len(),
    ensures
        digits_value(s.take(j + 1)) == digits_value(s.take(j)) * 10 + (s[j] - 48),
{
    let pre = s.take(j + 1);
    assert(pre.drop_last() =~= s.take(j));
    assert(pre.last() == s[j]);
}

/// Parse the run parameter's text as a signed decimal `i8`, accepting an
/// optional leading `+` or `-` and at least one digit, and rejecting any
/// other shape and any value out of the type's range.
pub fn parse_i8(s: &Vec<u8>) -> (r: Option<i8>)
    ensures
        r == spec_parse_i8(s@),
{
    if s.len() == 0 {
        return None;
    }
    let first = s[0];
    let neg = first == 45;
    let start: usize = if first == 43 || first == 45 {
        1
    } else {
        0
    };
    let ghost ds = sign_skipped(s@);
    proof {
        assert(ds.len() == s@.len() - start);
        assert(forall|j: int| 0 <= j < ds.len() ==> ds[j] == s@[start + j]);
    }
    if s.len() == start {
        return None;
    }
    let mut mag: u32 = 0;
    let mut i: usize = start;
    while i < s.len()
        invariant
            start <= i <= s@.len(),
            start <= 1 < s@.len() + 1,
            (start == 1) == (s@[0] == 43 || s@[0] == 45),
            neg == (s@[0] == 45),
            ds == sign_skipped(s@),
            ds.len() == s@.len() - start,
            forall|j: int| 0 <= j < ds.len() ==> ds[j] == s@[start + j],
            all_ascii_digits(ds.take((i - start) as int)),
            mag <= 2200,
            mag <= digits_value(ds.take((i - start) as int)),
            digits_value(ds.take((i - start) as int)) < 200 ==> mag == digits_value(
                ds.take((i - start) as int),
            ),
            digits_value(ds.take((i - start) as int)) >= 200 ==> mag >= 200,
        decreases s@.len() - i,
    {
        let b = s[i];
        if b < 48 || b > 57 {
            proof {
                assert(!is_ascii_digit(ds[(i - start) as int]));
            }
            return None;
        }
        proof {
            let j = (i - start) as int;
            lemma_digits_value_snoc(ds, j);
            assert forall|q: int| 0 <= q < ds.take(j + 1).len() implies is_ascii_digit(
                #[trigger] ds.take(j + 1)[q],
            ) by {
                if q < j {
                    assert(is_ascii_digit(ds.take(j)[q]));
                }
            }
        }
        mag = if mag >= 200 {
            mag
        } else {
            mag * 10 + (b - 48) as u32
        };
        i = i + 1;
    }
    proof {
        assert(ds.take((i - start) as int) =~= ds);
    }
    if neg {
        if mag <= 128 {
            Some((0i16 - mag as i16) as i8)
        } else {
            None
        }
    } else {
        if mag <= 127 {
            Some(mag as i8)
        } else {
            None
        }
    }
}

/// Turn the optional run parameter into a configuration. A caller that failed
/// to parse its parameter passes `None` and so falls back to the unlimited
/// mode, exactly as if no parameter had been given.
pub fn resolve_mode(arg: Option<i8>) -> (c: RunConfig)
    requires
        arg != Some(-128i8),
    ensures
        c.mode == spec_resolve(arg),
        c.header == spec_header(arg),
{
    match arg {
        Option::None => RunConfig { mode: Mode::Unlimited, header: 0 },
        Option::Some(n) => {
            if n > 0 {
                let limit = pow2_u128(n as u32);
                RunConfig { mode: Mode::LimitDepth(limit), header: 0 }
            } else {
                let exponent: u8 = (0 - n) as u8;
                let limit = pow2_u128(exponent as u32);
                RunConfig { mode: Mode::LimitSize(limit), header: exponent }
            }
        },
    }
}

} // verus!
