//! Decimal integers read from text the way `str::parse` reads them: an
//! optional sign, at least one ASCII digit, and nothing else, within the
//! target type's range.
use vstd::prelude::*;
use vstd::string::StringSliceAdditionalSpecFns;

verus! {

/// An ASCII digit.
pub open spec fn is_digit(b: u8) -> bool {
    0x30u8 <= b <= 0x39u8
}

/// Every byte of `s` is an ASCII digit.
pub open spec fn all_digits(s: Seq<u8>) -> bool {
    forall|i: int| 0 <= i < s.len() ==> is_digit(#[trigger] s[i])
}

/// The value of the decimal digits `s`.
pub open spec fn digits_value(s: Seq<u8>) -> nat
    decreases s.len(),
{
    if s.len() == 0 {
        0
    } else {
        digits_value(s.drop_last()) * 10 + (s.last() - 0x30u8) as nat
    }
}

/// The value of `body` when it is at least one digit and only digits.
pub open spec fn digits_of(body: Seq<u8>) -> Option<nat> {
    if body.len() > 0 && all_digits(body) {
        Some(digits_value(body))
    } else {
        None
    }
}

/// The magnitude written by `s` after an optional leading sign byte `sign`.
pub open spec fn magnitude(s: Seq<u8>, sign: u8) -> Option<nat> {
    if s.len() > 0 && s[0] == sign {
        digits_of(s.drop_first())
    } else {
        digits_of(s)
    }
}

/// The unsigned integer at most `max` that `s` writes, as `str::parse` reads
/// an unsigned type: an optional `+`, then decimal digits.
pub open spec fn parse_unsigned(s: Seq<u8>, max: nat) -> Option<nat> {
    match magnitude(s, 0x2Bu8) {
        Some(v) => if v <= max {
            Some(v)
        } else {
            None
        },
        None => None,
    }
}

/// The `i32` that `s` writes, as `str::parse::<i32>` reads it: an optional
/// `+` or `-`, then decimal digits, within the type's range.
pub open spec fn parse_i32(s: Seq<u8>) -> Option<int> {
    if s.len() > 0 && s[0] == 0x2Du8 {
        match digits_of(s.drop_first()) {
            Some(v) => if v <= 0x8000_0000 {
                Some(-v)
            } else {
                None
            },
            None => None,
        }
    } else {
        match parse_unsigned(s, 0x7FFF_FFFF) {
            Some(v) => Some(v as int),
            None => None,
        }
    }
}

/// The `i64` that `s` writes, as `str::parse::<i64>` reads it.
pub open spec fn parse_i64(s: Seq<u8>) -> Option<int> {
    if s.len() > 0 && s[0] == 0x2Du8 {
        match digits_of(s.drop_first()) {
            Some(v) => if v <= 0x8000_0000_0000_0000 {
                Some(-v)
            } else {
                None
            },
            None => None,
        }
    } else {
        match parse_unsigned(s, 0x7FFF_FFFF_FFFF_FFFF) {
            Some(v) => Some(v as int),
            None => None,
        }
    }
}

/// Digit values grow with each digit appended.
proof fn lemma_digits_push(s: Seq<u8>, d: u8)
    ensures
        digits_value(s.push(d)) == digits_value(s) * 10 + (d - 0x30u8) as nat,
{
    assert(s.push(d).drop_last() =~= s);
}

/// Reads the decimal digits of `s` from `start` on, refusing a value above
/// `max`.
fn read_digits(s: &[u8], start: usize, max: u64) -> (r: Option<u64>)
    requires
        start <= s.len(),
    ensures
        r matches Some(v) ==> {
            let body = s@.subrange(start as int, s@.len() as int);
            body.len() > 0 && all_digits(body) && v == digits_value(body) && v <= max
        },
        r is None ==> {
            let body = s@.subrange(start as int, s@.len() as int);
            !(body.len() > 0 && all_digits(body) && digits_value(body) <= max)
        },
{
    if start == s.len() {
        return None;
    }
    let mut v: u64 = 0;
    let mut i: usize = start;
    assert(s@.subrange(start as int, start as int) =~= Seq::<u8>::empty());
    while i < s.len()
        invariant
            start <= i <= s.len(),
            start < s.len(),
            all_digits(s@.subrange(start as int, i as int)),
            v == digits_value(s@.subrange(start as int, i as int)),
            v <= max,
        decreases s.len() - i,
    {
        let b = s[i];
        if b < 0x30u8 || b > 0x39u8 {
            assert(!is_digit(s@.subrange(start as int, s@.len() as int)[i - start]));
            return None;
        }
        let d = (b - 0x30u8) as u64;
        proof {
            lemma_digits_push(s@.subrange(start as int, i as int), b);
            assert(s@.subrange(start as int, i as int).push(b) =~= s@.subrange(start as int, i + 1));
        }
        let ghost body = s@.subrange(start as int, s@.len() as int);
        let ghost prefix = s@.subrange(start as int, i + 1);
        if d > max {
            proof {
                if all_digits(body) {
                    lemma_digits_prefix_bound(body, (i + 1 - start) as int);
                    assert(body.subrange(0, i + 1 - start) =~= prefix);
                }
            }
            return None;
        }
        if v > (max - d) / 10 {
            proof {
                assert(v * 10 + d > max) by (nonlinear_arith)
                    requires
                        v > (max - d) / 10,
                        d <= max,
                ;
                if all_digits(body) {
                    lemma_digits_prefix_bound(body, (i + 1 - start) as int);
                    assert(body.subrange(0, i + 1 - start) =~= prefix);
                }
            }
            return None;
        }
        assert(v * 10 + d <= max) by (nonlinear_arith)
            requires
                v <= (max - d) / 10,
                d <= max,
        ;
        v = v * 10 + d;
        i = i + 1;
    }
    Some(v)
}

/// A digit string's value is at least that of each of its prefixes.
proof fn lemma_digits_prefix_bound(s: Seq<u8>, k: int)
    requires
        0 <= k <= s.len(),
        all_digits(s),
    ensures
        digits_value(s.subrange(0, k)) <= digits_value(s),
    decreases s.len(),
{
    if k < s.len() {
        assert(s.drop_last().subrange(0, k) =~= s.subrange(0, k));
        assert(all_digits(s.drop_last()));
        lemma_digits_prefix_bound(s.drop_last(), k);
    } else {
        assert(s.subrange(0, k) =~= s);
    }
}

/// Reads an unsigned integer at most `max` from `s` as `str::parse` does.
pub fn parse_unsigned_exec(s: &[u8], max: u64) -> (r: Option<u64>)
    ensures
        r matches Some(v) ==> parse_unsigned(s@, max as nat) == Some(v as nat),
        r is None ==> parse_unsigned(s@, max as nat) is None,
{
    let start: usize = if s.len() > 0 && s[0] == 0x2Bu8 {
        1
    } else {
        0
    };
    proof {
        if s@.len() > 0 && s@[0] == 0x2Bu8 {
            assert(s@.drop_first() =~= s@.subrange(1, s@.len() as int));
        } else {
            assert(s@ =~= s@.subrange(0, s@.len() as int));
        }
    }
    read_digits(s, start, max)
}

/// Reads a `u64` from text as `str::parse::<u64>` does.
pub fn parse_u64(s: &str) -> (r: Option<u64>)
    ensures
        r matches Some(v) ==> parse_unsigned(s.spec_bytes(), u64::MAX as nat) == Some(v as nat),
        r is None ==> parse_unsigned(s.spec_bytes(), u64::MAX as nat) is None,
{
    parse_unsigned_exec(s.as_bytes(), u64::MAX)
}

/// Reads a `usize` from text as `str::parse::<usize>` does.
pub fn parse_usize(s: &str) -> (r: Option<usize>)
    ensures
        r matches Some(v) ==> parse_unsigned(s.spec_bytes(), usize::MAX as nat) == Some(v as nat),
        r is None ==> parse_unsigned(s.spec_bytes(), usize::MAX as nat) is None,
{
    match parse_unsigned_exec(s.as_bytes(), usize::MAX as u64) {
        Some(v) => Some(v as usize),
        None => None,
    }
}

/// Reads a `u32` from bytes as `str::parse::<u32>` does.
pub fn parse_u32_bytes(s: &[u8]) -> (r: Option<u32>)
    ensures
        r matches Some(v) ==> parse_unsigned(s@, u32::MAX as nat) == Some(v as nat),
        r is None ==> parse_unsigned(s@, u32::MAX as nat) is None,
{
    match parse_unsigned_exec(s, u32::MAX as u64) {
        Some(v) => Some(v as u32),
        None => None,
    }
}

/// Reads an `i32` from bytes as `str::parse::<i32>` does.
pub fn parse_i32_bytes(s: &[u8]) -> (r: Option<i32>)
    ensures
        r matches Some(v) ==> parse_i32(s@) == Some(v as int),
        r is None ==> parse_i32(s@) is None,
{
    if s.len() > 0 && s[0] == 0x2Du8 {
        let m = read_digits(s, 1, 0x8000_0000);
        proof {
            assert(s@.drop_first() =~= s@.subrange(1, s@.len() as int));
        }
        match m {
            Some(v) => {
                if v == 0x8000_0000 {
                    Some(i32::MIN)
                } else {
                    Some(-(v as i32))
                }
            },
            None => None,
        }
    } else {
        match parse_unsigned_exec(s, 0x7FFF_FFFF) {
            Some(v) => Some(v as i32),
            None => None,
        }
    }
}

/// Reads an `i64` from bytes as `str::parse::<i64>` does.
pub fn parse_i64_bytes(s: &[u8]) -> (r: Option<i64>)
    ensures
        r matches Some(v) ==> parse_i64(s@) == Some(v as int),
        r is None ==> parse_i64(s@) is None,
{
    if s.len() > 0 && s[0] == 0x2Du8 {
        let m = read_digits(s, 1, 0x8000_0000_0000_0000);
        proof {
            assert(s@.drop_first() =~= s@.subrange(1, s@.len() as int));
        }
        match m {
            Some(v) => {
                if v == 0x8000_0000_0000_0000 {
                    Some(i64::MIN)
                } else {
                    Some(-(v as i64))
                }
            },
            None => None,
        }
    } else {
        match parse_unsigned_exec(s, 0x7FFF_FFFF_FFFF_FFFF) {
            Some(v) => Some(v as i64),
            None => None,
        }
    }
}

} // verus!
