//! Parsing of module-parameter values.
//!
//! Numbers arrive as byte strings: `0x`, `0o` and `0b` prefixes select hex,
//! octal or binary, a bare leading `0` selects octal, anything else is
//! decimal, as the kernel's own string-to-number helpers have it.

use vstd::prelude::*;

use vstd::slice::slice_subrange;

use crate::error::{Error, EINVAL};

verus! {

/// The numeric value of an ASCII digit: `0`-`9`, `a`-`f` and `A`-`F` rate
/// their usual values, anything else rates 16, below no radix in use.
pub open spec fn digit_val(c: u8) -> int {
    if 48 <= c <= 57 {
        c - 48
    } else if 97 <= c <= 102 {
        c - 87
    } else if 65 <= c <= 70 {
        c - 55
    } else {
        16
    }
}

/// A non-empty run of digits, each valid under `radix`.
pub open spec fn valid_digits(s: Seq<u8>, radix: int) -> bool {
    s.len() > 0 && forall|i: int| 0 <= i < s.len() ==> digit_val(#[trigger] s[i]) < radix
}

/// The number that the digit run `s` names under `radix`.
pub open spec fn radix_val(s: Seq<u8>, radix: int) -> int
    decreases s.len(),
{
    if s.len() == 0 {
        0
    } else {
        radix_val(s.drop_last(), radix) * radix + digit_val(s.last())
    }
}

proof fn lemma_radix_val_nonneg(s: Seq<u8>, radix: int)
    requires
        radix >= 2,
    ensures
        radix_val(s, radix) >= 0,
    decreases s.len(),
{
    if s.len() > 0 {
        lemma_radix_val_nonneg(s.drop_last(), radix);
        assert(radix_val(s.drop_last(), radix) * radix >= 0) by (nonlinear_arith)
            requires
                radix_val(s.drop_last(), radix) >= 0,
                radix >= 2,
        ;
    }
}

/// A digit run names at least what any of its prefixes names: appending
/// digits never shrinks the value.
proof fn lemma_radix_val_prefix_le(s: Seq<u8>, m: int, radix: int)
    requires
        radix >= 2,
        0 <= m <= s.len(),
    ensures
        radix_val(s.take(m), radix) <= radix_val(s, radix),
    decreases s.len() - m,
{
    if m < s.len() {
        let t = s.take(m + 1);
        assert(t.drop_last() =~= s.take(m));
        lemma_radix_val_nonneg(s.take(m), radix);
        assert(radix_val(s.take(m), radix) * radix >= radix_val(s.take(m), radix))
            by (nonlinear_arith)
            requires
                radix_val(s.take(m), radix) >= 0,
                radix >= 2,
        ;
        assert(radix_val(t, radix) >= radix_val(s.take(m), radix));
        lemma_radix_val_prefix_le(s, m + 1, radix);
    } else {
        assert(s.take(m) =~= s);
    }
}

/// The numeric value of an ASCII digit, with 16 for a non-digit.
fn digit_value(c: u8) -> (r: u8)
    ensures
        r as int == digit_val(c),
{
    if 48 <= c && c <= 57 {
        c - 48
    } else if 97 <= c && c <= 102 {
        c - 87
    } else if 65 <= c && c <= 70 {
        c - 55
    } else {
        16
    }
}

/// Parses a digit run under `radix`.  Fails exactly when the run is empty,
/// holds a byte that is no digit of `radix`, or names a number above
/// `u64::MAX`.
pub fn parse_radix_u64(digits: &[u8], radix: u32) -> (r: Result<u64, Error>)
    requires
        2 <= radix <= 16,
    ensures
        r is Ok <==> valid_digits(digits@, radix as int) && radix_val(digits@, radix as int)
            <= u64::MAX,
        r matches Ok(v) ==> v as int == radix_val(digits@, radix as int),
{
    let ghost s = digits@;
    let ghost rdx = radix as int;
    if digits.len() == 0 {
        return Err(Error::from_errno_positive(EINVAL));
    }
    let mut acc: u64 = 0;
    let mut i: usize = 0;
    while i < digits.len()
        invariant
            0 <= i <= s.len(),
            s.len() > 0,
            s == digits@,
            2 <= radix <= 16,
            rdx == radix as int,
            forall|j: int| 0 <= j < i ==> digit_val(#[trigger] s[j]) < rdx,
            acc as int == radix_val(s.take(i as int), rdx),
        decreases s.len() - i,
    {
        let d = digit_value(digits[i]);
        if d as u32 >= radix {
            proof {
                assert(!valid_digits(s, rdx));
            }
            return Err(Error::from_errno_positive(EINVAL));
        }
        proof {
            assert(acc as int * rdx + d <= u64::MAX as int * 16 + 15) by (nonlinear_arith)
                requires
                    acc as int <= u64::MAX as int,
                    2 <= rdx <= 16,
                    0 <= d < 16,
            ;
            assert(s.take(i + 1).drop_last() =~= s.take(i as int));
            assert(s.take(i + 1).last() == s[i as int]);
        }
        let wide: u128 = acc as u128 * radix as u128 + d as u128;
        if wide > u64::MAX as u128 {
            proof {
                lemma_radix_val_prefix_le(s, i + 1, rdx);
            }
            return Err(Error::from_errno_positive(EINVAL));
        }
        acc = wide as u64;
        i = i + 1;
    }
    proof {
        assert(s.take(s.len() as int) =~= s);
    }
    Ok(acc)
}

/// Where the digit run of an unsigned number starts: after a two-byte
/// `0x`/`0X`, `0o`/`0O` or `0b`/`0B` prefix, else at the front.
pub open spec fn unsigned_digits_start(s: Seq<u8>) -> int {
    if s.len() >= 2 && s[0] == 48 && (s[1] == 120 || s[1] == 88 || s[1] == 111 || s[1] == 79
        || s[1] == 98 || s[1] == 66) {
        2
    } else {
        0
    }
}

/// The radix an unsigned number's spelling selects: 16 after `0x`, 8 after
/// `0o`, 2 after `0b`, in either case; 8 after a bare leading `0`; else 10.
pub open spec fn unsigned_radix(s: Seq<u8>) -> int {
    if s.len() >= 2 && s[0] == 48 && (s[1] == 120 || s[1] == 88) {
        16
    } else if s.len() >= 2 && s[0] == 48 && (s[1] == 111 || s[1] == 79) {
        8
    } else if s.len() >= 2 && s[0] == 48 && (s[1] == 98 || s[1] == 66) {
        2
    } else if s.len() >= 1 && s[0] == 48 {
        8
    } else {
        10
    }
}

/// Parses an unsigned number, radix chosen by its spelling.  Fails exactly
/// when the digit run after the radix prefix is empty or invalid under the
/// selected radix, or names a number above `u64::MAX`.
pub fn from_str_unsigned(src: &[u8]) -> (r: Result<u64, Error>)
    ensures
        r is Ok <==> valid_digits(src@.skip(unsigned_digits_start(src@)), unsigned_radix(src@))
            && radix_val(src@.skip(unsigned_digits_start(src@)), unsigned_radix(src@))
            <= u64::MAX,
        r matches Ok(v) ==> v as int == radix_val(
            src@.skip(unsigned_digits_start(src@)),
            unsigned_radix(src@),
        ),
{
    let prefixed: bool = src.len() >= 2 && src[0] == 48 && (src[1] == 120 || src[1] == 88
        || src[1] == 111 || src[1] == 79 || src[1] == 98 || src[1] == 66);
    let radix: u32 = if src.len() >= 2 && src[0] == 48 && (src[1] == 120 || src[1] == 88) {
        16
    } else if src.len() >= 2 && src[0] == 48 && (src[1] == 111 || src[1] == 79) {
        8
    } else if src.len() >= 2 && src[0] == 48 && (src[1] == 98 || src[1] == 66) {
        2
    } else if src.len() >= 1 && src[0] == 48 {
        8
    } else {
        10
    };
    let digits: &[u8] = if prefixed {
        slice_subrange(src, 2, src.len())
    } else {
        src
    };
    proof {
        assert(digits@ =~= src@.skip(unsigned_digits_start(src@)));
    }
    parse_radix_u64(digits, radix)
}

/// Parses a number with an optional sign.  A leading `+` is allowed; a
/// leading `-` is accepted only before a spelling of zero, since the value
/// parsed is unsigned.  Returns nothing where the parse fails.
pub fn from_str(src: &[u8]) -> (r: Option<u64>)
    ensures
        src@.len() == 0 ==> r is None,
        src@.len() > 0 && src@[0] == 43 ==> r == spec_unsigned_result(src@.skip(1)),
        src@.len() > 0 && src@[0] == 45 ==> r == (match spec_unsigned_result(src@.skip(1)) {
            Some(v) => if v == 0 {
                Some(0u64)
            } else {
                None
            },
            None => None,
        }),
        src@.len() > 0 && src@[0] != 43 && src@[0] != 45 ==> r == spec_unsigned_result(src@),
{
    if src.len() == 0 {
        return None;
    }
    let c = src[0];
    if c == 43 {
        let rest = slice_subrange(src, 1, src.len());
        proof {
            assert(rest@ =~= src@.skip(1));
        }
        match from_str_unsigned(rest) {
            Ok(v) => Some(v),
            Err(_) => None,
        }
    } else if c == 45 {
        let rest = slice_subrange(src, 1, src.len());
        proof {
            assert(rest@ =~= src@.skip(1));
        }
        match from_str_unsigned(rest) {
            Ok(v) => {
                if v == 0 {
                    Some(0)
                } else {
                    None
                }
            },
            Err(_) => None,
        }
    } else {
        match from_str_unsigned(src) {
            Ok(v) => Some(v),
            Err(_) => None,
        }
    }
}

/// What `from_str_unsigned` returns, as a value: the parsed number, or
/// nothing where it fails.
pub open spec fn spec_unsigned_result(s: Seq<u8>) -> Option<u64> {
    if valid_digits(s.skip(unsigned_digits_start(s)), unsigned_radix(s)) && radix_val(
        s.skip(unsigned_digits_start(s)),
        unsigned_radix(s),
    ) <= u64::MAX {
        Some(radix_val(s.skip(unsigned_digits_start(s)), unsigned_radix(s)) as u64)
    } else {
        None
    }
}

/// How types read from a module-parameter argument.  `None` stands for a
/// parameter passed without an argument, which only some types accept.
pub trait ModuleParam: Sized {
    /// Converts a parameter argument into the parameter value; `None` where
    /// parsing fails.
    fn try_from_param_arg(arg: Option<&[u8]>) -> Option<Self>;
}

impl ModuleParam for u64 {
    fn try_from_param_arg(arg: Option<&[u8]>) -> Option<u64> {
        match arg {
            None => None,
            Some(bytes) => from_str(bytes),
        }
    }
}

/// The spellings that switch a boolean parameter on: `y`, `Y`, `1` and
/// `true`.
pub open spec fn spells_on(s: Seq<u8>) -> bool {
    ||| (s.len() == 1 && (s[0] == 121 || s[0] == 89 || s[0] == 49))
    ||| (s.len() == 4 && s[0] == 116 && s[1] == 114 && s[2] == 117 && s[3] == 101)
}

/// The spellings that switch a boolean parameter off: `n`, `N`, `0` and
/// `false`.
pub open spec fn spells_off(s: Seq<u8>) -> bool {
    ||| (s.len() == 1 && (s[0] == 110 || s[0] == 78 || s[0] == 48))
    ||| (s.len() == 5 && s[0] == 102 && s[1] == 97 && s[2] == 108 && s[3] == 115 && s[4] == 101)
}

/// What a boolean module parameter reads: given without an argument it is
/// switched on; `y`, `Y`, `1` and `true` switch it on, `n`, `N`, `0` and
/// `false` switch it off, anything else fails.
pub open spec fn spec_parse_bool(arg: Option<Seq<u8>>) -> Option<bool> {
    match arg {
        None => Some(true),
        Some(s) => if spells_on(s) {
            Some(true)
        } else if spells_off(s) {
            Some(false)
        } else {
            None
        },
    }
}

/// Reads a boolean module parameter, as [`spec_parse_bool`] has it.
pub fn parse_bool_param(arg: Option<&[u8]>) -> (r: Option<bool>)
    ensures
        r == spec_parse_bool(match arg {
            None => None,
            Some(s) => Some(s@),
        }),
{
    let bytes = match arg {
        None => {
            return Some(true);
        },
        Some(b) => b,
    };
    let n = bytes.len();
    if n == 1 && (bytes[0] == 121 || bytes[0] == 89 || bytes[0] == 49) {
        Some(true)
    } else if n == 4 && bytes[0] == 116 && bytes[1] == 114 && bytes[2] == 117 && bytes[3] == 101 {
        Some(true)
    } else if n == 1 && (bytes[0] == 110 || bytes[0] == 78 || bytes[0] == 48) {
        Some(false)
    } else if n == 5 && bytes[0] == 102 && bytes[1] == 97 && bytes[2] == 108 && bytes[3] == 115
        && bytes[4] == 101 {
        Some(false)
    } else {
        None
    }
}

impl ModuleParam for bool {
    fn try_from_param_arg(arg: Option<&[u8]>) -> Option<bool> {
        parse_bool_param(arg)
    }
}

/// Where a permissions spelling's digit run starts: after a two-byte
/// lower-case `0x`, `0o` or `0b` prefix, else at the front.
pub open spec fn perms_digits_start(s: Seq<u8>) -> int {
    if s.len() >= 2 && s[0] == 48 && (s[1] == 120 || s[1] == 111 || s[1] == 98) {
        2
    } else {
        0
    }
}

/// The radix a permissions spelling selects: 16 after `0x`, 8 after `0o`,
/// 2 after `0b`, else 10.
pub open spec fn perms_radix(s: Seq<u8>) -> int {
    if s.len() >= 2 && s[0] == 48 && s[1] == 120 {
        16
    } else if s.len() >= 2 && s[0] == 48 && s[1] == 111 {
        8
    } else if s.len() >= 2 && s[0] == 48 && s[1] == 98 {
        2
    } else {
        10
    }
}

/// Whether a permissions spelling parses and has every write bit clear.
pub open spec fn spec_permissions_are_readonly(s: Seq<u8>) -> bool {
    &&& valid_digits(s.skip(perms_digits_start(s)), perms_radix(s))
    &&& radix_val(s.skip(perms_digits_start(s)), perms_radix(s)) <= u32::MAX
    &&& (radix_val(s.skip(perms_digits_start(s)), perms_radix(s)) as u32) & 0o222 == 0
}

/// Whether the permissions spelling names a mode nobody may write under:
/// it parses as a number, and all three write bits are clear.  A spelling
/// that does not parse rates as writable, erring on the safe side.
pub fn permissions_are_readonly(perms: &[u8]) -> (r: bool)
    ensures
        r == spec_permissions_are_readonly(perms@),
{
    let prefixed: bool = perms.len() >= 2 && perms[0] == 48 && (perms[1] == 120 || perms[1]
        == 111 || perms[1] == 98);
    let radix: u32 = if perms.len() >= 2 && perms[0] == 48 && perms[1] == 120 {
        16
    } else if perms.len() >= 2 && perms[0] == 48 && perms[1] == 111 {
        8
    } else if perms.len() >= 2 && perms[0] == 48 && perms[1] == 98 {
        2
    } else {
        10
    };
    let digits: &[u8] = if prefixed {
        slice_subrange(perms, 2, perms.len())
    } else {
        perms
    };
    proof {
        assert(digits@ =~= perms@.skip(perms_digits_start(perms@)));
    }
    match parse_radix_u64(digits, radix) {
        Ok(v) => {
            if v <= u32::MAX as u64 {
                (v as u32) & 0o222 == 0
            } else {
                false
            }
        },
        Err(_) => false,
    }
}

} // verus!
