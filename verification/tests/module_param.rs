use kernel::param::{from_str, from_str_unsigned, parse_bool_param, permissions_are_readonly};
use kernel::param::ModuleParam;

#[test]
fn unsigned_parses_every_radix_prefix() {
    assert_eq!(from_str_unsigned(b"123").unwrap(), 123);
    assert_eq!(from_str_unsigned(b"0x1f").unwrap(), 31);
    assert_eq!(from_str_unsigned(b"0X1F").unwrap(), 31);
    assert_eq!(from_str_unsigned(b"0o17").unwrap(), 15);
    assert_eq!(from_str_unsigned(b"0O17").unwrap(), 15);
    assert_eq!(from_str_unsigned(b"0b101").unwrap(), 5);
    assert_eq!(from_str_unsigned(b"0B101").unwrap(), 5);
    // A bare leading zero selects octal, the zero itself included.
    assert_eq!(from_str_unsigned(b"017").unwrap(), 15);
    assert_eq!(from_str_unsigned(b"0").unwrap(), 0);
}

#[test]
fn unsigned_rejects_bad_spellings() {
    assert!(from_str_unsigned(b"").is_err());
    assert!(from_str_unsigned(b"12a").is_err());
    assert!(from_str_unsigned(b"08").is_err());
    assert!(from_str_unsigned(b"0x").is_err());
    assert!(from_str_unsigned(b"0b2").is_err());
}

#[test]
fn unsigned_handles_the_64_bit_boundary() {
    assert_eq!(from_str_unsigned(b"18446744073709551615").unwrap(), u64::MAX);
    assert!(from_str_unsigned(b"18446744073709551616").is_err());
    assert_eq!(from_str_unsigned(b"0xffffffffffffffff").unwrap(), u64::MAX);
    assert!(from_str_unsigned(b"0x10000000000000000").is_err());
}

#[test]
fn signed_spellings_keep_the_kernel_rules() {
    assert_eq!(from_str(b"+5"), Some(5));
    assert_eq!(from_str(b"7"), Some(7));
    // Negating an unsigned value only works out for zero.
    assert_eq!(from_str(b"-0"), Some(0));
    assert_eq!(from_str(b"-5"), None);
    assert_eq!(from_str(b""), None);
}

#[test]
fn bool_param_accepts_the_documented_spellings() {
    assert_eq!(parse_bool_param(None), Some(true));
    assert_eq!(parse_bool_param(Some(b"y")), Some(true));
    assert_eq!(parse_bool_param(Some(b"Y")), Some(true));
    assert_eq!(parse_bool_param(Some(b"1")), Some(true));
    assert_eq!(parse_bool_param(Some(b"true")), Some(true));
    assert_eq!(parse_bool_param(Some(b"n")), Some(false));
    assert_eq!(parse_bool_param(Some(b"N")), Some(false));
    assert_eq!(parse_bool_param(Some(b"0")), Some(false));
    assert_eq!(parse_bool_param(Some(b"false")), Some(false));
    assert_eq!(parse_bool_param(Some(b"yes")), None);
    assert_eq!(bool::try_from_param_arg(None), Some(true));
    assert_eq!(bool::try_from_param_arg(Some(b"false")), Some(false));
}

#[test]
fn u64_param_parses_through_the_trait() {
    assert_eq!(u64::try_from_param_arg(Some(b"0x10")), Some(16));
    assert_eq!(u64::try_from_param_arg(Some(b"-1")), None);
    assert_eq!(u64::try_from_param_arg(None), None);
}

#[test]
fn readonly_permissions_have_no_write_bits() {
    assert!(permissions_are_readonly(b"0"));
    assert!(permissions_are_readonly(b"0o444"));
    assert!(permissions_are_readonly(b"0x124"));
    assert!(!permissions_are_readonly(b"0o644"));
    assert!(!permissions_are_readonly(b"0o222"));
    assert!(!permissions_are_readonly(b"644"));
    // A spelling that does not parse rates as writable.
    assert!(!permissions_are_readonly(b"abc"));
    assert!(!permissions_are_readonly(b"0x"));
}
