use unltd_inference::budget::{parse_size, MemoryAccounting, ParseSizeError};
const G: u64 = 1024 * 1024 * 1024;
const M: u64 = 1024 * 1024;

#[test]
fn parses_short_suffixes() {
    assert_eq!(parse_size("4G"), Ok(4 * G));
    assert_eq!(parse_size("2G"), Ok(2 * G));
    assert_eq!(parse_size("1G"), Ok(G));
    assert_eq!(parse_size("8G"), Ok(8 * G));
    assert_eq!(parse_size("512M"), Ok(512 * M));
}

#[test]
fn parses_long_suffixes() {
    assert_eq!(parse_size("4GB"), Ok(4 * G));
    assert_eq!(parse_size("512MB"), Ok(512 * M));
    assert_eq!(parse_size("1KB"), Ok(1024));
    assert_eq!(parse_size("1K"), Ok(1024));
}

#[test]
fn parses_case_insensitive_and_trim() {
    assert_eq!(parse_size("4g"), Ok(4 * G));
    assert_eq!(parse_size("512mb"), Ok(512 * M));
    assert_eq!(parse_size(" 4G "), Ok(4 * G));
}

#[test]
fn parses_raw_bytes() {
    assert_eq!(parse_size("536870912"), Ok(512 * M));
    assert_eq!(parse_size("1"), Ok(1));
    assert_eq!(parse_size("18446744073709551615"), Ok(u64::MAX));
}

#[test]
fn rejects_empty_and_zero() {
    assert_eq!(parse_size(""), Err(ParseSizeError::Empty));
    assert_eq!(parse_size("   "), Err(ParseSizeError::Empty));
    assert_eq!(parse_size("0"), Err(ParseSizeError::Zero));
    assert_eq!(parse_size("0G"), Err(ParseSizeError::Zero));
    assert_eq!(parse_size("000"), Err(ParseSizeError::Zero));
}

#[test]
fn rejects_unknown_suffix() {
    assert_eq!(
        parse_size("4X"),
        Err(ParseSizeError::UnknownSuffix("X".into()))
    );
    assert_eq!(
        parse_size("512BLAH"),
        Err(ParseSizeError::UnknownSuffix("BLAH".into()))
    );
    assert_eq!(
        parse_size("foo"),
        Err(ParseSizeError::UnknownSuffix("foo".into()))
    );
}

#[test]
fn rejects_not_a_number() {
    assert_eq!(parse_size("1.5G"), Err(ParseSizeError::NotANumber));
    assert_eq!(parse_size("-4G"), Err(ParseSizeError::NotANumber));
    assert_eq!(parse_size("5GB9"), Err(ParseSizeError::NotANumber));
    assert_eq!(parse_size("4G5M"), Err(ParseSizeError::NotANumber));
}

#[test]
fn rejects_overflow() {
    assert_eq!(
        parse_size("18446744073709551615G"),
        Err(ParseSizeError::Overflow)
    );
    assert_eq!(
        parse_size("99999999999999999999999G"),
        Err(ParseSizeError::Overflow)
    );
}

#[test]
fn accounting_sums_and_releases() {
    let mut a = MemoryAccounting::new(4 * G, 0);
    assert_eq!(a.used_controlled_bytes(), 0);
    assert_eq!(a.available_budget(), 4 * G);
    assert!(a.budget_respected());

    a.kv_cache_bytes = 1 * M;
    a.scratch_bytes = 5 * M;
    a.runtime_bytes = 30 * M;
    assert_eq!(a.used_controlled_bytes(), 36 * M);
    assert_eq!(a.available_budget(), 4 * G - 36 * M);
    assert!(a.budget_respected());

    a.scratch_bytes = 0;
    assert_eq!(a.used_controlled_bytes(), 31 * M);
}

#[test]
fn accounting_exact_limit_is_respected() {
    let mut a = MemoryAccounting::new(10 * M, 10 * M);
    a.kv_cache_bytes = 10 * M;
    assert_eq!(a.used_controlled_bytes(), 10 * M);
    assert_eq!(a.available_budget(), 0);
    assert!(a.budget_respected());
}

#[test]
fn accounting_exceeded_is_not_respected() {
    let mut a = MemoryAccounting::new(10 * M, 0);
    a.kv_cache_bytes = 11 * M;
    assert_eq!(a.available_budget(), 0);
    assert!(!a.budget_respected());
}

#[test]
fn accounting_mandatory_over_budget_is_not_respected() {
    let a = MemoryAccounting::new(512 * M, 734 * M);
    assert_eq!(a.used_controlled_bytes(), 0);
    assert!(!a.budget_respected());
}

#[test]
fn accounting_overflow_saturates() {
    let mut a = MemoryAccounting::new(u64::MAX, 0);
    a.kv_cache_bytes = u64::MAX;
    a.scratch_bytes = u64::MAX;
    assert_eq!(a.used_controlled_bytes(), u64::MAX);
    assert_eq!(a.available_budget(), 0);
}
