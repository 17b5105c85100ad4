use nbt_edit::tag::{TagID, TagPayload};
use nbt_edit::text::{parse_i64, str_eq, to_id};
use nbt_edit::translate::{get_ext, Format};

#[test]
fn parse_byte_in_range() {
    assert_eq!(TagID::Byte.parse("100"), Some(TagPayload::Byte(100)));
}

#[test]
fn parse_byte_overflow_is_none() {
    // 200 exceeds the signed 8-bit range.
    assert_eq!(TagID::Byte.parse("200"), None);
    assert_eq!(TagID::Byte.parse("-129"), None);
    assert_eq!(TagID::Byte.parse("-128"), Some(TagPayload::Byte(-128)));
}

#[test]
fn parse_other_integer_kinds() {
    assert_eq!(TagID::Short.parse("-32768"), Some(TagPayload::Short(-32768)));
    assert_eq!(TagID::Short.parse("32768"), None);
    assert_eq!(TagID::Int.parse("+2147483647"), Some(TagPayload::Int(2147483647)));
    assert_eq!(TagID::Int.parse("2147483648"), None);
    assert_eq!(TagID::Long.parse("9223372036854775807"), Some(TagPayload::Long(i64::MAX)));
    assert_eq!(TagID::Long.parse("-9223372036854775808"), Some(TagPayload::Long(i64::MIN)));
    assert_eq!(TagID::Long.parse("9223372036854775808"), None);
}

#[test]
fn parse_rejects_malformed_integers() {
    assert_eq!(TagID::Int.parse(""), None);
    assert_eq!(TagID::Int.parse("-"), None);
    assert_eq!(TagID::Int.parse("12a"), None);
    assert_eq!(TagID::Int.parse(" 12"), None);
    assert_eq!(TagID::Int.parse("1.5"), None);
}

#[test]
fn parse_string_with_escape() {
    assert_eq!(
        TagID::String.parse("\"ab\\nc\""),
        Some(TagPayload::String("ab\nc".to_string()))
    );
}

#[test]
fn parse_string_all_escapes() {
    assert_eq!(
        TagID::String.parse("\"\\t\\r\\0\\\\\\\"\""),
        Some(TagPayload::String("\t\r\0\\\"".to_string()))
    );
}

#[test]
fn parse_string_rejects_bad_literals() {
    // No opening quote.
    assert_eq!(TagID::String.parse("ab"), None);
    // Unterminated.
    assert_eq!(TagID::String.parse("\"ab"), None);
    // The closing quote must be the last character.
    assert_eq!(TagID::String.parse("\"ab\"c"), None);
    // Unknown escape.
    assert_eq!(TagID::String.parse("\"a\\qb\""), None);
    // Trailing lone backslash.
    assert_eq!(TagID::String.parse("\"a\\"), None);
}

#[test]
fn parse_containers_and_decimals_yield_none() {
    assert_eq!(TagID::Compound.parse("{}"), None);
    assert_eq!(TagID::List.parse("[]"), None);
    assert_eq!(TagID::ByteArray.parse("[B;]"), None);
    assert_eq!(TagID::End.parse(""), None);
    // Fractional kinds are parsed by the embedding application.
    assert_eq!(TagID::Float.parse("1.5"), None);
    assert_eq!(TagID::Double.parse("1.5"), None);
}

#[test]
fn parse_i64_plain() {
    assert_eq!(parse_i64("0"), Some(0));
    assert_eq!(parse_i64("-0"), Some(0));
    assert_eq!(parse_i64("42"), Some(42));
    assert_eq!(parse_i64("123456789123456789123456789"), None);
}

#[test]
fn to_id_names() {
    assert_eq!(to_id("Byte"), Some(TagID::Byte));
    assert_eq!(to_id("Short"), Some(TagID::Short));
    assert_eq!(to_id("Int"), Some(TagID::Int));
    assert_eq!(to_id("Long"), Some(TagID::Long));
    assert_eq!(to_id("Float"), Some(TagID::Float));
    assert_eq!(to_id("Double"), Some(TagID::Double));
    assert_eq!(to_id("String"), Some(TagID::String));
    assert_eq!(to_id("Compound"), None);
    assert_eq!(to_id("byte"), None);
}

#[test]
fn str_eq_compares_text() {
    assert!(str_eq("héllo", "héllo"));
    assert!(!str_eq("héllo", "hello"));
    assert!(!str_eq("a", "ab"));
}

#[test]
fn json_extension() {
    assert_eq!(get_ext(&Format::Json), "json");
}
