use aeterno::text::{
    join_from, parse_signed, parse_unsigned, push_decimal, push_signed, split_fields, split_words,
};

#[test]
fn words_of_a_line() {
    assert_eq!(
        split_words(b" a\tbc \r\n d"),
        vec![b"a".to_vec(), b"bc".to_vec(), b"d".to_vec()]
    );
    assert!(split_words(b"   ").is_empty());
    let ws = split_words(b"x  y z");
    assert_eq!(join_from(&ws, 0), b"x y z".to_vec());
    assert_eq!(join_from(&ws, 2), b"z".to_vec());
    assert_eq!(join_from(&ws, 3), Vec::<u8>::new());
}

#[test]
fn fields_keep_empty_pieces() {
    assert_eq!(
        split_fields(b"a..b ", b". "),
        vec![b"a".to_vec(), vec![], b"b".to_vec(), vec![]]
    );
    assert_eq!(split_fields(b"", b"."), vec![Vec::<u8>::new()]);
}

#[test]
fn decimals() {
    let mut out = Vec::new();
    push_decimal(&mut out, 0);
    push_decimal(&mut out, 1907);
    push_decimal(&mut out, u64::MAX);
    assert_eq!(out, b"0190718446744073709551615".to_vec());
    let mut s = Vec::new();
    push_signed(&mut s, i64::MIN);
    assert_eq!(s, b"-9223372036854775808".to_vec());
}

#[test]
fn number_parsing() {
    assert_eq!(parse_unsigned(b"18446744073709551615"), Some(u64::MAX));
    assert_eq!(parse_unsigned(b"18446744073709551616"), None);
    assert_eq!(parse_unsigned(b"+5"), Some(5));
    assert_eq!(parse_unsigned(b"-5"), None);
    assert_eq!(parse_unsigned(b"5a"), None);
    assert_eq!(parse_signed(b"-9223372036854775808"), Some(i64::MIN));
    assert_eq!(parse_signed(b"-9223372036854775809"), None);
    assert_eq!(parse_signed(b"9223372036854775807"), Some(i64::MAX));
    assert_eq!(parse_signed(b"-"), None);
    assert_eq!(parse_signed(b"+-1"), None);
}
