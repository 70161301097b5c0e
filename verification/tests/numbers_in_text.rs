use korrektor::engine::Korrektor;
use korrektor::error::KorrektorError;
use korrektor::uzbek::number::helper::{
    convert_floats, convert_integers, convert_unguarded, numeral_guard_is_ready, wrap_ips,
    wrap_phones,
};
use korrektor::uzbek::number::{all_numbers_to_word, numbers_to_word};

#[test]
fn wrap_ips_test() {
    let input = "12 124.34.5.234 12.3 2001:db8:3c4d:0015:0000:0000:1a2f:1a2b hello 2001:db8:3c4d:15::";
    let expected = "12 〈124.34.5.234〉 12.3 〈2001:db8:3c4d:0015:0000:0000:1a2f:1a2b〉 hello 〈2001:db8:3c4d:15::〉";

    assert_eq!(wrap_ips(input), expected.to_string());
}

#[test]
fn wrap_phones_test() {
    let input = "salom +998936523602 325 12.3 daraxt 998712345689 71234 336519087";
    let expected = "salom +〈998936523602〉 325 12.3 daraxt 〈998712345689〉 71234 336519087";

    assert_eq!(wrap_phones(input), expected.to_string());
}

#[test]
fn convert_floats_test() {
    assert_eq!(
        convert_floats("12 12.5 13.1 5").unwrap(),
        "12 o‘n ikki butun o‘ndan besh o‘n uch butun o‘ndan bir 5".to_string()
    );
}

#[test]
fn all_numbers_test() {
    let input = "12, 998336523409 12.5 1024 124.34.5.234 2001:db8:3c4d:0015:0000:0000:1a2f:1a2b 12.5 1024";
    let expected = "o‘n ikki, 998336523409 o‘n ikki butun o‘ndan besh bir ming yigirma to‘rt 124.34.5.234 2001:db8:3c4d:0015:0000:0000:1a2f:1a2b o‘n ikki butun o‘ndan besh bir ming yigirma to‘rt";

    assert_eq!(numbers_to_word(input).unwrap(), expected.to_string());
}

#[test]
fn mod_all_numbers_test() {
    let input = "12 998336523409 12.5 1024 124.34.5.234 2001:db8:3c4d:0015:0000:0000:1a2f:1a2b";
    let expected = "o‘n ikki 998336523409 o‘n ikki butun o‘ndan besh bir ming yigirma to‘rt 124.34.5.234 2001:db8:3c4d:0015:0000:0000:1a2f:1a2b";

    assert_eq!(all_numbers_to_word(input).unwrap(), expected.to_string());
}

#[test]
fn numbers_doc_example() {
    assert_eq!(
        numbers_to_word("12, salom 998336523409 12.5 daraxt 1024 124.34.5.234").unwrap(),
        "o‘n ikki, salom 998336523409 o‘n ikki butun o‘ndan besh daraxt bir ming yigirma to‘rt 124.34.5.234"
    );
}

#[test]
fn guarded_numerals_stay_as_they_are() {
    assert!(numeral_guard_is_ready());
    for text in [
        "124.34.5.234",
        "2001:db8:3c4d:0015:0000:0000:1a2f:1a2b",
        "2001:db8:3c4d:15::",
        "::ffff:192.168.1.17",
        "998336523409",
    ] {
        assert_eq!(numbers_to_word(text).unwrap(), text);
    }
    assert_eq!(
        convert_unguarded("〈127.0.0.1〉 va 7").unwrap(),
        "127.0.0.1 va yetti"
    );
    assert_eq!(convert_unguarded("〈〈1〉〉 2 〈3").unwrap(), "1 ikki 3");
    assert_eq!(convert_unguarded("〈1〈2〉3〉").unwrap(), "123");
    assert_eq!(convert_unguarded("〈1〈2〉3〉 4 〉5").unwrap(), "123 to‘rt besh");
    assert_eq!(convert_unguarded("1〈2〈3〉4〈5〉6〉7").unwrap(), "bir23456yetti");
}

#[test]
fn decimal_numerals_are_read_before_integers() {
    assert_eq!(
        convert_floats("1.2.3").unwrap(),
        "bir butun o‘ndan ikki.3"
    );
    assert_eq!(numbers_to_word("1.5 va 11.5").unwrap(),
        "bir butun o‘ndan besh va o‘n bir butun o‘ndan besh");
    assert_eq!(convert_floats("12. .5 a1.b").unwrap(), "12. .5 a1.b");
    assert_eq!(convert_integers("12. .5 a1.b").unwrap(), "o‘n ikki. .besh abir.b");
    assert_eq!(convert_integers("").unwrap(), "");
    assert_eq!(numbers_to_word("7 7").unwrap(), "yetti yetti");
}

#[test]
fn a_long_digit_run_fails_the_whole_conversion() {
    assert_eq!(
        numbers_to_word("5 va 1234567890123456789"),
        Err(KorrektorError::NumberOverflow(
            "1234567890123456789".to_string(),
            "Integer should not contain more than 18 digits".to_string()
        ))
    );
    assert_eq!(
        numbers_to_word("1234567890123456789 va 0.1234567890123456789"),
        Err(KorrektorError::NumberOverflow(
            "1234567890123456789".to_string(),
            "Precision part should not contain more than 18 digits".to_string()
        ))
    );
    assert_eq!(
        convert_floats("1234567890123456789.5"),
        Err(KorrektorError::NumberOverflow(
            "1234567890123456789".to_string(),
            "Integer should not contain more than 18 digits".to_string()
        ))
    );
}

#[test]
fn the_engine_speaks_numbers() {
    let engine = Korrektor::new().unwrap();
    assert_eq!(engine.numbers_to_word("3 olma").unwrap(), "uch olma");
}

#[test]
fn the_result_holds_no_mark() {
    assert_eq!(numbers_to_word("〈1〉 2 〉").unwrap(), "1 ikki ");
    assert_eq!(
        numbers_to_word("ip 124.34.5.234 〈 7").unwrap(),
        "ip 124.34.5.234  7"
    );
    for text in ["〈", "〉〈", "1 〈2〉 3.5", "998336523409 va 〈〈"] {
        let spoken = numbers_to_word(text).unwrap();
        assert!(!spoken.contains('〈') && !spoken.contains('〉'));
    }
}
