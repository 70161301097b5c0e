use korrektor::error::KorrektorError;
use korrektor::uzbek::number::{
    base, float_to_word, get_fraction_prefix, hundred, integer_to_word, is_valid_float,
    is_valid_integer, one,
};

#[test]
fn base_test() {
    assert_eq!(base(532, 2).unwrap(), String::from("besh yuz"));
}

#[test]
fn mod_base_test() {
    assert_eq!(base(532, 2).unwrap(), String::from("besh yuz"));
}

#[test]
fn one_test() {
    assert_eq!(one(532, 2).unwrap(), String::from("besh yuz o‘ttiz ikki"));
}

#[test]
fn mod_one_test() {
    assert_eq!(one(532, 2).unwrap(), String::from("besh yuz o‘ttiz ikki"));
}

#[test]
fn hundred_test() {
    assert_eq!(
        hundred(3456, 3).unwrap(),
        String::from("uch ming to‘rt yuz ellik olti")
    );
}

#[test]
fn mod_hundred_test() {
    assert_eq!(
        hundred(3456, 3).unwrap(),
        String::from("uch ming to‘rt yuz ellik olti")
    );
}

#[test]
fn cw_test() {
    assert_eq!(integer_to_word("0").unwrap(), String::from("nol"));
    assert_eq!(integer_to_word("9").unwrap(), String::from("to‘qqiz"));
    assert_eq!(integer_to_word("32").unwrap(), String::from("o‘ttiz ikki"));
    assert_eq!(integer_to_word("104").unwrap(), String::from("bir yuz to‘rt"));
    assert_eq!(
        integer_to_word("1024").unwrap(),
        String::from("bir ming yigirma to‘rt")
    );
    assert_eq!(
        integer_to_word("3456").unwrap(),
        String::from("uch ming to‘rt yuz ellik olti")
    );
}

#[test]
fn mod_cw_test() {
    assert_eq!(integer_to_word("0").unwrap(), String::from("nol"));
    assert_eq!(integer_to_word("9").unwrap(), String::from("to‘qqiz"));
    assert_eq!(integer_to_word("32").unwrap(), String::from("o‘ttiz ikki"));
    assert_eq!(integer_to_word("104").unwrap(), String::from("bir yuz to‘rt"));
    assert_eq!(
        integer_to_word("1024").unwrap(),
        String::from("bir ming yigirma to‘rt")
    );
    assert_eq!(
        integer_to_word("3456").unwrap(),
        String::from("uch ming to‘rt yuz ellik olti")
    );
}

#[test]
fn float_test() {
    assert_eq!(
        float_to_word("3.0").unwrap(),
        String::from("uch butun o‘ndan nol")
    );
    assert_eq!(
        float_to_word("3.75").unwrap(),
        String::from("uch butun yuzdan yetmish besh")
    );
    assert_eq!(
        float_to_word("3.754").unwrap(),
        String::from("uch butun mingdan yetti yuz ellik to‘rt")
    );
    assert_eq!(
        float_to_word("3.7548").unwrap(),
        String::from("uch butun o‘n mingdan yetti ming besh yuz qirq sakkiz")
    )
}

#[test]
fn mod_float_test() {
    assert_eq!(
        float_to_word("3.0").unwrap(),
        String::from("uch butun o‘ndan nol")
    );
    assert_eq!(
        float_to_word("3.75").unwrap(),
        String::from("uch butun yuzdan yetmish besh")
    );
    assert_eq!(
        float_to_word("3.754").unwrap(),
        String::from("uch butun mingdan yetti yuz ellik to‘rt")
    );
    assert_eq!(
        float_to_word("3.7548").unwrap(),
        String::from("uch butun o‘n mingdan yetti ming besh yuz qirq sakkiz")
    )
}

#[test]
fn float_doc_example() {
    assert_eq!(
        float_to_word("574.789").unwrap(),
        String::from("besh yuz yetmish to‘rt butun mingdan yetti yuz sakson to‘qqiz")
    );
}

#[test]
fn round_numbers_drop_the_zero_remainder() {
    assert_eq!(integer_to_word("20").unwrap(), "yigirma");
    assert_eq!(integer_to_word("100").unwrap(), "bir yuz");
    assert_eq!(integer_to_word("1000").unwrap(), "bir ming");
    assert_eq!(integer_to_word("1000000").unwrap(), "bir million");
    assert_eq!(integer_to_word("21000").unwrap(), "yigirma bir ming");
    assert_eq!(integer_to_word("100000").unwrap(), "bir yuz ming");
    assert_eq!(integer_to_word("1000001").unwrap(), "bir million bir");
}

#[test]
fn table_words() {
    let units = [
        "bir", "ikki", "uch", "to‘rt", "besh", "olti", "yetti", "sakkiz", "to‘qqiz", "o‘n",
        "o‘n bir", "o‘n ikki", "o‘n uch", "o‘n to‘rt", "o‘n besh", "o‘n olti", "o‘n yetti",
        "o‘n sakkiz", "o‘n to‘qqiz",
    ];
    for (i, word) in units.iter().enumerate() {
        assert_eq!(integer_to_word(&(i + 1).to_string()).unwrap(), *word);
    }
    let tens = [
        "yigirma", "o‘ttiz", "qirq", "ellik", "oltmish", "yetmish", "sakson", "to‘qson",
    ];
    for (i, word) in tens.iter().enumerate() {
        assert_eq!(integer_to_word(&((i + 2) * 10).to_string()).unwrap(), *word);
    }
}

#[test]
fn largest_integer() {
    assert_eq!(
        integer_to_word("999999999999999999").unwrap(),
        "to‘qqiz yuz to‘qson to‘qqiz kvadrillion to‘qqiz yuz to‘qson to‘qqiz trillion \
         to‘qqiz yuz to‘qson to‘qqiz milliard to‘qqiz yuz to‘qson to‘qqiz million \
         to‘qqiz yuz to‘qson to‘qqiz ming to‘qqiz yuz to‘qson to‘qqiz"
    );
    assert_eq!(integer_to_word("1000000000").unwrap(), "bir milliard");
    assert_eq!(integer_to_word("1000000000000").unwrap(), "bir trillion");
    assert_eq!(
        integer_to_word("1000000000000000").unwrap(),
        "bir kvadrillion"
    );
}

#[test]
fn leading_zeros_are_read_as_digits() {
    assert_eq!(integer_to_word("007").unwrap(), "yetti");
    assert_eq!(
        float_to_word("3.05").unwrap(),
        "uch butun yuzdan besh"
    );
}

#[test]
fn integer_errors() {
    assert_eq!(
        integer_to_word("12a"),
        Err(KorrektorError::InvalidNumber(
            "12a".to_string(),
            "Not a valid integer".to_string()
        ))
    );
    assert_eq!(
        integer_to_word(""),
        Err(KorrektorError::InvalidNumber(
            "".to_string(),
            "Not a valid integer".to_string()
        ))
    );
    assert_eq!(
        integer_to_word("-5"),
        Err(KorrektorError::InvalidNumber(
            "-5".to_string(),
            "Not a valid integer".to_string()
        ))
    );
    assert_eq!(
        integer_to_word("1234567890123456789"),
        Err(KorrektorError::NumberOverflow(
            "1234567890123456789".to_string(),
            "Integer should not contain more than 18 digits".to_string()
        ))
    );
    assert!(integer_to_word("123456789012345678").is_ok());
}

#[test]
fn float_errors() {
    for bad in ["3", "3.", ".5", "3.5.1", "a.5", "3,5", ""] {
        assert_eq!(
            float_to_word(bad),
            Err(KorrektorError::InvalidNumber(
                bad.to_string(),
                "Not a valid floating-point number".to_string()
            ))
        );
    }
    assert_eq!(
        float_to_word("1.1234567890123456789"),
        Err(KorrektorError::NumberOverflow(
            "1234567890123456789".to_string(),
            "Precision part should not contain more than 18 digits".to_string()
        ))
    );
    assert_eq!(
        float_to_word("1234567890123456789.5"),
        Err(KorrektorError::NumberOverflow(
            "1234567890123456789".to_string(),
            "Integer should not contain more than 18 digits".to_string()
        ))
    );
    assert_eq!(
        float_to_word("1234567890123456789.1234567890123456789"),
        Err(KorrektorError::NumberOverflow(
            "1234567890123456789".to_string(),
            "Precision part should not contain more than 18 digits".to_string()
        ))
    );
}

#[test]
fn fraction_prefixes() {
    assert_eq!(get_fraction_prefix("0"), "o‘ndan");
    assert_eq!(get_fraction_prefix("75"), "yuzdan");
    assert_eq!(get_fraction_prefix("754"), "mingdan");
    assert_eq!(get_fraction_prefix("123456"), "milliondan");
    assert_eq!(get_fraction_prefix("123456789012345678"), "kvintilliondan");
}

#[test]
fn numeral_forms() {
    assert!(is_valid_integer("0123"));
    assert!(!is_valid_integer("12 "));
    assert!(!is_valid_integer(""));
    assert!(is_valid_float("0.5"));
    assert!(!is_valid_float("5"));
    assert!(!is_valid_float("1.2.3"));
}

#[test]
fn negative_numbers_in_the_helpers() {
    assert_eq!(
        base(-532, 2),
        Err(KorrektorError::InvalidNumber(
            "-5".to_string(),
            "Not a valid integer".to_string()
        ))
    );
    assert_eq!(base(-50, 2).unwrap(), "nol yuz");
    assert_eq!(
        one(-532, 2),
        Err(KorrektorError::InvalidNumber(
            "-32".to_string(),
            "Not a valid integer".to_string()
        ))
    );
    assert_eq!(
        hundred(-532, 2),
        Err(KorrektorError::InvalidNumber(
            "-5".to_string(),
            "Not a valid integer".to_string()
        ))
    );
    assert_eq!(one(500, 2).unwrap(), "besh yuz");
    assert_eq!(hundred(5, 2).unwrap(), "nol yuz besh");
}

#[test]
fn error_messages() {
    assert_eq!(
        KorrektorError::InvalidChar('!').message(),
        "Invalid character: \"!\"! Only Latin and Cyrillic alphabets for Uzbek language are supported."
    );
    assert_eq!(
        KorrektorError::InvalidNumber("12a".to_string(), "Not a valid integer".to_string())
            .message(),
        "Not a valid integer: 12a!"
    );
    assert_eq!(
        KorrektorError::NumberOverflow("1".to_string(), "Too long".to_string()).message(),
        "Too long: 1"
    );
}
