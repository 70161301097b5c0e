use korrektor::utils::patterns::{replace_pairs, unwrap_text};
use korrektor::uzbek::alphabetic::{from_sortable, to_sortable};
use korrektor::uzbek::corrector::unguarded_stretches;
use korrektor::uzbek::number::helper::{convert_floats, convert_integers};
use korrektor::uzbek::number::{float_to_word, integer_to_word, is_valid_float, is_valid_integer};

const SAMPLES: [&str; 14] = [
    "",
    "G'g' O'o' ShSHsh ChCHch ʻʼ'‘’‛′ʽ`",
    "G‘ozal estafeta chilonzor o'zbek chiroyli",
    "sSh cCH shh Go' og'' 'g' ''",
    "Ғозал эстафета чилонзор ўзбек чиройли",
    "Ğğ Ŏŏ ŠÖš ČÜč",
    "〈@hello〉 〈〈nyan@mail.uz〉〉 go'zal 〈@crystalny〉",
    "a〈b〉c〉d〈e",
    "12 12.5 13.1 5",
    "1.2.3 12. .5 a1.b 007 3.05",
    "bir 2 uch 4.0 besh",
    "sH cH Sch s h",
    "〉〈〈〉",
    "o'G'o'g`S",
];

#[test]
fn the_sortable_key_is_what_the_rules_of_substitution_give() {
    let to_sort = [
        ("G[ʻʼ'‘’‛′ʽ`]", "Ğ"),
        ("g[ʻʼ'‘’‛′ʽ`]", "ğ"),
        ("O[ʻʼ'‘’‛′ʽ`]", "Ŏ"),
        ("o[ʻʼ'‘’‛′ʽ`]", "ŏ"),
        ("ʻ|ʼ|'|‘|’|‛|′|ʽ|`", "ʼ"),
        ("Sh", "Š"),
        ("SH", "Ö"),
        ("sh", "š"),
        ("Ch", "Č"),
        ("CH", "Ü"),
        ("ch", "č"),
    ];
    let from_sort = [
        ("Ğ", "G‘"),
        ("ğ", "g‘"),
        ("Ŏ", "O‘"),
        ("ŏ", "o‘"),
        ("Š", "Sh"),
        ("Ö", "SH"),
        ("š", "sh"),
        ("Č", "Ch"),
        ("Ü", "CH"),
        ("č", "ch"),
    ];
    for text in SAMPLES {
        assert_eq!(to_sortable(text.to_string()), replace_pairs(text, &to_sort));
        assert_eq!(from_sortable(text.to_string()), replace_pairs(text, &from_sort));
    }
}

#[test]
fn marks_are_taken_out_as_by_a_rule() {
    for text in SAMPLES {
        assert_eq!(unwrap_text(text), replace_pairs(text, &[("[〈〉]", "")]));
    }
}

#[test]
fn numerals_are_what_the_patterns_match() {
    let integer = regex::Regex::new("^([0-9]+)$").unwrap();
    let float = regex::Regex::new("^([0-9]+\\.[0-9]+)$").unwrap();
    for text in ["", "0", "12", "12.5", "1.2.3", "12.", ".5", "a1", "1 ", "007", "3.05", "１２"] {
        assert_eq!(is_valid_integer(text), integer.is_match(text));
        assert_eq!(is_valid_float(text), float.is_match(text));
    }
}

#[test]
fn numerals_in_a_text_are_found_as_by_the_patterns() {
    let float = regex::Regex::new("[0-9]+\\.[0-9]+").unwrap();
    let integer = regex::Regex::new("[0-9]+").unwrap();
    for text in SAMPLES {
        let floats = float.replace_all(text, |found: &regex::Captures| {
            float_to_word(&found[0]).unwrap()
        });
        assert_eq!(convert_floats(text).unwrap(), floats);
        let integers = integer.replace_all(text, |found: &regex::Captures| {
            integer_to_word(&found[0]).unwrap()
        });
        assert_eq!(convert_integers(text).unwrap(), integers);
    }
}

#[test]
fn stretches_outside_flat_pairs_are_what_the_pattern_matches() {
    let outside = fancy_regex::Regex::new("([^〈〉](?![^〈]*〉))+").unwrap();
    for text in [
        "",
        "oddiy matn",
        "a〈b〉c",
        "〈a〉〈b〉",
        "bir 〈x〉 ikki〈y〉〈z〉uch",
        "〈@hello〉 〈nyan@mail.uz〉 go'zal 〈@crystalny〉",
        "a〈〉b",
    ] {
        let found: Vec<String> = outside
            .find_iter(text)
            .map(|m| m.unwrap().as_str().to_string())
            .collect();
        assert_eq!(unguarded_stretches(text), found);
    }
}

#[test]
fn stretches_are_the_runs_at_depth_zero() {
    for text in SAMPLES {
        let mut expected: Vec<String> = Vec::new();
        let mut current = String::new();
        let mut depth = 0usize;
        for c in text.chars() {
            if c == '〈' || c == '〉' {
                if depth == 0 && !current.is_empty() {
                    expected.push(current.clone());
                }
                current.clear();
                if c == '〈' {
                    depth += 1;
                } else if depth > 0 {
                    depth -= 1;
                }
            } else {
                current.push(c);
            }
        }
        if depth == 0 && !current.is_empty() {
            expected.push(current);
        }
        assert_eq!(unguarded_stretches(text), expected);
    }
}
