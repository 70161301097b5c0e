//! The rule sets of the orthographic correction.
use crate::utils::patterns::rules_view;
use vstd::prelude::*;

verus! {

/// The corrections of spelling: the turned comma behind `g` and `o` in place
/// of any other apostrophe mark, and the hyphen between the day or the year
/// and what follows it in a Latin date.
pub open spec fn correct_rules() -> Seq<(Seq<char>, Seq<char>)> {
    seq![
        ("([GgOo])[ʻʼ'’‛′ʽ`]"@, "${1}‘"@),
        ("(\\d+) (yanvar|fevral|mart|aprel|may|iyun|iyul|avgust|sentyabr|sentabr|oktyabr|oktabr|noyabr|dekabr)"@, "${1}-${2}"@),
        ("(\\d+) (yil)"@, "${1}-${2}"@),
    ]
}

/// The rules of [`correct_rules`] as a vector.
pub fn correct() -> (t: Vec<(&'static str, &'static str)>)
    ensures
        rules_view(t@) == correct_rules(),
{
    let t = vec![
        ("([GgOo])[ʻʼ'’‛′ʽ`]", "${1}‘"),
        ("(\\d+) (yanvar|fevral|mart|aprel|may|iyun|iyul|avgust|sentyabr|sentabr|oktyabr|oktabr|noyabr|dekabr)", "${1}-${2}"),
        ("(\\d+) (yil)", "${1}-${2}"),
    ];
    assert(rules_view(t@) =~= correct_rules());
    t
}

/// What is settled after the corrections: a Cyrillic date is written
/// without a hyphen, and two set phrases take their `y`.
pub open spec fn settle_rules() -> Seq<(Seq<char>, Seq<char>)> {
    seq![
        ("(\\d+)-(январ|феврал|март|апрел|май|июн|июл|август|сентябр|октябр|ноябр|декабр|ЯНВАР|ФЕВРАЛ|МАРТ|АПРЕЛ|МАЙ|ИЮН|ИЮЛ|АВГУСТ|СЕНТЯБР|ОКТЯБР|НОЯБР|ДЕКАБР)"@, "${1} ${2}"@),
        ("(\\d+)-(йил|ЙИЛ|й\\.)"@, "${1} ${2}"@),
        ("\\bnuqtai nazar"@, "nuqtayi nazar"@),
        ("\\btarjimai hol"@, "tarjimayi hol"@),
    ]
}

/// The rules of [`settle_rules`] as a vector.
pub fn settle() -> (t: Vec<(&'static str, &'static str)>)
    ensures
        rules_view(t@) == settle_rules(),
{
    let t = vec![
        ("(\\d+)-(январ|феврал|март|апрел|май|июн|июл|август|сентябр|октябр|ноябр|декабр|ЯНВАР|ФЕВРАЛ|МАРТ|АПРЕЛ|МАЙ|ИЮН|ИЮЛ|АВГУСТ|СЕНТЯБР|ОКТЯБР|НОЯБР|ДЕКАБР)", "${1} ${2}"),
        ("(\\d+)-(йил|ЙИЛ|й\\.)", "${1} ${2}"),
        ("\\bnuqtai nazar", "nuqtayi nazar"),
        ("\\btarjimai hol", "tarjimayi hol"),
    ];
    assert(rules_view(t@) =~= settle_rules());
    t
}

/// What is taken out of a text before its spelling is checked: words with
/// capitals inside and abbreviations, the particles that a hyphen joins to a
/// word, every other hyphen, which becomes a space, and nothing at the end
/// of a word behind a character that is no letter.
pub open spec fn modifiers_rules() -> Seq<(Seq<char>, Seq<char>)> {
    seq![
        ("\\b[A-Z]+[a-z]+[A-Z]+[a-z]*(\\b)|(\\b)[A-Z]{2,}[a-z]*\\b"@, ""@),
        ("-(a|ku|yu|u|da|ya|chi)\\b"@, ""@),
        ("-"@, " "@),
        ("([^a-zA-Z\\-‘’])\\b"@, "${1}"@),
    ]
}

/// The rules of [`modifiers_rules`] as a vector.
pub fn modifiers() -> (t: Vec<(&'static str, &'static str)>)
    ensures
        rules_view(t@) == modifiers_rules(),
{
    let t = vec![
        ("\\b[A-Z]+[a-z]+[A-Z]+[a-z]*(\\b)|(\\b)[A-Z]{2,}[a-z]*\\b", ""),
        ("-(a|ku|yu|u|da|ya|chi)\\b", ""),
        ("-", " "),
        ("([^a-zA-Z\\-‘’])\\b", "${1}"),
    ];
    assert(rules_view(t@) =~= modifiers_rules());
    t
}
} // verus!
