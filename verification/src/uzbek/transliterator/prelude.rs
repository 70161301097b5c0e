//! The rule sets of the transliteration between the two scripts.
use crate::utils::patterns::rules_view;
use vstd::prelude::*;

verus! {

/// A list of letters, each by its characters.
pub open spec fn letters_view(letters: Seq<&str>) -> Seq<Seq<char>> {
    Seq::new(letters.len(), |i: int| letters[i]@)
}

/// What is settled in Cyrillic text before its letters are replaced: the
/// quotation marks, the hard sign between a consonant and an iotated vowel,
/// `е` and `ц` at the places where they are written with two Latin letters,
/// and the capital letters that stand for two Latin letters inside a word in
/// capitals.
pub open spec fn pre_to_latin_rules() -> Seq<(Seq<char>, Seq<char>)> {
    seq![
        ("«"@, "“"@),
        ("»"@, "”"@),
        ("\"([^\\s\"])"@, "“${1}"@),
        ("\""@, "”"@),
        ("([бвгджзйклмнпрстфхцчшқғҳ])ъе"@, "${1}ye"@),
        ("([БВГДЖЗЙКЛМНПРСТФХЦЧШҚҒҲ])ЪЕ"@, "${1}YE"@),
        ("([бвгджзйклмнпрстфхцчшқғҳ])ъ([ёюя])"@, "${1}${2}"@),
        ("([БВГДЖЗЙКЛМНПРСТФХЦЧШҚҒҲ])Ъ([ЁЮЯ])"@, "${1}${2}"@),
        ("([аоуэияёюеўАОУЭИЯЁЮЕЎ])е"@, "${1}ye"@),
        ("\\bе"@, "ye"@),
        ("([АОУЭИЯЁЮЕЎ])Е"@, "${1}YE"@),
        ("\\bЕ([A-ZА-ЯЁЎҚҒҲ])"@, "YE${1}"@),
        ("\\bЕ"@, "Ye"@),
        ("([аоуэияёюеўАОУЭИЯЁЮЕЎ])ц"@, "${1}ts"@),
        ("([АОУЭИЯЁЮЕЎ])Ц"@, "${1}TS"@),
        ("Ё([A-ZА-ЯЁЎҚҒҲ])"@, "YO${1}"@),
        ("([A-ZА-ЯЁЎҚҒҲ])Ё"@, "${1}YO"@),
        ("Ë([A-ZА-ЯЁЎҚҒҲ])"@, "YO${1}"@),
        ("([A-ZА-ЯЁЎҚҒҲ])Ë"@, "${1}YO"@),
        ("Ю([A-ZА-ЯЁЎҚҒҲ])"@, "YU${1}"@),
        ("([A-ZА-ЯЁЎҚҒҲ])Ю"@, "${1}YU"@),
        ("Я([A-ZА-ЯЁЎҚҒҲ])"@, "YA${1}"@),
        ("([A-ZА-ЯЁЎҚҒҲ])Я"@, "${1}YA"@),
        ("Ч([A-ZА-ЯЁЎҚҒҲ])"@, "CH${1}"@),
        ("([A-ZА-ЯЁЎҚҒҲ])Ч"@, "${1}CH"@),
        ("Ш([A-ZА-ЯЁЎҚҒҲ])"@, "SH${1}"@),
        ("([A-ZА-ЯЁЎҚҒҲ])Ш"@, "${1}SH"@),
    ]
}

/// The rules of [`pre_to_latin_rules`] as a vector.
pub fn pre_to_latin() -> (t: Vec<(&'static str, &'static str)>)
    ensures
        rules_view(t@) == pre_to_latin_rules(),
{
    let t = vec![
        ("«", "“"),
        ("»", "”"),
        ("\"([^\\s\"])", "“${1}"),
        ("\"", "”"),
        ("([бвгджзйклмнпрстфхцчшқғҳ])ъе", "${1}ye"),
        ("([БВГДЖЗЙКЛМНПРСТФХЦЧШҚҒҲ])ЪЕ", "${1}YE"),
        ("([бвгджзйклмнпрстфхцчшқғҳ])ъ([ёюя])", "${1}${2}"),
        ("([БВГДЖЗЙКЛМНПРСТФХЦЧШҚҒҲ])Ъ([ЁЮЯ])", "${1}${2}"),
        ("([аоуэияёюеўАОУЭИЯЁЮЕЎ])е", "${1}ye"),
        ("\\bе", "ye"),
        ("([АОУЭИЯЁЮЕЎ])Е", "${1}YE"),
        ("\\bЕ([A-ZА-ЯЁЎҚҒҲ])", "YE${1}"),
        ("\\bЕ", "Ye"),
        ("([аоуэияёюеўАОУЭИЯЁЮЕЎ])ц", "${1}ts"),
        ("([АОУЭИЯЁЮЕЎ])Ц", "${1}TS"),
        ("Ё([A-ZА-ЯЁЎҚҒҲ])", "YO${1}"),
        ("([A-ZА-ЯЁЎҚҒҲ])Ё", "${1}YO"),
        ("Ë([A-ZА-ЯЁЎҚҒҲ])", "YO${1}"),
        ("([A-ZА-ЯЁЎҚҒҲ])Ë", "${1}YO"),
        ("Ю([A-ZА-ЯЁЎҚҒҲ])", "YU${1}"),
        ("([A-ZА-ЯЁЎҚҒҲ])Ю", "${1}YU"),
        ("Я([A-ZА-ЯЁЎҚҒҲ])", "YA${1}"),
        ("([A-ZА-ЯЁЎҚҒҲ])Я", "${1}YA"),
        ("Ч([A-ZА-ЯЁЎҚҒҲ])", "CH${1}"),
        ("([A-ZА-ЯЁЎҚҒҲ])Ч", "${1}CH"),
        ("Ш([A-ZА-ЯЁЎҚҒҲ])", "SH${1}"),
        ("([A-ZА-ЯЁЎҚҒҲ])Ш", "${1}SH"),
    ];
    assert(rules_view(t@) =~= pre_to_latin_rules());
    t
}

/// The Cyrillic letters, in the order in which they are replaced.
pub open spec fn cyrillic_c2l_letters() -> Seq<Seq<char>> {
    seq![
        "а"@, "б"@, "в"@, "г"@, "д"@, "е"@, "ё"@, "ë"@,
        "ж"@, "з"@, "и"@, "й"@, "к"@, "л"@, "м"@, "н"@,
        "о"@, "п"@, "р"@, "с"@, "т"@, "у"@, "ф"@, "х"@,
        "ц"@, "ч"@, "ш"@, "ъ"@, "ь"@, "э"@, "ю"@, "я"@,
        "ў"@, "қ"@, "ғ"@, "ҳ"@, "А"@, "Б"@, "В"@, "Г"@,
        "Д"@, "Е"@, "Ё"@, "Ë"@, "Ж"@, "З"@, "И"@, "Й"@,
        "К"@, "Л"@, "М"@, "Н"@, "О"@, "П"@, "Р"@, "С"@,
        "Т"@, "У"@, "Ф"@, "Х"@, "Ц"@, "Ч"@, "Ш"@, "Ъ"@,
        "Ь"@, "Э"@, "Ю"@, "Я"@, "Ў"@, "Қ"@, "Ғ"@, "Ҳ"@,
    ]
}

/// The letters of [`cyrillic_c2l_letters`] as a vector.
pub fn cyrillic_c2l() -> (t: Vec<&'static str>)
    ensures
        letters_view(t@) == cyrillic_c2l_letters(),
{
    let t = vec![
        "а", "б", "в", "г", "д", "е", "ё", "ë",
        "ж", "з", "и", "й", "к", "л", "м", "н",
        "о", "п", "р", "с", "т", "у", "ф", "х",
        "ц", "ч", "ш", "ъ", "ь", "э", "ю", "я",
        "ў", "қ", "ғ", "ҳ", "А", "Б", "В", "Г",
        "Д", "Е", "Ё", "Ë", "Ж", "З", "И", "Й",
        "К", "Л", "М", "Н", "О", "П", "Р", "С",
        "Т", "У", "Ф", "Х", "Ц", "Ч", "Ш", "Ъ",
        "Ь", "Э", "Ю", "Я", "Ў", "Қ", "Ғ", "Ҳ",
    ];
    assert(letters_view(t@) =~= cyrillic_c2l_letters());
    t
}

/// What stands for each letter of [`cyrillic_c2l_letters`] in the Latin script.
pub open spec fn latin_c2l_letters() -> Seq<Seq<char>> {
    seq![
        "a"@, "b"@, "v"@, "g"@, "d"@, "e"@, "yo"@, "yo"@,
        "j"@, "z"@, "i"@, "y"@, "k"@, "l"@, "m"@, "n"@,
        "o"@, "p"@, "r"@, "s"@, "t"@, "u"@, "f"@, "x"@,
        "s"@, "ch"@, "sh"@, "ʼ"@, ""@, "e"@, "yu"@, "ya"@,
        "o‘"@, "q"@, "g‘"@, "h"@, "A"@, "B"@, "V"@, "G"@,
        "D"@, "E"@, "Yo"@, "Yo"@, "J"@, "Z"@, "I"@, "Y"@,
        "K"@, "L"@, "M"@, "N"@, "O"@, "P"@, "R"@, "S"@,
        "T"@, "U"@, "F"@, "X"@, "S"@, "Ch"@, "Sh"@, "ʼ"@,
        ""@, "E"@, "Yu"@, "Ya"@, "Oʼ"@, "Q"@, "Gʼ"@, "H"@,
    ]
}

/// The letters of [`latin_c2l_letters`] as a vector.
pub fn latin_c2l() -> (t: Vec<&'static str>)
    ensures
        letters_view(t@) == latin_c2l_letters(),
{
    let t = vec![
        "a", "b", "v", "g", "d", "e", "yo", "yo",
        "j", "z", "i", "y", "k", "l", "m", "n",
        "o", "p", "r", "s", "t", "u", "f", "x",
        "s", "ch", "sh", "ʼ", "", "e", "yu", "ya",
        "o‘", "q", "g‘", "h", "A", "B", "V", "G",
        "D", "E", "Yo", "Yo", "J", "Z", "I", "Y",
        "K", "L", "M", "N", "O", "P", "R", "S",
        "T", "U", "F", "X", "S", "Ch", "Sh", "ʼ",
        "", "E", "Yu", "Ya", "Oʼ", "Q", "Gʼ", "H",
    ];
    assert(letters_view(t@) =~= latin_c2l_letters());
    t
}

/// What is settled in the Latin text that the letters gave: the hyphen of
/// dates, and two set phrases.
pub open spec fn to_latin_rules() -> Seq<(Seq<char>, Seq<char>)> {
    seq![
        ("(\\d+) (yanvar|fevral|mart|aprel|may|iyun|iyul|avgust|sentyabr|sentabr|oktyabr|oktabr|noyabr|dekabr)"@, "${1}-${2}"@),
        ("(\\d+) (yil)"@, "${1}-${2}"@),
        ("\\bnuqtai nazar"@, "nuqtayi nazar"@),
        ("\\btarjimai hol"@, "tarjimayi hol"@),
    ]
}

/// The rules of [`to_latin_rules`] as a vector.
pub fn to_latin() -> (t: Vec<(&'static str, &'static str)>)
    ensures
        rules_view(t@) == to_latin_rules(),
{
    let t = vec![
        ("(\\d+) (yanvar|fevral|mart|aprel|may|iyun|iyul|avgust|sentyabr|sentabr|oktyabr|oktabr|noyabr|dekabr)", "${1}-${2}"),
        ("(\\d+) (yil)", "${1}-${2}"),
        ("\\bnuqtai nazar", "nuqtayi nazar"),
        ("\\btarjimai hol", "tarjimayi hol"),
    ];
    assert(rules_view(t@) =~= to_latin_rules());
    t
}

/// What is settled in Latin text first: the opening quotation mark, the
/// graphemes `g‘` and `o‘` under any apostrophe mark, every other apostrophe
/// mark, and the hard sign that Cyrillic writes behind `mo‘` before `j` or
/// `t`.
pub open spec fn to_cyr_rules() -> Seq<(Seq<char>, Seq<char>)> {
    seq![
        ("“"@, "«"@),
        ("G[ʻʼ'‘’‛′ʽ`]"@, "Ğ"@),
        ("g[ʻʼ'‘’‛′ʽ`]"@, "ğ"@),
        ("O[ʻʼ'‘’‛′ʽ`]"@, "Ŏ"@),
        ("o[ʻʼ'‘’‛′ʽ`]"@, "ŏ"@),
        ("[ʻʼ'‘’‛′ʽ`]"@, "ʼ"@),
        ("(M)(Ŏ|Ў)([JT])"@, "${1}${2}Ъ${3}"@),
        ("([Mm])(ŏ|ў)([jt])"@, "${1}${2}ъ${3}"@),
    ]
}

/// The rules of [`to_cyr_rules`] as a vector.
pub fn to_cyr() -> (t: Vec<(&'static str, &'static str)>)
    ensures
        rules_view(t@) == to_cyr_rules(),
{
    let t = vec![
        ("“", "«"),
        ("G[ʻʼ'‘’‛′ʽ`]", "Ğ"),
        ("g[ʻʼ'‘’‛′ʽ`]", "ğ"),
        ("O[ʻʼ'‘’‛′ʽ`]", "Ŏ"),
        ("o[ʻʼ'‘’‛′ʽ`]", "ŏ"),
        ("[ʻʼ'‘’‛′ʽ`]", "ʼ"),
        ("(M)(Ŏ|Ў)([JT])", "${1}${2}Ъ${3}"),
        ("([Mm])(ŏ|ў)([jt])", "${1}${2}ъ${3}"),
    ];
    assert(rules_view(t@) =~= to_cyr_rules());
    t
}

/// A quotation mark behind a letter, a digit or a mark of punctuation closes
/// a quotation.
pub open spec fn closing_quote_rules() -> Seq<(Seq<char>, Seq<char>)> {
    seq![
        ("([a-zA-Zа-яА-ЯўқғҳЎҚҒҲʼʻ?!.0-9])(“|”|\")"@, "${1}»"@),
    ]
}

/// The rules of [`closing_quote_rules`] as a vector.
pub fn closing_quote() -> (t: Vec<(&'static str, &'static str)>)
    ensures
        rules_view(t@) == closing_quote_rules(),
{
    let t = vec![
        ("([a-zA-Zа-яА-ЯўқғҳЎҚҒҲʼʻ?!.0-9])(“|”|\")", "${1}»"),
    ];
    assert(rules_view(t@) =~= closing_quote_rules());
    t
}

/// The quotation marks that are left: a closing one, and a straight one
/// that opens a quotation.
pub open spec fn pre_retranslit_rules() -> Seq<(Seq<char>, Seq<char>)> {
    seq![
        ("”"@, "»"@),
        ("\""@, "«"@),
    ]
}

/// The rules of [`pre_retranslit_rules`] as a vector.
pub fn pre_retranslit() -> (t: Vec<(&'static str, &'static str)>)
    ensures
        rules_view(t@) == pre_retranslit_rules(),
{
    let t = vec![
        ("”", "»"),
        ("\"", "«"),
    ];
    assert(rules_view(t@) =~= pre_retranslit_rules());
    t
}

/// Words that Cyrillic does not write letter by letter, each with its
/// Cyrillic form. A pattern matches its word in any casing.
pub open spec fn retranslit_rules() -> Seq<(Seq<char>, Seq<char>)> {
    seq![
        ("(?i)sentabr"@, "сентябрь"@),
        ("(?i)sentyabr"@, "сентябрь"@),
        ("(?i)oktabr"@, "октябрь"@),
        ("(?i)oktyabr"@, "октябрь"@),
        ("(?i)noyabr"@, "ноябрь"@),
        ("(?i)dekabr"@, "декабрь"@),
        ("(?i)yanvar"@, "январь"@),
        ("(?i)fevral"@, "февраль"@),
        ("(?i)aprel"@, "апрель"@),
        ("(?i)iyun"@, "июнь"@),
        ("(?i)iyul"@, "июль"@),
        ("(?i)budjet"@, "бюджет"@),
        ("(?i)rejissor"@, "режиссёр"@),
        ("(?i)sirk"@, "цирк"@),
        ("(?i)sement"@, "цемент"@),
    ]
}

/// The rules of [`retranslit_rules`] as a vector.
pub fn retranslit() -> (t: Vec<(&'static str, &'static str)>)
    ensures
        rules_view(t@) == retranslit_rules(),
{
    let t = vec![
        ("(?i)sentabr", "сентябрь"),
        ("(?i)sentyabr", "сентябрь"),
        ("(?i)oktabr", "октябрь"),
        ("(?i)oktyabr", "октябрь"),
        ("(?i)noyabr", "ноябрь"),
        ("(?i)dekabr", "декабрь"),
        ("(?i)yanvar", "январь"),
        ("(?i)fevral", "февраль"),
        ("(?i)aprel", "апрель"),
        ("(?i)iyun", "июнь"),
        ("(?i)iyul", "июль"),
        ("(?i)budjet", "бюджет"),
        ("(?i)rejissor", "режиссёр"),
        ("(?i)sirk", "цирк"),
        ("(?i)sement", "цемент"),
    ];
    assert(rules_view(t@) =~= retranslit_rules());
    t
}

/// Set phrases that Cyrillic writes without the `y` of the Latin script.
pub open spec fn post_retranslit_rules() -> Seq<(Seq<char>, Seq<char>)> {
    seq![
        ("\\bnuqtayi nazar"@, "nuqtai nazar"@),
        ("\\btarjimayi hol"@, "tarjimai hol"@),
    ]
}

/// The rules of [`post_retranslit_rules`] as a vector.
pub fn post_retranslit() -> (t: Vec<(&'static str, &'static str)>)
    ensures
        rules_view(t@) == post_retranslit_rules(),
{
    let t = vec![
        ("\\bnuqtayi nazar", "nuqtai nazar"),
        ("\\btarjimayi hol", "tarjimai hol"),
    ];
    assert(rules_view(t@) =~= post_retranslit_rules());
    t
}

/// What is settled before the letters are replaced: the hard sign, `e` at the
/// beginning of a word or behind a vowel, and the pairs of Latin letters
/// that stand for one Cyrillic letter.
pub open spec fn to_cyr_sub_rules() -> Seq<(Seq<char>, Seq<char>)> {
    seq![
        ("ʼ([A-ZА-ЯЁЎҚҒҲĞŎ])"@, "Ъ${1}"@),
        ("([A-ZА-ЯЁЎҚҒҲĞŎ])ʼ"@, "${1}Ъ"@),
        ("ʼ"@, "ъ"@),
        ("\\bE"@, "Э"@),
        ("\\be"@, "э"@),
        ("([AOUEIaoueiŏŎаоуэияёюеўАОУЭИЯЁЮЕЎ])E"@, "${1}Э"@),
        ("([AOUEIaoueiŏŎаоуэияёюеўАОУЭИЯЁЮЕЎ])e"@, "${1}э"@),
        ("Y[oO]"@, "Ё"@),
        ("yo"@, "ё"@),
        ("Y[uU]"@, "Ю"@),
        ("yu"@, "ю"@),
        ("Y[aA]"@, "Я"@),
        ("ya"@, "я"@),
        ("Y[eE]"@, "Е"@),
        ("ye"@, "е"@),
        ("S[hH]"@, "Ш"@),
        ("sh"@, "ш"@),
        ("C[hH]"@, "Ч"@),
        ("ch"@, "ч"@),
        ("([AOUEIaoueiŏŎ])(T[sS])"@, "${1}Ц"@),
        ("([AOUEIaoueiŏŎ])ts"@, "${1}ц"@),
    ]
}

/// The rules of [`to_cyr_sub_rules`] as a vector.
pub fn to_cyr_sub() -> (t: Vec<(&'static str, &'static str)>)
    ensures
        rules_view(t@) == to_cyr_sub_rules(),
{
    let t = vec![
        ("ʼ([A-ZА-ЯЁЎҚҒҲĞŎ])", "Ъ${1}"),
        ("([A-ZА-ЯЁЎҚҒҲĞŎ])ʼ", "${1}Ъ"),
        ("ʼ", "ъ"),
        ("\\bE", "Э"),
        ("\\be", "э"),
        ("([AOUEIaoueiŏŎаоуэияёюеўАОУЭИЯЁЮЕЎ])E", "${1}Э"),
        ("([AOUEIaoueiŏŎаоуэияёюеўАОУЭИЯЁЮЕЎ])e", "${1}э"),
        ("Y[oO]", "Ё"),
        ("yo", "ё"),
        ("Y[uU]", "Ю"),
        ("yu", "ю"),
        ("Y[aA]", "Я"),
        ("ya", "я"),
        ("Y[eE]", "Е"),
        ("ye", "е"),
        ("S[hH]", "Ш"),
        ("sh", "ш"),
        ("C[hH]", "Ч"),
        ("ch", "ч"),
        ("([AOUEIaoueiŏŎ])(T[sS])", "${1}Ц"),
        ("([AOUEIaoueiŏŎ])ts", "${1}ц"),
    ];
    assert(rules_view(t@) =~= to_cyr_sub_rules());
    t
}

/// The Latin letters, in the order in which they are replaced.
pub open spec fn latin_l2c_letters() -> Seq<Seq<char>> {
    seq![
        "a"@, "b"@, "d"@, "e"@, "f"@, "g"@, "h"@, "i"@,
        "j"@, "k"@, "l"@, "m"@, "n"@, "o"@, "p"@, "q"@,
        "r"@, "s"@, "t"@, "u"@, "v"@, "x"@, "y"@, "z"@,
        "ğ"@, "ŏ"@, "c"@, "A"@, "B"@, "D"@, "E"@, "F"@,
        "G"@, "H"@, "I"@, "J"@, "K"@, "L"@, "M"@, "N"@,
        "O"@, "P"@, "Q"@, "R"@, "S"@, "T"@, "U"@, "V"@,
        "X"@, "Y"@, "Z"@, "Ğ"@, "Ŏ"@, "C"@,
    ]
}

/// The letters of [`latin_l2c_letters`] as a vector.
pub fn latin_l2c() -> (t: Vec<&'static str>)
    ensures
        letters_view(t@) == latin_l2c_letters(),
{
    let t = vec![
        "a", "b", "d", "e", "f", "g", "h", "i",
        "j", "k", "l", "m", "n", "o", "p", "q",
        "r", "s", "t", "u", "v", "x", "y", "z",
        "ğ", "ŏ", "c", "A", "B", "D", "E", "F",
        "G", "H", "I", "J", "K", "L", "M", "N",
        "O", "P", "Q", "R", "S", "T", "U", "V",
        "X", "Y", "Z", "Ğ", "Ŏ", "C",
    ];
    assert(letters_view(t@) =~= latin_l2c_letters());
    t
}

/// What stands for each letter of [`latin_l2c_letters`] in the Cyrillic
/// script.
pub open spec fn cyrillic_l2c_letters() -> Seq<Seq<char>> {
    seq![
        "а"@, "б"@, "д"@, "е"@, "ф"@, "г"@, "ҳ"@, "и"@,
        "ж"@, "к"@, "л"@, "м"@, "н"@, "о"@, "п"@, "қ"@,
        "р"@, "с"@, "т"@, "у"@, "в"@, "х"@, "й"@, "з"@,
        "ғ"@, "ў"@, "ц"@, "А"@, "Б"@, "Д"@, "Е"@, "Ф"@,
        "Г"@, "Ҳ"@, "И"@, "Ж"@, "К"@, "Л"@, "М"@, "Н"@,
        "О"@, "П"@, "Қ"@, "Р"@, "С"@, "Т"@, "У"@, "В"@,
        "Х"@, "Й"@, "З"@, "Ғ"@, "Ў"@, "Ц"@,
    ]
}

/// The letters of [`cyrillic_l2c_letters`] as a vector.
pub fn cyrillic_l2c() -> (t: Vec<&'static str>)
    ensures
        letters_view(t@) == cyrillic_l2c_letters(),
{
    let t = vec![
        "а", "б", "д", "е", "ф", "г", "ҳ", "и",
        "ж", "к", "л", "м", "н", "о", "п", "қ",
        "р", "с", "т", "у", "в", "х", "й", "з",
        "ғ", "ў", "ц", "А", "Б", "Д", "Е", "Ф",
        "Г", "Ҳ", "И", "Ж", "К", "Л", "М", "Н",
        "О", "П", "Қ", "Р", "С", "Т", "У", "В",
        "Х", "Й", "З", "Ғ", "Ў", "Ц",
    ];
    assert(letters_view(t@) =~= cyrillic_l2c_letters());
    t
}

/// What is settled in the Cyrillic text that the letters gave: the particle
/// `да` is joined to its word, and a date is written without a hyphen.
pub open spec fn to_cyr_correct_rules() -> Seq<(Seq<char>, Seq<char>)> {
    seq![
        ("-да"@, "да"@),
        ("(\\d+)-(январ|феврал|март|апрел|май|июн|июл|август|сентябр|октябр|ноябр|декабр|йил)"@, "${1} ${2}"@),
    ]
}

/// The rules of [`to_cyr_correct_rules`] as a vector.
pub fn to_cyr_correct() -> (t: Vec<(&'static str, &'static str)>)
    ensures
        rules_view(t@) == to_cyr_correct_rules(),
{
    let t = vec![
        ("-да", "да"),
        ("(\\d+)-(январ|феврал|март|апрел|май|июн|июл|август|сентябр|октябр|ноябр|декабр|йил)", "${1} ${2}"),
    ];
    assert(rules_view(t@) =~= to_cyr_correct_rules());
    t
}
} // verus!
