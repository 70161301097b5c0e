//! Numerals spoken as Uzbek words, in the Latin script.
pub mod helper;

use crate::error::ErrorView;
use crate::error::KorrektorError;
use crate::error::outcome;
use crate::utils::patterns::lemma_unwrapped_is_unmarked;
use crate::utils::patterns::unmarked;
use crate::utils::patterns::unwrap_text;
use crate::utils::text::substring;
use crate::utils::text::to_chars;
use vstd::prelude::*;

verus! {

/// The longest digit run that is spoken.
pub const MAX_DIGITS: usize = 18;

/// Whether `c` is one of the ten decimal digits.
pub open spec fn is_digit(c: char) -> bool {
    '0' <= c <= '9'
}

/// Whether every character of `s` is a decimal digit.
pub open spec fn all_digits(s: Seq<char>) -> bool {
    forall|i: int| 0 <= i < s.len() ==> is_digit(#[trigger] s[i])
}

/// The number that a digit stands for.
pub open spec fn digit_value(c: char) -> nat {
    (c as int - '0' as int) as nat
}

/// The number that a run of decimal digits denotes, leading zeros allowed.
pub open spec fn decimal_value(s: Seq<char>) -> nat
    decreases s.len(),
{
    if s.len() == 0 {
        0
    } else {
        10 * decimal_value(s.drop_last()) + digit_value(s.last())
    }
}

/// Ten to the power `e`.
pub open spec fn pow10(e: nat) -> nat
    decreases e,
{
    if e == 0 {
        1
    } else {
        10 * pow10((e - 1) as nat)
    }
}

/// The words for one to nineteen.
pub open spec fn unit_word(n: nat) -> Seq<char> {
    if n == 1 {
        "bir"@
    } else if n == 2 {
        "ikki"@
    } else if n == 3 {
        "uch"@
    } else if n == 4 {
        "to‘rt"@
    } else if n == 5 {
        "besh"@
    } else if n == 6 {
        "olti"@
    } else if n == 7 {
        "yetti"@
    } else if n == 8 {
        "sakkiz"@
    } else if n == 9 {
        "to‘qqiz"@
    } else if n == 10 {
        "o‘n"@
    } else if n == 11 {
        "o‘n bir"@
    } else if n == 12 {
        "o‘n ikki"@
    } else if n == 13 {
        "o‘n uch"@
    } else if n == 14 {
        "o‘n to‘rt"@
    } else if n == 15 {
        "o‘n besh"@
    } else if n == 16 {
        "o‘n olti"@
    } else if n == 17 {
        "o‘n yetti"@
    } else if n == 18 {
        "o‘n sakkiz"@
    } else {
        "o‘n to‘qqiz"@
    }
}

/// The words for the tens, from twenty (`t == 2`) to ninety (`t == 9`).
pub open spec fn tens_word(t: nat) -> Seq<char> {
    if t == 2 {
        "yigirma"@
    } else if t == 3 {
        "o‘ttiz"@
    } else if t == 4 {
        "qirq"@
    } else if t == 5 {
        "ellik"@
    } else if t == 6 {
        "oltmish"@
    } else if t == 7 {
        "yetmish"@
    } else if t == 8 {
        "sakson"@
    } else {
        "to‘qson"@
    }
}

/// Whether a scale word exists for ten to the power `power`.
pub open spec fn is_scale_power(power: nat) -> bool {
    power == 2 || power == 3 || power == 6 || power == 9 || power == 12 || power == 15
        || power == 18
}

/// The scale word for ten to the power `power`: hundred, thousand, million
/// and so on.
pub open spec fn scale_word(power: nat) -> Seq<char> {
    if power == 2 {
        "yuz"@
    } else if power == 3 {
        "ming"@
    } else if power == 6 {
        "million"@
    } else if power == 9 {
        "milliard"@
    } else if power == 12 {
        "trillion"@
    } else if power == 15 {
        "kvadrillion"@
    } else {
        "kvintillion"@
    }
}

/// The power of the scale word under which `n` is spoken, for `n` from one
/// hundred on: two below a thousand, and otherwise the largest multiple of
/// three whose power of ten does not exceed `n`, up to eighteen.
pub open spec fn group_power(n: nat) -> nat {
    if n < 1_000 {
        2
    } else if n < 1_000_000 {
        3
    } else if n < 1_000_000_000 {
        6
    } else if n < 1_000_000_000_000 {
        9
    } else if n < 1_000_000_000_000_000 {
        12
    } else if n < 1_000_000_000_000_000_000 {
        15
    } else {
        18
    }
}

/// What follows the leading part of a composed numeral: nothing where the
/// remainder is zero, else a space and the remainder's words.
pub open spec fn trailing(rest: nat, rest_words: Seq<char>) -> Seq<char> {
    if rest == 0 {
        Seq::<char>::empty()
    } else {
        " "@ + rest_words
    }
}

/// A quotient's words, a space and the scale word for `power`.
pub open spec fn scaled(lead: Seq<char>, power: nat) -> Seq<char> {
    lead + " "@ + scale_word(power)
}

/// The words of a number: `nol` for zero, a table word up to nineteen, a
/// tens word and the unit below a hundred, and from there on the words of
/// the quotient by the group's power of ten, the scale word, and the words
/// of the remainder where it is not zero.
pub open spec fn spoken(n: nat) -> Seq<char>
    decreases n,
{
    if n == 0 {
        "nol"@
    } else if n < 20 {
        unit_word(n)
    } else if n < 100 {
        tens_word(n / 10) + trailing(n % 10, spoken(n % 10))
    } else if n < 1_000 {
        scaled(spoken(n / 100), 2) + trailing(n % 100, spoken(n % 100))
    } else if n < 1_000_000 {
        scaled(spoken(n / 1_000), 3) + trailing(n % 1_000, spoken(n % 1_000))
    } else if n < 1_000_000_000 {
        scaled(spoken(n / 1_000_000), 6) + trailing(n % 1_000_000, spoken(n % 1_000_000))
    } else if n < 1_000_000_000_000 {
        scaled(spoken(n / 1_000_000_000), 9) + trailing(
            n % 1_000_000_000,
            spoken(n % 1_000_000_000),
        )
    } else if n < 1_000_000_000_000_000 {
        scaled(spoken(n / 1_000_000_000_000), 12) + trailing(
            n % 1_000_000_000_000,
            spoken(n % 1_000_000_000_000),
        )
    } else if n < 1_000_000_000_000_000_000 {
        scaled(spoken(n / 1_000_000_000_000_000), 15) + trailing(
            n % 1_000_000_000_000_000,
            spoken(n % 1_000_000_000_000_000),
        )
    } else {
        scaled(spoken(n / 1_000_000_000_000_000_000), 18) + trailing(
            n % 1_000_000_000_000_000_000,
            spoken(n % 1_000_000_000_000_000_000),
        )
    }
}

/// The words of the quotient of `n` by ten to the `power`, and the scale word.
pub open spec fn base_words(n: nat, power: nat) -> Seq<char> {
    scaled(spoken(n / pow10(power)), power)
}

/// `n` spoken under the scale word for `power`: the quotient, the scale word,
/// and the remainder where it is not zero.
pub open spec fn composed(n: nat, power: nat) -> Seq<char> {
    base_words(n, power) + trailing(n % pow10(power), spoken(n % pow10(power)))
}

/// The values of the powers of ten that carry a scale word.
pub proof fn lemma_scale_powers()
    ensures
        pow10(2) == 100,
        pow10(3) == 1_000,
        pow10(6) == 1_000_000,
        pow10(9) == 1_000_000_000,
        pow10(12) == 1_000_000_000_000,
        pow10(15) == 1_000_000_000_000_000,
        pow10(18) == 1_000_000_000_000_000_000,
{
    reveal_with_fuel(pow10, 4);
    assert(pow10(3) == 1_000);
    assert(pow10(6) == 1_000 * pow10(3));
    assert(pow10(9) == 1_000 * pow10(6));
    assert(pow10(12) == 1_000 * pow10(9));
    assert(pow10(15) == 1_000 * pow10(12));
    assert(pow10(18) == 1_000 * pow10(15));
}

/// From one hundred on, a number is spoken as composed under its group's
/// scale word.
pub proof fn lemma_spoken_is_composed(n: nat)
    requires
        n >= 100,
    ensures
        spoken(n) == composed(n, group_power(n)),
        is_scale_power(group_power(n)),
        pow10(group_power(n)) <= n,
{
    lemma_scale_powers();
}


/// The word that names the scale of a fraction of `digits` decimal places:
/// tenths for one place, hundredths for two, and so on up to eighteen.
pub open spec fn fraction_prefix(digits: nat) -> Seq<char> {
    if digits == 1 {
        "o‘ndan"@
    } else if digits == 2 {
        "yuzdan"@
    } else if digits == 3 {
        "mingdan"@
    } else if digits == 4 {
        "o‘n mingdan"@
    } else if digits == 5 {
        "yuz mingdan"@
    } else if digits == 6 {
        "milliondan"@
    } else if digits == 7 {
        "o‘n milliondan"@
    } else if digits == 8 {
        "yuz milliondan"@
    } else if digits == 9 {
        "milliarddan"@
    } else if digits == 10 {
        "o‘n milliarddan"@
    } else if digits == 11 {
        "yuz milliarddan"@
    } else if digits == 12 {
        "trilliondan"@
    } else if digits == 13 {
        "o‘n trilliondan"@
    } else if digits == 14 {
        "yuz trilliondan"@
    } else if digits == 15 {
        "kvadrilliondan"@
    } else if digits == 16 {
        "o‘n kvadrilliondan"@
    } else if digits == 17 {
        "yuz kvadrilliondan"@
    } else {
        "kvintilliondan"@
    }
}

/// An integer numeral: one decimal digit or more, and nothing else.
pub open spec fn integer_numeral(s: Seq<char>) -> bool {
    s.len() > 0 && all_digits(s)
}

/// What [`integer_to_word`] makes of a text: the words of the number it
/// denotes, or the reason why it is not spoken.
pub open spec fn integer_words(s: Seq<char>) -> Result<Seq<char>, ErrorView> {
    if !integer_numeral(s) {
        Err(ErrorView::InvalidNumber(s, "Not a valid integer"@))
    } else if s.len() > MAX_DIGITS {
        Err(ErrorView::NumberOverflow(s, "Integer should not contain more than 18 digits"@))
    } else {
        Ok(spoken(decimal_value(s)))
    }
}

/// The index of the first decimal point in `s`, or the length of `s` where
/// it has none.
pub open spec fn point_index(s: Seq<char>) -> int
    decreases s.len(),
{
    if s.len() == 0 || s[0] == '.' {
        0
    } else {
        1 + point_index(s.drop_first())
    }
}

/// The digits before the decimal point.
pub open spec fn whole_part(s: Seq<char>) -> Seq<char> {
    s.take(point_index(s))
}

/// The digits behind the decimal point.
pub open spec fn fraction_part(s: Seq<char>) -> Seq<char> {
    s.skip(point_index(s) + 1)
}

/// A decimal numeral: an integer numeral, one decimal point, and an integer
/// numeral.
pub open spec fn float_numeral(s: Seq<char>) -> bool {
    &&& point_index(s) < s.len()
    &&& integer_numeral(whole_part(s))
    &&& integer_numeral(fraction_part(s))
}

/// What [`float_to_word`] makes of a text: the whole part's words, `butun`,
/// the scale word of the fraction by the count of its digits, and the
/// fraction's digits spoken as an integer; or the reason why not.
pub open spec fn float_words(s: Seq<char>) -> Result<Seq<char>, ErrorView> {
    if !float_numeral(s) {
        Err(ErrorView::InvalidNumber(s, "Not a valid floating-point number"@))
    } else if fraction_part(s).len() > MAX_DIGITS {
        Err(
            ErrorView::NumberOverflow(
                fraction_part(s),
                "Precision part should not contain more than 18 digits"@,
            ),
        )
    } else if whole_part(s).len() > MAX_DIGITS {
        Err(
            ErrorView::NumberOverflow(
                whole_part(s),
                "Integer should not contain more than 18 digits"@,
            ),
        )
    } else {
        Ok(
            spoken(decimal_value(whole_part(s))) + " butun "@ + fraction_prefix(
                fraction_part(s).len(),
            ) + " "@ + spoken(decimal_value(fraction_part(s))),
        )
    }
}

/// The words of a decimal numeral are made of the words of its two parts,
/// each spoken as the integer that its digits denote: the numeral is spoken
/// exactly where both parts are, and then as the whole part's words,
/// `butun`, the scale word of the fraction, and the fraction's words.
pub proof fn lemma_float_by_integers(s: Seq<char>)
    requires
        float_numeral(s),
    ensures
        float_words(s) is Ok <==> integer_words(whole_part(s)) is Ok && integer_words(
            fraction_part(s),
        ) is Ok,
        float_words(s) is Ok ==> float_words(s)->Ok_0 == integer_words(whole_part(s))->Ok_0
            + " butun "@ + fraction_prefix(fraction_part(s).len()) + " "@ + integer_words(
            fraction_part(s),
        )->Ok_0,
{
}

/// From one thousand on, the power under which a number is spoken is a
/// multiple of three, and the number lies between ten to that power and a
/// thousand times as much, as long as it is below ten to the twenty-first.
pub proof fn lemma_group_power_bracket(n: nat)
    requires
        n >= 1_000,
    ensures
        group_power(n) % 3 == 0,
        pow10(group_power(n)) <= n,
        n < 1_000_000_000_000_000_000_000 ==> n < 1_000 * pow10(group_power(n)),
{
    lemma_scale_powers();
}

/// A run of `k` digits denotes a number below ten to the `k`.
pub proof fn lemma_decimal_value_bound(s: Seq<char>)
    requires
        all_digits(s),
    ensures
        decimal_value(s) < pow10(s.len()),
    decreases s.len(),
{
    if s.len() > 0 {
        lemma_decimal_value_bound(s.drop_last());
        assert(is_digit(s.last()));
    }
}

/// Ten to a power grows with the power.
pub proof fn lemma_pow10_grows(a: nat, b: nat)
    requires
        a <= b,
    ensures
        pow10(a) <= pow10(b),
    decreases b,
{
    if a < b {
        lemma_pow10_grows(a, (b - 1) as nat);
    }
}

fn unit_name(n: u64) -> (r: &'static str)
    requires
        1 <= n < 20,
    ensures
        r@ == unit_word(n as nat),
{
    if n == 1 {
        "bir"
    } else if n == 2 {
        "ikki"
    } else if n == 3 {
        "uch"
    } else if n == 4 {
        "to‘rt"
    } else if n == 5 {
        "besh"
    } else if n == 6 {
        "olti"
    } else if n == 7 {
        "yetti"
    } else if n == 8 {
        "sakkiz"
    } else if n == 9 {
        "to‘qqiz"
    } else if n == 10 {
        "o‘n"
    } else if n == 11 {
        "o‘n bir"
    } else if n == 12 {
        "o‘n ikki"
    } else if n == 13 {
        "o‘n uch"
    } else if n == 14 {
        "o‘n to‘rt"
    } else if n == 15 {
        "o‘n besh"
    } else if n == 16 {
        "o‘n olti"
    } else if n == 17 {
        "o‘n yetti"
    } else if n == 18 {
        "o‘n sakkiz"
    } else {
        "o‘n to‘qqiz"
    }
}

fn tens_name(t: u64) -> (r: &'static str)
    requires
        2 <= t <= 9,
    ensures
        r@ == tens_word(t as nat),
{
    if t == 2 {
        "yigirma"
    } else if t == 3 {
        "o‘ttiz"
    } else if t == 4 {
        "qirq"
    } else if t == 5 {
        "ellik"
    } else if t == 6 {
        "oltmish"
    } else if t == 7 {
        "yetmish"
    } else if t == 8 {
        "sakson"
    } else {
        "to‘qson"
    }
}

fn scale_name(power: u32) -> (r: &'static str)
    requires
        is_scale_power(power as nat),
    ensures
        r@ == scale_word(power as nat),
{
    if power == 2 {
        "yuz"
    } else if power == 3 {
        "ming"
    } else if power == 6 {
        "million"
    } else if power == 9 {
        "milliard"
    } else if power == 12 {
        "trillion"
    } else if power == 15 {
        "kvadrillion"
    } else {
        "kvintillion"
    }
}

fn ten_to(power: u32) -> (r: u64)
    requires
        is_scale_power(power as nat),
    ensures
        r == pow10(power as nat),
        r >= 100,
{
    proof {
        lemma_scale_powers();
    }
    if power == 2 {
        100
    } else if power == 3 {
        1_000
    } else if power == 6 {
        1_000_000
    } else if power == 9 {
        1_000_000_000
    } else if power == 12 {
        1_000_000_000_000
    } else if power == 15 {
        1_000_000_000_000_000
    } else {
        1_000_000_000_000_000_000
    }
}

fn group_power_of(n: u64) -> (r: u32)
    requires
        n >= 100,
    ensures
        r == group_power(n as nat),
        is_scale_power(r as nat),
{
    if n < 1_000 {
        2
    } else if n < 1_000_000 {
        3
    } else if n < 1_000_000_000 {
        6
    } else if n < 1_000_000_000_000 {
        9
    } else if n < 1_000_000_000_000_000 {
        12
    } else if n < 1_000_000_000_000_000_000 {
        15
    } else {
        18
    }
}

/// The words of `n`. The recursion descends through the quotient and the
/// remainder of each group, so its depth stays below the number of digits:
/// twenty at most, for a number of sixty-four bits.
fn say(n: u64) -> (r: String)
    ensures
        r@ == spoken(n as nat),
    decreases n,
{
    if n == 0 {
        String::from_str("nol")
    } else if n < 20 {
        String::from_str(unit_name(n))
    } else if n < 100 {
        let mut out = String::from_str(tens_name(n / 10));
        let rest: u64 = n % 10;
        if rest != 0 {
            let words = say(rest);
            out.append(" ");
            out.append(words.as_str());
        }
        out
    } else {
        let power: u32 = group_power_of(n);
        let unit: u64 = ten_to(power);
        proof {
            lemma_spoken_is_composed(n as nat);
        }
        let lead: u64 = n / unit;
        let rest: u64 = n % unit;
        assert(lead < n && rest < n) by (nonlinear_arith)
            requires
                unit >= 100,
                n >= unit,
                lead == n / unit,
                rest == n % unit,
        ;
        let mut out = say(lead);
        out.append(" ");
        out.append(scale_name(power));
        if rest != 0 {
            let words = say(rest);
            out.append(" ");
            out.append(words.as_str());
        }
        out
    }
}


/// The character of a digit.
pub open spec fn digit_char(d: nat) -> char {
    if d == 0 {
        '0'
    } else if d == 1 {
        '1'
    } else if d == 2 {
        '2'
    } else if d == 3 {
        '3'
    } else if d == 4 {
        '4'
    } else if d == 5 {
        '5'
    } else if d == 6 {
        '6'
    } else if d == 7 {
        '7'
    } else if d == 8 {
        '8'
    } else {
        '9'
    }
}

/// The decimal digits of `n`, without leading zeros.
pub open spec fn decimal_text(n: nat) -> Seq<char>
    decreases n,
{
    if n < 10 {
        seq![digit_char(n)]
    } else {
        decimal_text(n / 10).push(digit_char(n % 10))
    }
}

/// The size of an integer without its sign.
pub open spec fn magnitude(i: int) -> nat {
    if i < 0 {
        (-i) as nat
    } else {
        i as nat
    }
}

/// The error for a negative quotient or remainder of size `n`: its decimal
/// text behind a minus sign is no integer numeral.
pub open spec fn negative_numeral(n: nat) -> ErrorView {
    ErrorView::InvalidNumber(seq!['-'] + decimal_text(n), "Not a valid integer"@)
}

/// What [`base`] gives: the words of the quotient of `number` by ten to the
/// `power`, and the scale word; for a negative quotient, the error.
pub open spec fn base_outcome(number: int, power: nat) -> Result<Seq<char>, ErrorView> {
    let lead = magnitude(number) / pow10(power);
    if number < 0 && lead > 0 {
        Err(negative_numeral(lead))
    } else {
        Ok(scaled(spoken(lead), power))
    }
}

/// What [`one`] gives: the remainder is looked at first, then the quotient.
pub open spec fn one_outcome(number: int, power: nat) -> Result<Seq<char>, ErrorView> {
    let rest = magnitude(number) % pow10(power);
    if number < 0 && rest > 0 {
        Err(negative_numeral(rest))
    } else {
        match base_outcome(number, power) {
            Err(e) => Err(e),
            Ok(lead) => Ok(lead + trailing(rest, spoken(rest))),
        }
    }
}

/// What [`hundred`] gives: the quotient is looked at first, then the
/// remainder.
pub open spec fn hundred_outcome(number: int, power: nat) -> Result<Seq<char>, ErrorView> {
    let rest = magnitude(number) % pow10(power);
    match base_outcome(number, power) {
        Err(e) => Err(e),
        Ok(lead) => if number < 0 && rest > 0 {
            Err(negative_numeral(rest))
        } else {
            Ok(lead + trailing(rest, spoken(rest)))
        },
    }
}

/// On a number that is not negative, [`one`] and [`hundred`] both give the
/// composition under the scale word.
pub proof fn lemma_one_is_hundred(number: nat, power: nat)
    ensures
        one_outcome(number as int, power) == Ok::<Seq<char>, ErrorView>(composed(number, power)),
        hundred_outcome(number as int, power) == one_outcome(number as int, power),
{
}

fn digit_of(c: char) -> (d: u64)
    requires
        is_digit(c),
    ensures
        d == digit_value(c),
        d <= 9,
{
    if c == '0' {
        0
    } else if c == '1' {
        1
    } else if c == '2' {
        2
    } else if c == '3' {
        3
    } else if c == '4' {
        4
    } else if c == '5' {
        5
    } else if c == '6' {
        6
    } else if c == '7' {
        7
    } else if c == '8' {
        8
    } else {
        9
    }
}

fn digit_symbol(d: u64) -> (c: char)
    requires
        d <= 9,
    ensures
        c == digit_char(d as nat),
{
    if d == 0 {
        '0'
    } else if d == 1 {
        '1'
    } else if d == 2 {
        '2'
    } else if d == 3 {
        '3'
    } else if d == 4 {
        '4'
    } else if d == 5 {
        '5'
    } else if d == 6 {
        '6'
    } else if d == 7 {
        '7'
    } else if d == 8 {
        '8'
    } else {
        '9'
    }
}

/// Appends the decimal digits of `n` to `out`.
fn push_decimal(out: &mut String, n: u64)
    ensures
        final(out)@ == old(out)@ + decimal_text(n as nat),
    decreases n,
{
    if n < 10 {
        out.push(digit_symbol(n));
    } else {
        push_decimal(out, n / 10);
        out.push(digit_symbol(n % 10));
    }
}

/// The error value for a negative quotient or remainder of size `n`.
fn negative_error(n: u64) -> (e: KorrektorError)
    ensures
        e@ == negative_numeral(n as nat),
{
    let mut value = String::new();
    value.push('-');
    push_decimal(&mut value, n);
    assert(value@ =~= seq!['-'] + decimal_text(n as nat));
    KorrektorError::InvalidNumber(value, String::from_str("Not a valid integer"))
}

fn size_of(number: i64) -> (m: u64)
    ensures
        m == magnitude(number as int),
{
    if number >= 0 {
        number as u64
    } else {
        let up: i64 = number + 1;
        let flipped: i64 = -up;
        (flipped as u64) + 1
    }
}

/// The words of the quotient of `number` by ten to the `power`, a space, and
/// the scale word for that power.
pub fn base(number: i64, power: u32) -> (r: Result<String, KorrektorError>)
    requires
        is_scale_power(power as nat),
    ensures
        outcome(r) == base_outcome(number as int, power as nat),
{
    let unit: u64 = ten_to(power);
    let lead: u64 = size_of(number) / unit;
    if number < 0 && lead > 0 {
        return Err(negative_error(lead));
    }
    let mut out = say(lead);
    out.append(" ");
    out.append(scale_name(power));
    Ok(out)
}

/// `number` spoken under the scale word for `power`: the quotient's words,
/// the scale word and, where the remainder is not zero, a space and the
/// remainder's words.
pub fn one(number: i64, power: u32) -> (r: Result<String, KorrektorError>)
    requires
        is_scale_power(power as nat),
    ensures
        outcome(r) == one_outcome(number as int, power as nat),
{
    let unit: u64 = ten_to(power);
    let rest: u64 = size_of(number) % unit;
    if number < 0 && rest > 0 {
        return Err(negative_error(rest));
    }
    match base(number, power) {
        Err(e) => Err(e),
        Ok(lead) => {
            let ghost head = lead@;
            let mut out = lead;
            if rest != 0 {
                let words = say(rest);
                out.append(" ");
                out.append(words.as_str());
            }
            assert(out@ =~= head + trailing(rest as nat, spoken(rest as nat)));
            Ok(out)
        },
    }
}

/// As [`one`], for a number whose leading group has fewer than three digits;
/// a negative quotient is reported before a negative remainder.
pub fn hundred(number: i64, power: u32) -> (r: Result<String, KorrektorError>)
    requires
        is_scale_power(power as nat),
    ensures
        outcome(r) == hundred_outcome(number as int, power as nat),
{
    let unit: u64 = ten_to(power);
    let rest: u64 = size_of(number) % unit;
    match base(number, power) {
        Err(e) => Err(e),
        Ok(lead) => {
            if number < 0 && rest > 0 {
                return Err(negative_error(rest));
            }
            let ghost head = lead@;
            let mut out = lead;
            if rest != 0 {
                let words = say(rest);
                out.append(" ");
                out.append(words.as_str());
            }
            assert(out@ =~= head + trailing(rest as nat, spoken(rest as nat)));
            Ok(out)
        },
    }
}

/// Whether the characters of `chars` from `start` up to `end` are all digits.
pub(crate) fn digits_only(chars: &Vec<char>, start: usize, end: usize) -> (r: bool)
    requires
        start <= end <= chars.len(),
    ensures
        r == all_digits(chars@.subrange(start as int, end as int)),
{
    let mut i: usize = start;
    while i < end
        invariant
            start <= i <= end <= chars.len(),
            all_digits(chars@.subrange(start as int, i as int)),
        decreases end - i,
    {
        let c = chars[i];
        if !(c >= '0' && c <= '9') {
            assert(chars@.subrange(start as int, end as int)[i - start] == c);
            return false;
        }
        assert forall|j: int| 0 <= j < i + 1 - start implies is_digit(
            #[trigger] chars@.subrange(start as int, i + 1)[j],
        ) by {
            if j < i - start {
                assert(chars@.subrange(start as int, i as int)[j] == chars@[start + j]);
            }
        }
        i += 1;
    }
    true
}

/// The words of the digit run that `chars` holds from `start` up to `end`,
/// or the overflow error where the run is longer than eighteen digits.
pub(crate) fn speak_digits(chars: &Vec<char>, start: usize, end: usize) -> (r: Result<
    String,
    KorrektorError,
>)
    requires
        start < end <= chars.len(),
        all_digits(chars@.subrange(start as int, end as int)),
    ensures
        outcome(r) == integer_words(chars@.subrange(start as int, end as int)),
{
    let ghost run = chars@.subrange(start as int, end as int);
    if end - start > MAX_DIGITS {
        return Err(
            KorrektorError::NumberOverflow(
                substring(chars, start, end),
                String::from_str("Integer should not contain more than 18 digits"),
            ),
        );
    }
    let mut value: u64 = 0;
    let mut i: usize = start;
    assert(chars@.subrange(start as int, start as int) =~= Seq::<char>::empty());
    while i < end
        invariant
            start <= i <= end <= chars.len(),
            end - start <= MAX_DIGITS,
            run == chars@.subrange(start as int, end as int),
            all_digits(run),
            value == decimal_value(chars@.subrange(start as int, i as int)),
            value < pow10((i - start) as nat),
        decreases end - i,
    {
        let c = chars[i];
        assert(run[i - start] == c);
        let d: u64 = digit_of(c);
        proof {
            lemma_pow10_grows((i - start) as nat, 17);
            lemma_scale_powers();
            assert(pow10(18) == 10 * pow10(17));
            let next = chars@.subrange(start as int, i + 1);
            assert(next.drop_last() =~= chars@.subrange(start as int, i as int));
            assert(next.last() == c);
        }
        value = value * 10 + d;
        i += 1;
    }
    Ok(say(value))
}

/// Whether `number` is an integer numeral: decimal digits and nothing else.
pub fn is_valid_integer(number: &str) -> (r: bool)
    ensures
        r == integer_numeral(number@),
{
    let chars = to_chars(number);
    let n = chars.len();
    assert(chars@.subrange(0, n as int) =~= chars@);
    n > 0 && digits_only(&chars, 0, n)
}

/// The words of the integer that `number` denotes.
///
/// A text that is not made of decimal digits alone is refused as invalid, and
/// one of more than eighteen digits as an overflow; both errors carry the
/// text.
pub fn integer_to_word(number: &str) -> (r: Result<String, KorrektorError>)
    ensures
        outcome(r) == integer_words(number@),
{
    let chars = to_chars(number);
    let n = chars.len();
    assert(chars@.subrange(0, n as int) =~= chars@);
    if n == 0 || !digits_only(&chars, 0, n) {
        return Err(
            KorrektorError::InvalidNumber(
                String::from_str(number),
                String::from_str("Not a valid integer"),
            ),
        );
    }
    speak_digits(&chars, 0, n)
}


fn fraction_prefix_name(digits: usize) -> (r: &'static str)
    requires
        1 <= digits <= MAX_DIGITS,
    ensures
        r@ == fraction_prefix(digits as nat),
{
    if digits == 1 {
        "o‘ndan"
    } else if digits == 2 {
        "yuzdan"
    } else if digits == 3 {
        "mingdan"
    } else if digits == 4 {
        "o‘n mingdan"
    } else if digits == 5 {
        "yuz mingdan"
    } else if digits == 6 {
        "milliondan"
    } else if digits == 7 {
        "o‘n milliondan"
    } else if digits == 8 {
        "yuz milliondan"
    } else if digits == 9 {
        "milliarddan"
    } else if digits == 10 {
        "o‘n milliarddan"
    } else if digits == 11 {
        "yuz milliarddan"
    } else if digits == 12 {
        "trilliondan"
    } else if digits == 13 {
        "o‘n trilliondan"
    } else if digits == 14 {
        "yuz trilliondan"
    } else if digits == 15 {
        "kvadrilliondan"
    } else if digits == 16 {
        "o‘n kvadrilliondan"
    } else if digits == 17 {
        "yuz kvadrilliondan"
    } else {
        "kvintilliondan"
    }
}

/// The scale word of a fraction written as `number`, chosen by the length of
/// `number` alone.
pub fn get_fraction_prefix(number: &str) -> (r: String)
    requires
        1 <= number.len() <= MAX_DIGITS,
    ensures
        r@ == fraction_prefix(number.len() as nat),
{
    String::from_str(fraction_prefix_name(number.len()))
}

/// The index of the first decimal point among `chars`, or their count where
/// there is none.
fn find_point(chars: &Vec<char>) -> (k: usize)
    ensures
        k == point_index(chars@),
        k <= chars.len(),
        k < chars.len() ==> chars@[k as int] == '.',
{
    let mut i: usize = 0;
    assert(chars@.skip(0) =~= chars@);
    while i < chars.len() && chars[i] != '.'
        invariant
            i <= chars.len(),
            point_index(chars@) == i + point_index(chars@.skip(i as int)),
        decreases chars.len() - i,
    {
        assert(chars@.skip(i as int).drop_first() =~= chars@.skip(i + 1));
        i += 1;
    }
    i
}

/// Whether `number` is a decimal numeral: digits, one point, digits.
pub fn is_valid_float(number: &str) -> (r: bool)
    ensures
        r == float_numeral(number@),
{
    let chars = to_chars(number);
    let n = chars.len();
    let k = find_point(&chars);
    if k >= n {
        return false;
    }
    assert(chars@.take(k as int) =~= chars@.subrange(0, k as int));
    assert(chars@.skip(k + 1) =~= chars@.subrange(k + 1, n as int));
    k > 0 && k + 1 < n && digits_only(&chars, 0, k) && digits_only(&chars, k + 1, n)
}

/// Where no point stands before `point` from `start` on and one stands at
/// `point`, the first point of the range is there.
pub proof fn lemma_point_index(s: Seq<char>, k: int)
    requires
        0 <= k < s.len(),
        s[k] == '.',
        forall|i: int| 0 <= i < k ==> s[i] != '.',
    ensures
        point_index(s) == k,
    decreases k,
{
    if k > 0 {
        assert(s[0] != '.');
        let rest = s.drop_first();
        assert forall|i: int| 0 <= i < k - 1 implies rest[i] != '.' by {
            assert(rest[i] == s[i + 1]);
        }
        lemma_point_index(rest, k - 1);
    }
}

/// The words of the decimal numeral that `chars` holds from `start` up to
/// `end`, with its point at `point`.
pub(crate) fn speak_float(chars: &Vec<char>, start: usize, point: usize, end: usize) -> (r: Result<
    String,
    KorrektorError,
>)
    requires
        start < point,
        point + 1 < end <= chars.len(),
        chars@[point as int] == '.',
        all_digits(chars@.subrange(start as int, point as int)),
        all_digits(chars@.subrange(point + 1, end as int)),
    ensures
        outcome(r) == float_words(chars@.subrange(start as int, end as int)),
{
    let ghost token = chars@.subrange(start as int, end as int);
    proof {
        assert forall|i: int| 0 <= i < point - start implies token[i] != '.' by {
            assert(is_digit(chars@.subrange(start as int, point as int)[i]));
        }
        lemma_point_index(token, point - start);
        assert(whole_part(token) =~= chars@.subrange(start as int, point as int));
        assert(fraction_part(token) =~= chars@.subrange(point + 1, end as int));
    }
    if end - (point + 1) > MAX_DIGITS {
        return Err(
            KorrektorError::NumberOverflow(
                substring(chars, point + 1, end),
                String::from_str("Precision part should not contain more than 18 digits"),
            ),
        );
    }
    let prefix = fraction_prefix_name(end - (point + 1));
    match speak_digits(chars, start, point) {
        Err(e) => Err(e),
        Ok(whole) => match speak_digits(chars, point + 1, end) {
            Err(e) => Err(e),
            Ok(fraction) => {
                let mut out = whole;
                out.append(" butun ");
                out.append(prefix);
                out.append(" ");
                out.append(fraction.as_str());
                Ok(out)
            },
        },
    }
}

/// The words of the decimal numeral `number`: the whole part, `butun`, the
/// scale word of the fraction, and the fraction's digits spoken as an
/// integer.
///
/// A text that is not digits, one point and digits is refused as invalid. A
/// fraction of more than eighteen digits is an overflow, and so is, after
/// it, a whole part of more than eighteen digits; the error carries the part.
pub fn float_to_word(number: &str) -> (r: Result<String, KorrektorError>)
    ensures
        outcome(r) == float_words(number@),
{
    let chars = to_chars(number);
    let n = chars.len();
    let k = find_point(&chars);
    proof {
        if k < n {
            assert(chars@.take(k as int) =~= chars@.subrange(0, k as int));
            assert(chars@.skip(k + 1) =~= chars@.subrange(k + 1, n as int));
        }
    }
    if !(k < n && k > 0 && k + 1 < n && digits_only(&chars, 0, k) && digits_only(
        &chars,
        k + 1,
        n,
    )) {
        return Err(
            KorrektorError::InvalidNumber(
                String::from_str(number),
                String::from_str("Not a valid floating-point number"),
            ),
        );
    }
    assert(chars@.subrange(0, n as int) =~= chars@);
    speak_float(&chars, 0, k, n)
}


/// Speaks every number of `text` in words.
///
/// Internet addresses and telephone numbers of Uzbekistan in their full
/// form are guarded first and stay as they are. In each stretch outside the
/// guarded spans the decimal numerals are spoken, then the digit runs that
/// are left. A digit run of more than eighteen digits fails the whole
/// conversion with the error that names it. The result holds no mark.
pub fn numbers_to_word(text: &str) -> (r: Result<String, KorrektorError>)
    requires
        helper::numeral_guard_ready(),
    ensures
        outcome(r) == helper::numbers_text(text@),
        r is Ok ==> unmarked(r->Ok_0@),
{
    let mut input = helper::wrap_ips(text);
    input = helper::wrap_phones(input.as_str());
    match helper::convert_unguarded(input.as_str()) {
        Err(e) => Err(e),
        Ok(spoken) => {
            proof {
                lemma_unwrapped_is_unmarked(spoken@);
            }
            Ok(unwrap_text(spoken.as_str()))
        },
    }
}

/// Speaks every number of `text` in words; another name of
/// [`numbers_to_word`].
pub fn all_numbers_to_word(text: &str) -> (r: Result<String, KorrektorError>)
    requires
        helper::numeral_guard_ready(),
    ensures
        outcome(r) == helper::numbers_text(text@),
        r is Ok ==> unmarked(r->Ok_0@),
{
    numbers_to_word(text)
}

} // verus!
