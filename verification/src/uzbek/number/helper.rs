//! Numerals inside a running text: the spans that are not read as numbers,
//! and the conversion of the digit runs outside them.
use crate::error::outcome;
use crate::error::ErrorView;
use crate::error::KorrektorError;
use crate::utils::patterns::detector_accepts;
use crate::utils::patterns::depth_behind;
use crate::utils::patterns::detector_compiles;
use crate::utils::patterns::is_mark;
use crate::utils::patterns::matches_whole;
use crate::utils::patterns::sheltered;
use crate::utils::patterns::lemma_unwrapped_unmarked;
use crate::utils::patterns::lemma_unwrapped_is_unmarked;
use crate::utils::patterns::lemma_unwrapped_first;
use crate::utils::patterns::lemma_sheltered_whole;
use crate::utils::patterns::lemma_kept_wrapped;
use crate::utils::patterns::lemma_kept_unmarked;
use crate::utils::patterns::kept;
use crate::utils::patterns::step_depth;
use crate::utils::patterns::detector_found;
use crate::utils::patterns::lemma_unwrap_wrap;
use crate::utils::patterns::unwrapped;
use crate::utils::patterns::lemma_wrapped_whole;
use crate::utils::patterns::unmarked;
use crate::utils::patterns::CLOSE_MARK;
use crate::utils::patterns::OPEN_MARK;
use crate::utils::text::substring;
use crate::utils::patterns::push_range;
use crate::utils::patterns::wrap_regex;
use crate::utils::text::to_chars;
use crate::utils::wrappers::detected;
use crate::uzbek::number::all_digits;
use crate::uzbek::number::float_words;
use crate::uzbek::number::integer_words;
use crate::uzbek::number::is_digit;
use crate::uzbek::number::speak_digits;
use crate::uzbek::number::speak_float;
use vstd::prelude::*;

verus! {

/// An address of the fourth version of the internet protocol: four groups of
/// one to three digits, joined by dots.
pub const IPV4_PATTERN: &'static str = "[0-9]{1,3}\\.[0-9]{1,3}\\.[0-9]{1,3}\\.[0-9]{1,3}";

/// An address of the sixth version of the internet protocol: eight groups of
/// hexadecimal digits joined by colons, the forms shortened by `::`, the
/// link-local form with a zone, and the forms that end in an address of the
/// fourth version.
pub const IPV6_PATTERN: &'static str =
    "(([0-9a-fA-F]{1,4}:){7,7}[0-9a-fA-F]{1,4}|([0-9a-fA-F]{1,4}:){1,7}:|([0-9a-fA-F]{1,4}:){1,6}:[0-9a-fA-F]{1,4}|([0-9a-fA-F]{1,4}:){1,5}(:[0-9a-fA-F]{1,4}){1,2}|([0-9a-fA-F]{1,4}:){1,4}(:[0-9a-fA-F]{1,4}){1,3}|([0-9a-fA-F]{1,4}:){1,3}(:[0-9a-fA-F]{1,4}){1,4}|([0-9a-fA-F]{1,4}:){1,2}(:[0-9a-fA-F]{1,4}){1,5}|[0-9a-fA-F]{1,4}:((:[0-9a-fA-F]{1,4}){1,6})|:((:[0-9a-fA-F]{1,4}){1,7}|:)|fe80:(:[0-9a-fA-F]{0,4}){0,4}%[0-9a-zA-Z]{1,}|::(ffff(:0{1,4}){0,1}:){0,1}((25[0-5]|(2[0-4]|1{0,1}[0-9]){0,1}[0-9])\\.){3,3}(25[0-5]|(2[0-4]|1{0,1}[0-9]){0,1}[0-9])|([0-9a-fA-F]{1,4}:){1,4}:((25[0-5]|(2[0-4]|1{0,1}[0-9]){0,1}[0-9])\\.){3,3}(25[0-5]|(2[0-4]|1{0,1}[0-9]){0,1}[0-9]))";

/// A telephone number of Uzbekistan in its full form: the country code 998,
/// an operator's code, and seven digits.
pub const PHONE_PATTERN: &'static str =
    "(998)(90|91|93|94|95|97|98|99|50|88|69|70|71|72|77|33)([0-9]{3})([0-9]{2})([0-9]{2})";

/// Whether the engine accepts the three patterns that guard numerals.
pub open spec fn numeral_guard_ready() -> bool {
    &&& detector_accepts(IPV4_PATTERN@)
    &&& detector_accepts(IPV6_PATTERN@)
    &&& detector_accepts(PHONE_PATTERN@)
}

/// Whether the engine accepts the three patterns that guard numerals.
pub fn numeral_guard_is_ready() -> (r: bool)
    ensures
        r == numeral_guard_ready(),
{
    detector_compiles(IPV4_PATTERN) && detector_compiles(IPV6_PATTERN) && detector_compiles(
        PHONE_PATTERN,
    )
}

/// A text with its internet addresses marked: those of the fourth version
/// first, then those of the sixth in what came of that.
pub open spec fn ips_guarded(text: Seq<char>) -> Seq<char> {
    detected(detected(text, IPV4_PATTERN@), IPV6_PATTERN@)
}

/// Marks the internet addresses, so that they are not read as numbers.
pub fn wrap_ips(input: &str) -> (r: String)
    requires
        detector_accepts(IPV4_PATTERN@),
        detector_accepts(IPV6_PATTERN@),
    ensures
        r@ == ips_guarded(input@),
{
    let result = wrap_regex(input, IPV4_PATTERN);
    wrap_regex(result.as_str(), IPV6_PATTERN)
}

/// Marks the telephone numbers, so that they are not read as numbers.
pub fn wrap_phones(input: &str) -> (r: String)
    requires
        detector_accepts(PHONE_PATTERN@),
    ensures
        r@ == detected(input@, PHONE_PATTERN@),
{
    wrap_regex(input, PHONE_PATTERN)
}

/// The number of digits that `s` begins with.
pub open spec fn digits_len(s: Seq<char>) -> nat
    decreases s.len(),
{
    if s.len() > 0 && is_digit(s[0]) {
        1 + digits_len(s.skip(1))
    } else {
        0
    }
}

/// The length of the decimal numeral that `s` begins with: a digit run, a
/// point and a digit run, each run as long as it goes; zero where `s` begins
/// with none.
pub open spec fn float_len(s: Seq<char>) -> nat {
    let whole = digits_len(s);
    if whole > 0 && whole < s.len() && s[whole as int] == '.' {
        let fraction = digits_len(s.skip(whole as int + 1));
        if fraction > 0 {
            whole + 1 + fraction
        } else {
            0
        }
    } else {
        0
    }
}

/// Two outcomes in a row: the first error, or the two texts joined.
pub open spec fn chained(
    head: Result<Seq<char>, ErrorView>,
    tail: Result<Seq<char>, ErrorView>,
) -> Result<Seq<char>, ErrorView> {
    match head {
        Err(e) => Err(e),
        Ok(h) => match tail {
            Err(e) => Err(e),
            Ok(t) => Ok(h + t),
        },
    }
}

/// Chaining outcomes does not depend on how they are grouped.
pub proof fn lemma_chained_grouping(
    done: Seq<char>,
    piece: Result<Seq<char>, ErrorView>,
    tail: Result<Seq<char>, ErrorView>,
)
    ensures
        chained(Ok(done), chained(piece, tail)) == chained(chained(Ok(done), piece), tail),
{
    match piece {
        Ok(p) => match tail {
            Ok(t) => {
                assert(done + (p + t) =~= (done + p) + t);
            },
            Err(e) => {},
        },
        Err(e) => {},
    }
}

/// A text with every decimal numeral spoken, read from the left: a digit
/// run that a point and a digit follow begins a numeral, which takes all the
/// digits behind the point; any other digit run stays as it is. The first
/// numeral that is not spoken gives its error.
pub open spec fn floats_spoken(s: Seq<char>) -> Result<Seq<char>, ErrorView>
    decreases s.len(),
{
    if s.len() == 0 {
        Ok(Seq::<char>::empty())
    } else {
        let token = float_len(s);
        let run = digits_len(s);
        if 0 < token <= s.len() {
            chained(float_words(s.take(token as int)), floats_spoken(s.skip(token as int)))
        } else if 0 < run <= s.len() {
            chained(Ok(s.take(run as int)), floats_spoken(s.skip(run as int)))
        } else {
            chained(Ok(seq![s[0]]), floats_spoken(s.skip(1)))
        }
    }
}

/// A text with every digit run spoken as an integer, read from the left. The
/// first run that is not spoken gives its error.
pub open spec fn integers_spoken(s: Seq<char>) -> Result<Seq<char>, ErrorView>
    decreases s.len(),
{
    if s.len() == 0 {
        Ok(Seq::<char>::empty())
    } else {
        let run = digits_len(s);
        if 0 < run <= s.len() {
            chained(integer_words(s.take(run as int)), integers_spoken(s.skip(run as int)))
        } else {
            chained(Ok(seq![s[0]]), integers_spoken(s.skip(1)))
        }
    }
}

/// A text without a digit holds no numeral: it stays as it is.
pub proof fn lemma_no_digit_no_change(s: Seq<char>)
    requires
        forall|i: int| 0 <= i < s.len() ==> !is_digit(#[trigger] s[i]),
    ensures
        floats_spoken(s) == Ok::<Seq<char>, ErrorView>(s),
        integers_spoken(s) == Ok::<Seq<char>, ErrorView>(s),
        numerals_spoken(s) == Ok::<Seq<char>, ErrorView>(s),
    decreases s.len(),
{
    if s.len() > 0 {
        let rest = s.skip(1);
        assert forall|i: int| 0 <= i < rest.len() implies !is_digit(#[trigger] rest[i]) by {
            assert(rest[i] == s[i + 1]);
        }
        lemma_no_digit_no_change(rest);
        assert(!is_digit(s[0]));
        assert(digits_len(s) == 0);
        assert(float_len(s) == 0);
        assert(seq![s[0]] + rest =~= s);
    } else {
        assert(s =~= Seq::<char>::empty());
    }
}

/// With the marks taken out, a text with its internet addresses and
/// telephone numbers marked is the text that was marked.
pub proof fn lemma_numeral_guard_round_trip(text: Seq<char>)
    ensures
        unwrapped(numerals_guarded(text)) == unwrapped(text),
{
    let first = detected(text, IPV4_PATTERN@);
    let second = detected(first, IPV6_PATTERN@);
    lemma_unwrap_wrap(text, detector_found(IPV4_PATTERN@, text));
    lemma_unwrap_wrap(first, detector_found(IPV6_PATTERN@, first));
    lemma_unwrap_wrap(second, detector_found(PHONE_PATTERN@, second));
}

/// A run of digits is no longer than the text, is made of digits, and ends
/// at the end of the text or before a character that is no digit.
pub proof fn lemma_digits_len(s: Seq<char>)
    ensures
        digits_len(s) <= s.len(),
        all_digits(s.take(digits_len(s) as int)),
        digits_len(s) < s.len() ==> !is_digit(s[digits_len(s) as int]),
    decreases s.len(),
{
    if s.len() > 0 && is_digit(s[0]) {
        let rest = s.skip(1);
        lemma_digits_len(rest);
        let n = digits_len(s) as int;
        assert forall|i: int| 0 <= i < n implies is_digit(#[trigger] s.take(n)[i]) by {
            if i > 0 {
                assert(rest.take(n - 1)[i - 1] == s[i]);
            }
        }
        if n < s.len() {
            assert(rest[n - 1] == s[n]);
        }
    } else {
        assert(s.take(0) =~= Seq::<char>::empty());
    }
}

/// The end of the digit run that begins at `start`.
fn digit_run(chars: &Vec<char>, start: usize) -> (end: usize)
    requires
        start <= chars.len(),
    ensures
        start <= end <= chars.len(),
        end - start == digits_len(chars@.skip(start as int)),
        all_digits(chars@.subrange(start as int, end as int)),
{
    let mut i: usize = start;
    while i < chars.len() && chars[i] >= '0' && chars[i] <= '9'
        invariant
            start <= i <= chars.len(),
            digits_len(chars@.skip(start as int)) == (i - start) + digits_len(
                chars@.skip(i as int),
            ),
        decreases chars.len() - i,
    {
        assert(chars@.skip(i as int)[0] == chars@[i as int]);
        assert(chars@.skip(i as int).skip(1) =~= chars@.skip(i + 1));
        i += 1;
    }
    proof {
        if i < chars.len() {
            assert(chars@.skip(i as int)[0] == chars@[i as int]);
        }
        lemma_digits_len(chars@.skip(start as int));
        assert(chars@.skip(start as int).take(i - start) =~= chars@.subrange(
            start as int,
            i as int,
        ));
    }
    i
}

/// Speaks every decimal numeral of `text`; digit runs that are no decimal
/// numeral stay.
pub fn convert_floats(text: &str) -> (r: Result<String, KorrektorError>)
    ensures
        outcome(r) == floats_spoken(text@),
{
    let chars = to_chars(text);
    let n = chars.len();
    let mut out = String::new();
    let mut i: usize = 0;
    assert(chars@.skip(0) =~= chars@);
    while i < n
        invariant
            i <= n,
            n == chars.len(),
            chars@ == text@,
            floats_spoken(chars@) == chained(
                Ok(out@),
                floats_spoken(chars@.skip(i as int)),
            ),
        decreases n - i,
    {
        let ghost rest = chars@.skip(i as int);
        let ghost before = out@;
        assert(rest[0] == chars@[i as int]);
        let whole_end = digit_run(&chars, i);
        let mut token_end: usize = i;
        if whole_end > i && whole_end < n && chars[whole_end] == '.' {
            let fraction_end = digit_run(&chars, whole_end + 1);
            if fraction_end > whole_end + 1 {
                token_end = fraction_end;
            }
            assert(rest.skip(whole_end - i + 1) =~= chars@.skip(whole_end + 1));
        }
        proof {
            if whole_end < n {
                assert(rest[whole_end - i] == chars@[whole_end as int]);
            }
            assert(float_len(rest) == token_end - i);
        }
        if token_end > i {
            assert(rest.take(token_end - i) =~= chars@.subrange(i as int, token_end as int));
            assert(rest.skip(token_end - i) =~= chars@.skip(token_end as int));
            proof {
                lemma_chained_grouping(
                    before,
                    float_words(rest.take(token_end - i)),
                    floats_spoken(chars@.skip(token_end as int)),
                );
            }
            match speak_float(&chars, i, whole_end, token_end) {
                Err(e) => {
                    return Err(e);
                },
                Ok(words) => {
                    out.append(words.as_str());
                    i = token_end;
                },
            }
        } else if whole_end > i {
            assert(rest.take(whole_end - i) =~= chars@.subrange(i as int, whole_end as int));
            assert(rest.skip(whole_end - i) =~= chars@.skip(whole_end as int));
            proof {
                lemma_chained_grouping(
                    before,
                    Ok(rest.take(whole_end - i)),
                    floats_spoken(chars@.skip(whole_end as int)),
                );
            }
            push_range(&mut out, &chars, i, whole_end);
            i = whole_end;
        } else {
            assert(rest.skip(1) =~= chars@.skip(i + 1));
            proof {
                lemma_chained_grouping(
                    before,
                    Ok(seq![rest[0]]),
                    floats_spoken(chars@.skip(i + 1)),
                );
            }
            out.push(chars[i]);
            assert(out@ =~= before + seq![rest[0]]);
            i += 1;
        }
    }
    assert(out@ + Seq::<char>::empty() =~= out@);
    Ok(out)
}

/// Speaks every digit run of `text` as an integer.
pub fn convert_integers(text: &str) -> (r: Result<String, KorrektorError>)
    ensures
        outcome(r) == integers_spoken(text@),
{
    let chars = to_chars(text);
    let n = chars.len();
    let mut out = String::new();
    let mut i: usize = 0;
    assert(chars@.skip(0) =~= chars@);
    while i < n
        invariant
            i <= n,
            n == chars.len(),
            chars@ == text@,
            integers_spoken(chars@) == chained(
                Ok(out@),
                integers_spoken(chars@.skip(i as int)),
            ),
        decreases n - i,
    {
        let ghost rest = chars@.skip(i as int);
        let ghost before = out@;
        assert(rest[0] == chars@[i as int]);
        let run_end = digit_run(&chars, i);
        if run_end > i {
            assert(rest.take(run_end - i) =~= chars@.subrange(i as int, run_end as int));
            assert(rest.skip(run_end - i) =~= chars@.skip(run_end as int));
            proof {
                lemma_chained_grouping(
                    before,
                    integer_words(rest.take(run_end - i)),
                    integers_spoken(chars@.skip(run_end as int)),
                );
            }
            match speak_digits(&chars, i, run_end) {
                Err(e) => {
                    return Err(e);
                },
                Ok(words) => {
                    out.append(words.as_str());
                    i = run_end;
                },
            }
        } else {
            assert(rest.skip(1) =~= chars@.skip(i + 1));
            proof {
                lemma_chained_grouping(
                    before,
                    Ok(seq![rest[0]]),
                    integers_spoken(chars@.skip(i + 1)),
                );
            }
            out.push(chars[i]);
            assert(out@ =~= before + seq![rest[0]]);
            i += 1;
        }
    }
    assert(out@ + Seq::<char>::empty() =~= out@);
    Ok(out)
}


/// A stretch of text with its numerals spoken: the decimal numerals first,
/// then the digit runs that are left.
pub open spec fn numerals_spoken(run: Seq<char>) -> Result<Seq<char>, ErrorView> {
    match floats_spoken(run) {
        Err(e) => Err(e),
        Ok(t) => integers_spoken(t),
    }
}

/// The stretch read so far as it goes into the result: with its numerals
/// spoken where no pair of marks is open around it, and as it is inside a
/// pair.
pub open spec fn piece_spoken(current: Seq<char>, depth: nat) -> Result<Seq<char>, ErrorView> {
    if depth == 0 {
        numerals_spoken(current)
    } else {
        Ok(current)
    }
}

/// A marked text with its numerals spoken and the marks that it held left
/// out, where `current` holds the stretch read since the last mark and
/// `depth` pairs are open. A mark ends a stretch; a stretch around which no
/// pair is open has its numerals spoken, and a stretch inside a pair is
/// guarded and stays as it is, however deep. The first numeral that is not
/// spoken gives its error.
pub open spec fn spoken_outside(s: Seq<char>, current: Seq<char>, depth: nat) -> Result<
    Seq<char>,
    ErrorView,
>
    decreases s.len(),
{
    if s.len() == 0 {
        piece_spoken(current, depth)
    } else if is_mark(s[0]) {
        chained(
            piece_spoken(current, depth),
            spoken_outside(s.skip(1), Seq::<char>::empty(), depth_behind(s[0], depth)),
        )
    } else {
        spoken_outside(s.skip(1), current.push(s[0]), depth)
    }
}

/// A text with its internet addresses and telephone numbers marked.
pub open spec fn numerals_guarded(text: Seq<char>) -> Seq<char> {
    detected(ips_guarded(text), PHONE_PATTERN@)
}

/// What the conversion of all numbers makes of a text: the numerals outside
/// the guarded spans are spoken, and every mark is taken out of the result.
pub open spec fn numbers_text(text: Seq<char>) -> Result<Seq<char>, ErrorView> {
    match spoken_outside(numerals_guarded(text), Seq::<char>::empty(), 0) {
        Ok(spoken) => Ok(unwrapped(spoken)),
        Err(e) => Err(e),
    }
}

proof fn lemma_sheltered_spoken(s: Seq<char>, current: Seq<char>, depth: nat)
    requires
        kept(s, depth as int, 0, 0),
        depth == 0 ==> current.len() == 0,
    ensures
        spoken_outside(s, current, depth) == Ok::<Seq<char>, ErrorView>(current + unwrapped(s)),
    decreases s.len(),
{
    reveal_with_fuel(floats_spoken, 2);
    reveal_with_fuel(integers_spoken, 2);
    assert(numerals_spoken(Seq::<char>::empty()) == Ok::<Seq<char>, ErrorView>(
        Seq::<char>::empty(),
    ));
    if depth == 0 {
        assert(current =~= Seq::<char>::empty());
    }
    assert(piece_spoken(current, depth) == Ok::<Seq<char>, ErrorView>(current));
    if s.len() == 0 {
        assert(current + unwrapped(s) =~= current);
    } else {
        lemma_unwrapped_first(s);
        let rest = s.skip(1);
        if is_mark(s[0]) {
            lemma_sheltered_spoken(rest, Seq::<char>::empty(), depth_behind(s[0], depth));
            assert(current + (Seq::<char>::empty() + unwrapped(rest)) =~= current + unwrapped(s));
        } else {
            lemma_sheltered_spoken(rest, current.push(s[0]), depth);
            assert(current.push(s[0]) + unwrapped(rest) =~= current + unwrapped(s));
        }
    }
}

/// In a text that is guarded throughout nothing is spoken: it is given back
/// as it is, without its marks.
pub proof fn lemma_sheltered_is_kept(w: Seq<char>)
    requires
        sheltered(w),
    ensures
        spoken_outside(w, Seq::<char>::empty(), 0) == Ok::<Seq<char>, ErrorView>(unwrapped(w)),
{
    lemma_sheltered_spoken(w, Seq::<char>::empty(), 0);
    assert(Seq::<char>::empty() + unwrapped(w) =~= unwrapped(w));
}

/// A text that one of the three detectors matches whole, when its turn
/// comes, is left completely unconverted, whatever the other detectors find
/// in it: no digit of it is spoken, and no mark is left in the result.
pub proof fn lemma_numbers_keep_match(text: Seq<char>)
    requires
        unmarked(text),
        ({
            let first = detected(text, IPV4_PATTERN@);
            let second = detected(first, IPV6_PATTERN@);
            ||| matches_whole(detector_found(IPV4_PATTERN@, text), text)
            ||| matches_whole(detector_found(IPV6_PATTERN@, first), first)
            ||| matches_whole(detector_found(PHONE_PATTERN@, second), second)
        }),
    ensures
        numbers_text(text) == Ok::<Seq<char>, ErrorView>(text),
{
    let found4 = detector_found(IPV4_PATTERN@, text);
    let first = detected(text, IPV4_PATTERN@);
    let found6 = detector_found(IPV6_PATTERN@, first);
    let second = detected(first, IPV6_PATTERN@);
    let found_phone = detector_found(PHONE_PATTERN@, second);
    let third = detected(second, PHONE_PATTERN@);
    lemma_kept_unmarked(text, 0, 0, -1);
    if matches_whole(found4, text) {
        assert(found4 =~= seq![(0usize, found4[0].1)]);
        lemma_wrapped_whole(text, found4[0].1);
        lemma_sheltered_whole(text);
        lemma_kept_wrapped(first, found6, 0, 0, 0);
        lemma_kept_wrapped(second, found_phone, 0, 0, 0);
    } else {
        lemma_kept_wrapped(text, found4, 0, 0, -1);
        if matches_whole(found6, first) {
            assert(found6 =~= seq![(0usize, found6[0].1)]);
            lemma_wrapped_whole(first, found6[0].1);
            lemma_sheltered_whole(first);
            lemma_kept_wrapped(second, found_phone, 0, 0, 0);
        } else {
            lemma_kept_wrapped(first, found6, 0, 0, -1);
            assert(found_phone =~= seq![(0usize, found_phone[0].1)]);
            lemma_wrapped_whole(second, found_phone[0].1);
            lemma_sheltered_whole(second);
        }
    }
    lemma_sheltered_is_kept(third);
    lemma_numeral_guard_round_trip(text);
    lemma_unwrapped_unmarked(text);
    lemma_unwrapped_is_unmarked(third);
    lemma_unwrapped_unmarked(unwrapped(third));
}

/// Speaks the numerals of a text in which guarded spans are marked, and
/// leaves its marks out. What stands inside a pair of marks is kept as it
/// is.
pub fn convert_unguarded(text: &str) -> (r: Result<String, KorrektorError>)
    ensures
        outcome(r) == spoken_outside(text@, Seq::<char>::empty(), 0),
{
    let chars = to_chars(text);
    let n = chars.len();
    let mut out = String::new();
    let mut start: usize = 0;
    let mut depth: usize = 0;
    let mut i: usize = 0;
    assert(chars@.skip(0) =~= chars@);
    assert(chars@.subrange(0, 0) =~= Seq::<char>::empty());
    proof {
        match spoken_outside(chars@, Seq::<char>::empty(), 0) {
            Ok(t) => {
                assert(Seq::<char>::empty() + t =~= t);
            },
            Err(e) => {},
        }
    }
    while i < n
        invariant
            start <= i <= n,
            depth <= i,
            n == chars.len(),
            chars@ == text@,
            spoken_outside(chars@, Seq::<char>::empty(), 0) == chained(
                Ok(out@),
                spoken_outside(
                    chars@.skip(i as int),
                    chars@.subrange(start as int, i as int),
                    depth as nat,
                ),
            ),
        decreases n - i,
    {
        let ghost rest = chars@.skip(i as int);
        let ghost current = chars@.subrange(start as int, i as int);
        let ghost before = out@;
        let c = chars[i];
        let ghost after = spoken_outside(
            chars@.skip(i + 1),
            Seq::<char>::empty(),
            depth_behind(c, depth as nat),
        );
        assert(rest[0] == c);
        assert(rest.skip(1) =~= chars@.skip(i + 1));
        assert(chars@.subrange(i + 1, i + 1) =~= Seq::<char>::empty());
        if c == OPEN_MARK || c == CLOSE_MARK {
            proof {
                lemma_chained_grouping(before, piece_spoken(current, depth as nat), after);
            }
            if depth == 0 {
                let run = substring(&chars, start, i);
                let floats = match convert_floats(run.as_str()) {
                    Err(e) => {
                        return Err(e);
                    },
                    Ok(t) => t,
                };
                let spoken = match convert_integers(floats.as_str()) {
                    Err(e) => {
                        return Err(e);
                    },
                    Ok(t) => t,
                };
                out.append(spoken.as_str());
            } else {
                push_range(&mut out, &chars, start, i);
            }
            depth = step_depth(c, depth);
            start = i + 1;
        } else {
            assert(chars@.subrange(start as int, i + 1) =~= current.push(c));
        }
        i += 1;
    }
    assert(chars@.skip(n as int) =~= Seq::<char>::empty());
    if depth == 0 {
        let run = substring(&chars, start, n);
        let floats = match convert_floats(run.as_str()) {
            Err(e) => {
                return Err(e);
            },
            Ok(t) => t,
        };
        let spoken = match convert_integers(floats.as_str()) {
            Err(e) => {
                return Err(e);
            },
            Ok(t) => t,
        };
        out.append(spoken.as_str());
    } else {
        push_range(&mut out, &chars, start, n);
    }
    Ok(out)
}

} // verus!
