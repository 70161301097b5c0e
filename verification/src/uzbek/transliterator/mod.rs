//! Transliteration between the Latin and the Cyrillic script of Uzbek.
pub mod prelude;

use crate::utils::patterns::depth_behind;
use crate::utils::patterns::is_mark;
use crate::utils::patterns::matches_whole;
use crate::utils::wrappers::USERNAME_PATTERN;
use crate::utils::wrappers::URL_PATTERN;
use crate::utils::wrappers::MAIL_PATTERN;
use crate::utils::wrappers::lemma_guard_round_trip;
use crate::utils::wrappers::detected;
use crate::utils::patterns::sheltered;
use crate::utils::patterns::lemma_wrapped_whole;
use crate::utils::patterns::lemma_unwrapped_unmarked;
use crate::utils::patterns::lemma_unwrapped_first;
use crate::utils::patterns::lemma_sheltered_whole;
use crate::utils::patterns::lemma_kept_wrapped;
use crate::utils::patterns::lemma_kept_unmarked;
use crate::utils::patterns::kept;
use crate::utils::patterns::detector_found;
use crate::utils::patterns::later;
use crate::utils::patterns::lemma_unwrapped_is_unmarked;
use crate::utils::patterns::push_range;
use crate::utils::patterns::regex_accepts;
use crate::utils::patterns::regex_compiles;
use crate::utils::patterns::regex_find_spans;
use crate::utils::patterns::regex_found;
use crate::utils::patterns::regex_replace_all;
use crate::utils::patterns::regex_replaced;
use crate::utils::patterns::replace_pairs;
use crate::utils::patterns::rules_accepted;
use crate::utils::patterns::rules_applied;
use crate::utils::patterns::rules_compile;
use crate::utils::patterns::rules_view;
use crate::utils::patterns::step_depth;
use crate::utils::patterns::unmarked;
use crate::utils::patterns::unwrap_text;
use crate::utils::patterns::unwrapped;
use crate::utils::patterns::CLOSE_MARK;
use crate::utils::patterns::OPEN_MARK;
use crate::utils::text::char_index;
use crate::utils::text::index_at;
use crate::utils::text::substring;
use crate::utils::text::to_chars;
use crate::utils::wrappers::get_wrapped_text;
use crate::utils::wrappers::guard_ready;
use crate::utils::wrappers::guarded;
use prelude::letters_view;
use vstd::prelude::*;

verus! {

/// The lower-case form of a text, as `str::to_lowercase` gives it.
pub uninterp spec fn lowercase_of(s: Seq<char>) -> Seq<char>;

/// The upper-case form of a text, as `str::to_uppercase` gives it.
pub uninterp spec fn uppercase_of(s: Seq<char>) -> Seq<char>;

/// The title-case form of a text, as `inflector::Inflector::to_title_case`
/// gives it.
pub uninterp spec fn title_case_of(s: Seq<char>) -> Seq<char>;

/// Calls `str::to_lowercase`; the text that it returns is taken for what
/// [`lowercase_of`] names.
#[verifier::external_body]
fn to_lower(s: &str) -> (r: String)
    ensures
        r@ == lowercase_of(s@),
{
    s.to_lowercase()
}

/// Calls `str::to_uppercase`; the text that it returns is taken for what
/// [`uppercase_of`] names.
#[verifier::external_body]
fn to_upper(s: &str) -> (r: String)
    ensures
        r@ == uppercase_of(s@),
{
    s.to_uppercase()
}

/// Calls `inflector::Inflector::to_title_case`; the text that it returns is
/// taken for what [`title_case_of`] names.
#[verifier::external_body]
fn to_title(s: &str) -> (r: String)
    ensures
        r@ == title_case_of(s@),
{
    inflector::Inflector::to_title_case(s)
}

/// How a matched word is written.
#[derive(Debug, Clone, Copy, PartialEq, Eq, Structural)]
pub enum Casing {
    /// All in lower case.
    Lower,
    /// All in upper case.
    Upper,
    /// In title case.
    Title,
    /// In none of these.
    Other,
}

/// The casing of a word, given its three cased forms: the first form that
/// the word equals decides, in the order lower, upper, title.
pub open spec fn casing(
    matched: Seq<char>,
    lower: Seq<char>,
    upper: Seq<char>,
    title: Seq<char>,
) -> Casing {
    if matched == lower {
        Casing::Lower
    } else if matched == upper {
        Casing::Upper
    } else if matched == title {
        Casing::Title
    } else {
        Casing::Other
    }
}

/// The casing of `matched`, given its lower-case, upper-case and title-case
/// forms.
pub fn casing_of(matched: &str, lower: &str, upper: &str, title: &str) -> (r: Casing)
    ensures
        r == casing(matched@, lower@, upper@, title@),
{
    let word = String::from_str(matched);
    if word == String::from_str(lower) {
        Casing::Lower
    } else if word == String::from_str(upper) {
        Casing::Upper
    } else if word == String::from_str(title) {
        Casing::Title
    } else {
        Casing::Other
    }
}

/// The replacement in the casing of the word that it replaces: as it is for
/// a word in lower case, in upper case for a word in upper case, in title
/// case for a word in title case, and as it is for a word in any other
/// casing.
pub open spec fn cased(matched: Seq<char>, replacement: Seq<char>) -> Seq<char> {
    match casing(
        matched,
        lowercase_of(matched),
        uppercase_of(matched),
        title_case_of(matched),
    ) {
        Casing::Lower => replacement,
        Casing::Upper => uppercase_of(replacement),
        Casing::Title => title_case_of(replacement),
        Casing::Other => replacement,
    }
}

/// The replacement in the casing of `matched`.
pub fn recase(matched: &str, replacement: &str) -> (r: String)
    ensures
        r@ == cased(matched@, replacement@),
{
    let lower = to_lower(matched);
    let upper = to_upper(matched);
    let title = to_title(matched);
    match casing_of(matched, lower.as_str(), upper.as_str(), title.as_str()) {
        Casing::Lower => String::from_str(replacement),
        Casing::Upper => to_upper(replacement),
        Casing::Title => to_title(replacement),
        Casing::Other => String::from_str(replacement),
    }
}

/// The text from position `pos` on, with each span from the `j`-th on
/// replaced by the replacement in the casing of what the span holds. Spans
/// are read as in the marking of spans.
pub open spec fn recased_from(
    text: Seq<char>,
    spans: Seq<(usize, usize)>,
    j: int,
    pos: int,
    replacement: Seq<char>,
) -> Seq<char>
    decreases spans.len() - j,
{
    if pos < 0 || pos > text.len() {
        Seq::<char>::empty()
    } else if j < 0 || j >= spans.len() {
        text.skip(pos)
    } else {
        let start = later(index_at(text, spans[j].0 as nat) as int, pos);
        let end = later(index_at(text, spans[j].1 as nat) as int, start);
        text.subrange(pos, start) + cased(text.subrange(start, end), replacement) + recased_from(
            text,
            spans,
            j + 1,
            end,
            replacement,
        )
    }
}

/// The text with each span replaced by the replacement in the casing of
/// what the span holds.
pub open spec fn recased(text: Seq<char>, spans: Seq<(usize, usize)>, replacement: Seq<char>) -> Seq<
    char,
> {
    recased_from(text, spans, 0, 0, replacement)
}

/// Replaces each of the matches, from left to right, by `replacement` in the
/// casing of the match. A match is given by the byte offsets of its start
/// and end in `text`.
pub fn recase_matches(text: &str, matches: &Vec<(usize, usize)>, replacement: &str) -> (r: String)
    ensures
        r@ == recased(text@, matches@, replacement@),
{
    let chars = to_chars(text);
    let n = chars.len();
    let mut out = String::new();
    let mut pos: usize = 0;
    let mut j: usize = 0;
    while j < matches.len()
        invariant
            j <= matches.len(),
            pos <= n,
            n == chars.len(),
            chars@ == text@,
            out@ + recased_from(text@, matches@, j as int, pos as int, replacement@) == recased(
                text@,
                matches@,
                replacement@,
            ),
        decreases matches.len() - j,
    {
        let ghost before = out@;
        let span = matches[j];
        let at_start = char_index(&chars, span.0);
        let start: usize = if at_start < pos {
            pos
        } else {
            at_start
        };
        let at_end = char_index(&chars, span.1);
        let end: usize = if at_end < start {
            start
        } else {
            at_end
        };
        push_range(&mut out, &chars, pos, start);
        let matched = substring(&chars, start, end);
        let word = recase(matched.as_str(), replacement);
        out.append(word.as_str());
        assert(out@ + recased_from(text@, matches@, j + 1, end as int, replacement@) =~= before
            + recased_from(text@, matches@, j as int, pos as int, replacement@));
        pos = end;
        j += 1;
    }
    push_range(&mut out, &chars, pos, n);
    assert(chars@.subrange(pos as int, n as int) =~= chars@.skip(pos as int));
    out
}

/// The pattern under which a word of the list is looked for: at the
/// beginning of a word.
pub open spec fn word_pattern(word: Seq<char>) -> Seq<char> {
    "\\b"@ + word
}

/// Whether the engine accepts the pattern of every word of the list.
pub open spec fn words_accepted(rules: Seq<(Seq<char>, Seq<char>)>) -> bool {
    forall|i: int| 0 <= i < rules.len() ==> regex_accepts(word_pattern(#[trigger] rules[i].0))
}

/// A text after the words of the list have been replaced, one word of the
/// list after the other, each match by the word's replacement in the casing
/// of the match.
pub open spec fn words_replaced(text: Seq<char>, rules: Seq<(Seq<char>, Seq<char>)>) -> Seq<char>
    decreases rules.len(),
{
    if rules.len() == 0 {
        text
    } else {
        words_replaced(
            recased(text, regex_found(word_pattern(rules[0].0), text), rules[0].1),
            rules.skip(1),
        )
    }
}

/// Replaces the words of the list of set words by their Cyrillic forms, each
/// in the casing in which the text has the word.
pub fn retransliterate(input: &str) -> (r: String)
    requires
        words_accepted(prelude::retranslit_rules()),
    ensures
        r@ == words_replaced(input@, prelude::retranslit_rules()),
{
    let table = prelude::retranslit();
    let ghost rules = prelude::retranslit_rules();
    let mut text = String::from_str(input);
    let mut i: usize = 0;
    assert(rules.skip(0) =~= rules);
    while i < table.len()
        invariant
            i <= table.len(),
            rules == prelude::retranslit_rules(),
            rules == rules_view(table@),
            words_accepted(rules),
            words_replaced(text@, rules.skip(i as int)) == words_replaced(input@, rules),
        decreases table.len() - i,
    {
        let rule = table[i];
        assert(rules.skip(i as int)[0] == rules[i as int]);
        assert(rules.skip(i as int).skip(1) =~= rules.skip(i + 1));
        assert(rules[i as int].0 == rule.0@);
        assert(regex_accepts(word_pattern(rules[i as int].0)));
        let pattern = String::from_str("\\b").concat(rule.0);
        let found = regex_find_spans(pattern.as_str(), text.as_str());
        text = recase_matches(text.as_str(), &found, rule.1);
        i += 1;
    }
    text
}

/// Whether the engine accepts every letter of the list as a pattern.
pub open spec fn letters_accepted(letters: Seq<Seq<char>>) -> bool {
    forall|i: int| 0 <= i < letters.len() ==> regex_accepts(#[trigger] letters[i])
}

/// A text after each letter of the first list has been replaced, in order,
/// by the letter at its place in the second list.
pub open spec fn letters_applied(
    text: Seq<char>,
    input_alphabet: Seq<Seq<char>>,
    output_alphabet: Seq<Seq<char>>,
) -> Seq<char>
    decreases input_alphabet.len(),
{
    if input_alphabet.len() == 0 || output_alphabet.len() == 0 {
        text
    } else {
        letters_applied(
            regex_replaced(input_alphabet[0], text, output_alphabet[0]),
            input_alphabet.skip(1),
            output_alphabet.skip(1),
        )
    }
}

/// Replaces every letter of `input_alphabet` in `input`, in the order of the
/// list, by the letter at the same place in `output_alphabet`.
pub fn replace_letters(input: &str, input_alphabet: &[&str], output_alphabet: &[&str]) -> (r:
    String)
    requires
        input_alphabet@.len() <= output_alphabet@.len(),
        letters_accepted(letters_view(input_alphabet@)),
    ensures
        r@ == letters_applied(
            input@,
            letters_view(input_alphabet@),
            letters_view(output_alphabet@),
        ),
{
    let ghost ins = letters_view(input_alphabet@);
    let ghost outs = letters_view(output_alphabet@);
    let mut text = String::from_str(input);
    let mut i: usize = 0;
    assert(ins.skip(0) =~= ins);
    assert(outs.skip(0) =~= outs);
    while i < input_alphabet.len()
        invariant
            i <= input_alphabet.len(),
            input_alphabet@.len() <= output_alphabet@.len(),
            ins == letters_view(input_alphabet@),
            outs == letters_view(output_alphabet@),
            letters_accepted(ins),
            letters_applied(text@, ins.skip(i as int), outs.skip(i as int)) == letters_applied(
                input@,
                ins,
                outs,
            ),
        decreases input_alphabet.len() - i,
    {
        assert(ins.skip(i as int)[0] == ins[i as int]);
        assert(outs.skip(i as int)[0] == outs[i as int]);
        assert(ins.skip(i as int).skip(1) =~= ins.skip(i + 1));
        assert(outs.skip(i as int).skip(1) =~= outs.skip(i + 1));
        assert(regex_accepts(ins[i as int]));
        text = regex_replace_all(input_alphabet[i], text.as_str(), output_alphabet[i]);
        i += 1;
    }
    text
}

/// Whether the engine accepts every letter of the list as a pattern.
pub fn letters_compile(letters: &[&str]) -> (r: bool)
    ensures
        r == letters_accepted(letters_view(letters@)),
{
    let ghost view = letters_view(letters@);
    let mut i: usize = 0;
    while i < letters.len()
        invariant
            i <= letters.len(),
            view == letters_view(letters@),
            forall|j: int| 0 <= j < i ==> regex_accepts(#[trigger] view[j]),
        decreases letters.len() - i,
    {
        assert(view[i as int] == letters[i as int]@);
        if !regex_compiles(letters[i]) {
            return false;
        }
        i += 1;
    }
    true
}

/// Whether the engine accepts the pattern of every word of the list of set
/// words.
pub fn words_compile(rules: &[(&str, &str)]) -> (r: bool)
    ensures
        r == words_accepted(rules_view(rules@)),
{
    let ghost view = rules_view(rules@);
    let mut i: usize = 0;
    while i < rules.len()
        invariant
            i <= rules.len(),
            view == rules_view(rules@),
            forall|j: int| 0 <= j < i ==> regex_accepts(word_pattern(#[trigger] view[j].0)),
        decreases rules.len() - i,
    {
        let rule = rules[i];
        assert(view[i as int].0 == rule.0@);
        let pattern = String::from_str("\\b").concat(rule.0);
        if !regex_compiles(pattern.as_str()) {
            return false;
        }
        i += 1;
    }
    true
}

/// Whether the engine accepts the patterns of the rule sets that lead to
/// the Latin script.
pub open spec fn latin_ready() -> bool {
    &&& rules_accepted(prelude::pre_to_latin_rules())
    &&& letters_accepted(prelude::cyrillic_c2l_letters())
    &&& rules_accepted(prelude::to_latin_rules())
}

/// Whether the engine accepts the patterns of the rule sets that lead to
/// the Cyrillic script.
pub open spec fn cyrillic_ready() -> bool {
    &&& rules_accepted(prelude::to_cyr_rules())
    &&& rules_accepted(prelude::closing_quote_rules())
    &&& rules_accepted(prelude::pre_retranslit_rules())
    &&& words_accepted(prelude::retranslit_rules())
    &&& rules_accepted(prelude::post_retranslit_rules())
    &&& rules_accepted(prelude::to_cyr_sub_rules())
    &&& letters_accepted(prelude::latin_l2c_letters())
    &&& rules_accepted(prelude::to_cyr_correct_rules())
}

/// A text in the Latin script: the rules that prepare the Cyrillic text,
/// then the letters, then the rules that settle the Latin text.
pub open spec fn latin_text(text: Seq<char>) -> Seq<char> {
    rules_applied(
        letters_applied(
            rules_applied(text, prelude::pre_to_latin_rules()),
            prelude::cyrillic_c2l_letters(),
            prelude::latin_c2l_letters(),
        ),
        prelude::to_latin_rules(),
    )
}

/// A text in the Cyrillic script: the rules that prepare the Latin text,
/// the closing quotation marks, the quotation marks that are left, the set
/// words, the set phrases, the pairs of letters, the letters, and last the
/// rules that settle the Cyrillic text.
pub open spec fn cyrillic_text(text: Seq<char>) -> Seq<char> {
    let prepared = rules_applied(
        rules_applied(
            rules_applied(text, prelude::to_cyr_rules()),
            prelude::closing_quote_rules(),
        ),
        prelude::pre_retranslit_rules(),
    );
    let worded = rules_applied(
        rules_applied(
            words_replaced(prepared, prelude::retranslit_rules()),
            prelude::post_retranslit_rules(),
        ),
        prelude::to_cyr_sub_rules(),
    );
    rules_applied(
        letters_applied(worded, prelude::latin_l2c_letters(), prelude::cyrillic_l2c_letters()),
        prelude::to_cyr_correct_rules(),
    )
}

/// Transliterates a text into the Cyrillic script.
pub fn to_cyrillic(text: String) -> (r: String)
    requires
        cyrillic_ready(),
    ensures
        r@ == cyrillic_text(text@),
{
    let mut input = text;
    input = replace_pairs(input.as_str(), prelude::to_cyr().as_slice());
    input = replace_pairs(input.as_str(), prelude::closing_quote().as_slice());
    input = replace_pairs(input.as_str(), prelude::pre_retranslit().as_slice());
    input = retransliterate(input.as_str());
    input = replace_pairs(input.as_str(), prelude::post_retranslit().as_slice());
    input = replace_pairs(input.as_str(), prelude::to_cyr_sub().as_slice());
    let latin = prelude::latin_l2c();
    let cyrillic = prelude::cyrillic_l2c();
    proof {
        lemma_letter_counts();
    }
    input = replace_letters(input.as_str(), latin.as_slice(), cyrillic.as_slice());
    input = replace_pairs(input.as_str(), prelude::to_cyr_correct().as_slice());
    input
}

/// Transliterates a text into the Latin script.
pub fn to_latin(text: String) -> (r: String)
    requires
        latin_ready(),
    ensures
        r@ == latin_text(text@),
{
    let mut input = text;
    input = replace_pairs(input.as_str(), prelude::pre_to_latin().as_slice());
    let cyrillic = prelude::cyrillic_c2l();
    let latin = prelude::latin_c2l();
    proof {
        lemma_letter_counts();
    }
    input = replace_letters(input.as_str(), cyrillic.as_slice(), latin.as_slice());
    input = replace_pairs(input.as_str(), prelude::to_latin().as_slice());
    input
}

/// Each list of letters is as long as the list of what stands for them.
pub proof fn lemma_letter_counts()
    ensures
        prelude::cyrillic_c2l_letters().len() == prelude::latin_c2l_letters().len(),
        prelude::latin_l2c_letters().len() == prelude::cyrillic_l2c_letters().len(),
{
}


/// A text in one of the two scripts.
pub open spec fn in_script(text: Seq<char>, cyrillic: bool) -> Seq<char> {
    if cyrillic {
        cyrillic_text(text)
    } else {
        latin_text(text)
    }
}

/// A stretch between marks in one of the two scripts; an empty stretch
/// stays empty.
pub open spec fn stretch_in_script(stretch: Seq<char>, cyrillic: bool) -> Seq<char> {
    if stretch.len() > 0 {
        in_script(stretch, cyrillic)
    } else {
        stretch
    }
}

/// The stretch read so far as it goes into the result: in the script asked
/// for where no pair of marks is open around it, and as it is inside a pair.
pub open spec fn piece_in_script(current: Seq<char>, depth: nat, cyrillic: bool) -> Seq<char> {
    if depth == 0 {
        stretch_in_script(current, cyrillic)
    } else {
        current
    }
}

/// A marked text in one of the two scripts, with the marks that it held
/// left out, where `current` holds the stretch read since the last mark and
/// `depth` pairs are open. A mark ends a stretch; a stretch around which no
/// pair is open is transliterated, and a stretch inside a pair is guarded
/// and stays as it is, however deep.
pub open spec fn rewritten_outside(
    s: Seq<char>,
    current: Seq<char>,
    depth: nat,
    cyrillic: bool,
) -> Seq<char>
    decreases s.len(),
{
    if s.len() == 0 {
        piece_in_script(current, depth, cyrillic)
    } else if is_mark(s[0]) {
        piece_in_script(current, depth, cyrillic) + rewritten_outside(
            s.skip(1),
            Seq::<char>::empty(),
            depth_behind(s[0], depth),
            cyrillic,
        )
    } else {
        rewritten_outside(s.skip(1), current.push(s[0]), depth, cyrillic)
    }
}

/// Whether a name of a script asks for the Cyrillic script; every other
/// name asks for the Latin script.
pub open spec fn names_cyrillic(alphabet: Seq<char>) -> bool {
    alphabet == "cyr"@
}

/// What [`to`] makes of a text: its addresses, links and handles are
/// guarded, what stands outside them is transliterated, and every mark is
/// taken out of the result.
pub open spec fn to_text(text: Seq<char>, alphabet: Seq<char>) -> Seq<char> {
    unwrapped(rewritten_outside(guarded(text), Seq::<char>::empty(), 0, names_cyrillic(alphabet)))
}

proof fn lemma_sheltered_rewritten(s: Seq<char>, current: Seq<char>, depth: nat, cyrillic: bool)
    requires
        kept(s, depth as int, 0, 0),
        depth == 0 ==> current.len() == 0,
    ensures
        rewritten_outside(s, current, depth, cyrillic) == current + unwrapped(s),
    decreases s.len(),
{
    if depth == 0 {
        assert(current =~= Seq::<char>::empty());
    }
    assert(piece_in_script(current, depth, cyrillic) == current);
    if s.len() == 0 {
        assert(current + unwrapped(s) =~= current);
    } else {
        lemma_unwrapped_first(s);
        let rest = s.skip(1);
        if is_mark(s[0]) {
            lemma_sheltered_rewritten(
                rest,
                Seq::<char>::empty(),
                depth_behind(s[0], depth),
                cyrillic,
            );
            assert(current + (Seq::<char>::empty() + unwrapped(rest)) =~= current + unwrapped(s));
        } else {
            lemma_sheltered_rewritten(rest, current.push(s[0]), depth, cyrillic);
            assert(current.push(s[0]) + unwrapped(rest) =~= current + unwrapped(s));
        }
    }
}

/// In a text that is guarded throughout nothing is transliterated: it is
/// given back as it is, without its marks, in whichever script is asked for.
pub proof fn lemma_sheltered_is_kept(w: Seq<char>, cyrillic: bool)
    requires
        sheltered(w),
    ensures
        rewritten_outside(w, Seq::<char>::empty(), 0, cyrillic) == unwrapped(w),
{
    lemma_sheltered_rewritten(w, Seq::<char>::empty(), 0, cyrillic);
    assert(Seq::<char>::empty() + unwrapped(w) =~= unwrapped(w));
}

/// A text that one of the three detectors of the guard matches whole, when
/// its turn comes, is given back by [`to`] as it is, whatever the other
/// detectors find in it and whichever script is asked for.
pub proof fn lemma_to_keeps_match(text: Seq<char>, alphabet: Seq<char>)
    requires
        unmarked(text),
        ({
            let first = detected(text, MAIL_PATTERN@);
            let second = detected(first, URL_PATTERN@);
            ||| matches_whole(detector_found(MAIL_PATTERN@, text), text)
            ||| matches_whole(detector_found(URL_PATTERN@, first), first)
            ||| matches_whole(detector_found(USERNAME_PATTERN@, second), second)
        }),
    ensures
        to_text(text, alphabet) == text,
{
    let found_mail = detector_found(MAIL_PATTERN@, text);
    let first = detected(text, MAIL_PATTERN@);
    let found_url = detector_found(URL_PATTERN@, first);
    let second = detected(first, URL_PATTERN@);
    let found_name = detector_found(USERNAME_PATTERN@, second);
    let third = detected(second, USERNAME_PATTERN@);
    lemma_kept_unmarked(text, 0, 0, -1);
    if matches_whole(found_mail, text) {
        assert(found_mail =~= seq![(0usize, found_mail[0].1)]);
        lemma_wrapped_whole(text, found_mail[0].1);
        lemma_sheltered_whole(text);
        lemma_kept_wrapped(first, found_url, 0, 0, 0);
        lemma_kept_wrapped(second, found_name, 0, 0, 0);
    } else {
        lemma_kept_wrapped(text, found_mail, 0, 0, -1);
        if matches_whole(found_url, first) {
            assert(found_url =~= seq![(0usize, found_url[0].1)]);
            lemma_wrapped_whole(first, found_url[0].1);
            lemma_sheltered_whole(first);
            lemma_kept_wrapped(second, found_name, 0, 0, 0);
        } else {
            lemma_kept_wrapped(first, found_url, 0, 0, -1);
            assert(found_name =~= seq![(0usize, found_name[0].1)]);
            lemma_wrapped_whole(second, found_name[0].1);
            lemma_sheltered_whole(second);
        }
    }
    assert(third == guarded(text));
    lemma_sheltered_is_kept(third, names_cyrillic(alphabet));
    lemma_guard_round_trip(text);
    lemma_unwrapped_is_unmarked(third);
    lemma_unwrapped_unmarked(unwrapped(third));
}

/// A stretch in one of the two scripts.
fn transliterate_stretch(stretch: String, cyrillic: bool) -> (r: String)
    requires
        latin_ready(),
        cyrillic_ready(),
    ensures
        r@ == stretch_in_script(stretch@, cyrillic),
{
    if stretch.as_str().unicode_len() == 0 {
        stretch
    } else if cyrillic {
        to_cyrillic(stretch)
    } else {
        to_latin(stretch)
    }
}

/// Transliterates a text in which guarded spans are marked, and leaves its
/// marks out. What stands inside a pair of marks is kept as it is.
pub fn transliterate_unguarded(text: &str, cyrillic: bool) -> (r: String)
    requires
        latin_ready(),
        cyrillic_ready(),
    ensures
        r@ == rewritten_outside(text@, Seq::<char>::empty(), 0, cyrillic),
{
    let chars = to_chars(text);
    let n = chars.len();
    let mut out = String::new();
    let mut start: usize = 0;
    let mut depth: usize = 0;
    let mut i: usize = 0;
    assert(chars@.skip(0) =~= chars@);
    assert(chars@.subrange(0, 0) =~= Seq::<char>::empty());
    assert(out@ + rewritten_outside(chars@, Seq::<char>::empty(), 0, cyrillic)
        =~= rewritten_outside(chars@, Seq::<char>::empty(), 0, cyrillic));
    while i < n
        invariant
            start <= i <= n,
            depth <= i,
            n == chars.len(),
            chars@ == text@,
            latin_ready(),
            cyrillic_ready(),
            out@ + rewritten_outside(
                chars@.skip(i as int),
                chars@.subrange(start as int, i as int),
                depth as nat,
                cyrillic,
            ) == rewritten_outside(chars@, Seq::<char>::empty(), 0, cyrillic),
        decreases n - i,
    {
        let ghost rest = chars@.skip(i as int);
        let ghost current = chars@.subrange(start as int, i as int);
        let ghost before = out@;
        let c = chars[i];
        let ghost after = rewritten_outside(
            chars@.skip(i + 1),
            Seq::<char>::empty(),
            depth_behind(c, depth as nat),
            cyrillic,
        );
        assert(rest[0] == c);
        assert(rest.skip(1) =~= chars@.skip(i + 1));
        assert(chars@.subrange(i + 1, i + 1) =~= Seq::<char>::empty());
        if c == OPEN_MARK || c == CLOSE_MARK {
            if depth == 0 {
                let stretch = transliterate_stretch(substring(&chars, start, i), cyrillic);
                out.append(stretch.as_str());
            } else {
                push_range(&mut out, &chars, start, i);
            }
            assert(out@ + after =~= before + (piece_in_script(current, depth as nat, cyrillic)
                + after));
            depth = step_depth(c, depth);
            start = i + 1;
        } else {
            assert(chars@.subrange(start as int, i + 1) =~= current.push(c));
        }
        i += 1;
    }
    assert(chars@.skip(n as int) =~= Seq::<char>::empty());
    if depth == 0 {
        let stretch = transliterate_stretch(substring(&chars, start, n), cyrillic);
        out.append(stretch.as_str());
    } else {
        push_range(&mut out, &chars, start, n);
    }
    out
}

/// Transliterates `text` into the script that `alphabet` names: `cyr` for
/// the Cyrillic script; `lat`, and any other name, for the Latin script.
/// Addresses, links and handles stay as they are, and the result holds no
/// mark.
pub fn to(text: String, alphabet: &str) -> (r: String)
    requires
        guard_ready(),
        latin_ready(),
        cyrillic_ready(),
    ensures
        r@ == to_text(text@, alphabet@),
        unmarked(r@),
{
    let input = get_wrapped_text(text.as_str());
    let cyrillic = String::from_str(alphabet) == String::from_str("cyr");
    let written = transliterate_unguarded(input.as_str(), cyrillic);
    proof {
        lemma_unwrapped_is_unmarked(written@);
    }
    unwrap_text(written.as_str())
}

/// Whether the engine accepts every pattern of the transliteration.
pub fn transliterator_is_ready() -> (r: bool)
    ensures
        r == (latin_ready() && cyrillic_ready()),
{
    rules_compile(prelude::pre_to_latin().as_slice()) && letters_compile(
        prelude::cyrillic_c2l().as_slice(),
    ) && rules_compile(prelude::to_latin().as_slice()) && rules_compile(
        prelude::to_cyr().as_slice(),
    ) && rules_compile(prelude::closing_quote().as_slice()) && rules_compile(
        prelude::pre_retranslit().as_slice(),
    ) && words_compile(prelude::retranslit().as_slice()) && rules_compile(
        prelude::post_retranslit().as_slice(),
    ) && rules_compile(prelude::to_cyr_sub().as_slice()) && letters_compile(
        prelude::latin_l2c().as_slice(),
    ) && rules_compile(prelude::to_cyr_correct().as_slice())
}

} // verus!
