//! Orthographic correction, and what the checking of spelling needs of the
//! library: the stretches of a text that are checked, and the record of a
//! misspelled word.
pub mod prelude;

use crate::utils::patterns::replace_pairs;
use crate::utils::patterns::rules_accepted;
use crate::utils::patterns::rules_applied;
use crate::utils::patterns::rules_compile;
use crate::utils::patterns::depth_behind;
use crate::utils::patterns::is_mark;
use crate::utils::patterns::sheltered;
use crate::utils::patterns::kept;
use crate::utils::patterns::step_depth;
use crate::utils::patterns::CLOSE_MARK;
use crate::utils::patterns::OPEN_MARK;
use crate::utils::text::substring;
use crate::utils::text::to_chars;
use crate::utils::wrappers::get_wrapped_text;
use crate::utils::wrappers::guard_ready;
use crate::utils::wrappers::guarded;
use vstd::prelude::*;

verus! {

/// A misspelled word: the word, the place at which it was found in the
/// stretch that was checked, and the corrections that are suggested for it,
/// best first.
#[derive(Debug, PartialEq)]
pub struct KorrektorBadWord {
    misspelled: String,
    position: usize,
    suggestions: Vec<String>,
}

impl KorrektorBadWord {
    /// The record of a misspelled word.
    pub fn new(misspelled: String, position: usize, suggestions: Vec<String>) -> (r: Self)
        ensures
            r.misspelled_view() == misspelled@,
            r.position_view() == position,
            r.suggestions_view() == suggestions.deep_view(),
    {
        KorrektorBadWord { misspelled, position, suggestions }
    }

    /// The misspelled word, by its characters.
    pub closed spec fn misspelled_view(&self) -> Seq<char> {
        self.misspelled@
    }

    /// The place of the word.
    pub closed spec fn position_view(&self) -> usize {
        self.position
    }

    /// The suggestions, each by its characters.
    pub closed spec fn suggestions_view(&self) -> Seq<Seq<char>> {
        self.suggestions.deep_view()
    }

    /// The misspelled word.
    pub fn misspelled(&self) -> (r: &str)
        ensures
            r@ == self.misspelled_view(),
    {
        self.misspelled.as_str()
    }

    /// The place of the word in the stretch that was checked.
    pub fn position(&self) -> (r: usize)
        ensures
            r == self.position_view(),
    {
        self.position
    }

    /// The suggested corrections, best first.
    pub fn suggestions(&self) -> (r: &Vec<String>)
        ensures
            r.deep_view() == self.suggestions_view(),
    {
        &self.suggestions
    }
}

/// Whether the engine accepts the patterns of the corrector.
pub open spec fn corrector_ready() -> bool {
    &&& rules_accepted(prelude::correct_rules())
    &&& rules_accepted(prelude::settle_rules())
    &&& rules_accepted(prelude::modifiers_rules())
}

/// Whether the engine accepts the patterns of the corrector.
pub fn corrector_is_ready() -> (r: bool)
    ensures
        r == corrector_ready(),
{
    rules_compile(prelude::correct().as_slice()) && rules_compile(prelude::settle().as_slice())
        && rules_compile(prelude::modifiers().as_slice())
}

/// A text without what the checking of spelling does not look at.
pub open spec fn modifiers_removed(text: Seq<char>) -> Seq<char> {
    rules_applied(text, prelude::modifiers_rules())
}

/// A text with its spelling corrected: the corrections, then what is
/// settled after them.
pub open spec fn corrected(text: Seq<char>) -> Seq<char> {
    rules_applied(rules_applied(text, prelude::correct_rules()), prelude::settle_rules())
}

/// Takes out of `text` what the checking of spelling does not look at:
/// abbreviations and words with capitals inside, particles joined by a
/// hyphen, and hyphens.
pub fn remove_modifiers(text: &str) -> (r: String)
    requires
        rules_accepted(prelude::modifiers_rules()),
    ensures
        r@ == modifiers_removed(text@),
{
    replace_pairs(text, prelude::modifiers().as_slice())
}

/// Corrects the spelling of `text` by the rules of the corrector.
pub fn correct(text: &str) -> (r: String)
    requires
        rules_accepted(prelude::correct_rules()),
        rules_accepted(prelude::settle_rules()),
    ensures
        r@ == corrected(text@),
{
    let input = replace_pairs(text, prelude::correct().as_slice());
    replace_pairs(input.as_str(), prelude::settle().as_slice())
}

/// The name under which the speller knows a script: that of the
/// Cyrillic script for `cyr`, that of the Latin script for `lat` and for
/// every other name.
pub open spec fn language_of(lang: Seq<char>) -> Seq<char> {
    if lang == "cyr"@ {
        "uz-cyr"@
    } else {
        "uz-lat"@
    }
}

/// The name under which the speller knows the script `lang`.
pub fn language_tag(lang: &str) -> (r: &'static str)
    ensures
        r@ == language_of(lang@),
{
    if String::from_str(lang) == String::from_str("cyr") {
        "uz-cyr"
    } else {
        "uz-lat"
    }
}

/// The stretch read so far as a list of at most one stretch: an empty
/// stretch is none.
pub open spec fn closed_stretch(current: Seq<char>) -> Seq<Seq<char>> {
    if current.len() > 0 {
        seq![current]
    } else {
        Seq::<Seq<char>>::empty()
    }
}

/// The stretch read so far as a list of stretches to check: none where the
/// stretch is empty or stands inside a pair of marks.
pub open spec fn open_stretch(current: Seq<char>, depth: nat) -> Seq<Seq<char>> {
    if depth == 0 {
        closed_stretch(current)
    } else {
        Seq::<Seq<char>>::empty()
    }
}

/// The stretches of a marked text that stand outside every pair of marks,
/// where `current` holds the stretch read since the last mark and `depth`
/// pairs are open: a mark ends a stretch, and a stretch counts where no pair
/// is open around it.
pub open spec fn stretches_outside(s: Seq<char>, current: Seq<char>, depth: nat) -> Seq<Seq<char>>
    decreases s.len(),
{
    if s.len() == 0 {
        open_stretch(current, depth)
    } else if is_mark(s[0]) {
        open_stretch(current, depth) + stretches_outside(
            s.skip(1),
            Seq::<char>::empty(),
            depth_behind(s[0], depth),
        )
    } else {
        stretches_outside(s.skip(1), current.push(s[0]), depth)
    }
}

/// The stretches of a marked text that stand outside every pair of marks, in
/// order: what the speller is given, one stretch at a time.
pub fn unguarded_stretches(text: &str) -> (r: Vec<String>)
    ensures
        r.deep_view() == stretches_outside(text@, Seq::<char>::empty(), 0),
{
    let chars = to_chars(text);
    let n = chars.len();
    let mut found: Vec<String> = Vec::new();
    let mut start: usize = 0;
    let mut depth: usize = 0;
    let mut i: usize = 0;
    assert(chars@.skip(0) =~= chars@);
    assert(chars@.subrange(0, 0) =~= Seq::<char>::empty());
    assert(found.deep_view() =~= Seq::<Seq<char>>::empty());
    while i < n
        invariant
            start <= i <= n,
            depth <= i,
            n == chars.len(),
            chars@ == text@,
            found.deep_view() + stretches_outside(
                chars@.skip(i as int),
                chars@.subrange(start as int, i as int),
                depth as nat,
            ) == stretches_outside(chars@, Seq::<char>::empty(), 0),
        decreases n - i,
    {
        let ghost rest = chars@.skip(i as int);
        let ghost current = chars@.subrange(start as int, i as int);
        let ghost before = found.deep_view();
        let c = chars[i];
        let ghost after = stretches_outside(
            chars@.skip(i + 1),
            Seq::<char>::empty(),
            depth_behind(c, depth as nat),
        );
        assert(rest[0] == c);
        assert(rest.skip(1) =~= chars@.skip(i + 1));
        assert(chars@.subrange(i + 1, i + 1) =~= Seq::<char>::empty());
        if c == OPEN_MARK || c == CLOSE_MARK {
            if depth == 0 && start < i {
                found.push(substring(&chars, start, i));
                assert(found.deep_view() =~= before + seq![current]);
            }
            assert(found.deep_view() + after =~= before + (open_stretch(current, depth as nat)
                + after));
            depth = step_depth(c, depth);
            start = i + 1;
        } else {
            assert(chars@.subrange(start as int, i + 1) =~= current.push(c));
        }
        i += 1;
    }
    let ghost before = found.deep_view();
    let ghost current = chars@.subrange(start as int, n as int);
    assert(chars@.skip(n as int) =~= Seq::<char>::empty());
    if depth == 0 && start < n {
        found.push(substring(&chars, start, n));
        assert(found.deep_view() =~= before + seq![current]);
    } else {
        assert(before + open_stretch(current, depth as nat) =~= before);
    }
    found
}

proof fn lemma_sheltered_stretches(s: Seq<char>, current: Seq<char>, depth: nat)
    requires
        kept(s, depth as int, 0, 0),
        depth == 0 ==> current.len() == 0,
    ensures
        stretches_outside(s, current, depth) == Seq::<Seq<char>>::empty(),
    decreases s.len(),
{
    if depth == 0 {
        assert(current =~= Seq::<char>::empty());
    }
    assert(open_stretch(current, depth) == Seq::<Seq<char>>::empty());
    if s.len() > 0 {
        let rest = s.skip(1);
        if is_mark(s[0]) {
            lemma_sheltered_stretches(rest, Seq::<char>::empty(), depth_behind(s[0], depth));
            assert(Seq::<Seq<char>>::empty() + Seq::<Seq<char>>::empty() =~= Seq::<
                Seq<char>,
            >::empty());
        } else {
            lemma_sheltered_stretches(rest, current.push(s[0]), depth);
        }
    }
}

/// Of a text that is guarded throughout nothing is shown to the speller.
pub proof fn lemma_sheltered_is_not_checked(w: Seq<char>)
    requires
        sheltered(w),
    ensures
        stretches_outside(w, Seq::<char>::empty(), 0) == Seq::<Seq<char>>::empty(),
{
    lemma_sheltered_stretches(w, Seq::<char>::empty(), 0);
}

/// The findings of several checks in a row.
pub open spec fn gathered(parts: Seq<Vec<KorrektorBadWord>>) -> Seq<KorrektorBadWord>
    decreases parts.len(),
{
    if parts.len() == 0 {
        Seq::<KorrektorBadWord>::empty()
    } else {
        gathered(parts.drop_last()) + parts.last()@
    }
}

/// Whether `parts` are answers of the speller `spell` to the stretches, one
/// answer to each stretch in order, each asked under the name `tag`.
pub open spec fn answered<F: Fn(String, String) -> Vec<KorrektorBadWord>>(
    spell: F,
    stretches: Seq<Seq<char>>,
    tag: Seq<char>,
    asked: Seq<(String, String)>,
    parts: Seq<Vec<KorrektorBadWord>>,
) -> bool {
    &&& asked.len() == stretches.len()
    &&& parts.len() == stretches.len()
    &&& forall|k: int|
        0 <= k < stretches.len() ==> {
            &&& (#[trigger] asked[k]).0@ == stretches[k]
            &&& asked[k].1@ == tag
            &&& call_ensures(spell, asked[k], parts[k])
        }
}

/// Checks the spelling of a text in which guarded spans are marked.
///
/// The speller `spell` is asked once for each stretch outside the guarded
/// spans, in order, with the stretch and the name of the script under which
/// the speller knows it. What it finds is given back in the order in which
/// it was found. Nothing that stands in a guarded span is shown to the
/// speller.
pub fn check_wrapped_text<F: Fn(String, String) -> Vec<KorrektorBadWord>>(
    text: &str,
    lang: &str,
    spell: F,
) -> (r: Vec<KorrektorBadWord>)
    requires
        forall|stretch: String, tag: String| call_requires(spell, (stretch, tag)),
    ensures
        exists|asked: Seq<(String, String)>, parts: Seq<Vec<KorrektorBadWord>>|
            answered(
                spell,
                stretches_outside(text@, Seq::<char>::empty(), 0),
                language_of(lang@),
                asked,
                parts,
            ) && r@ == gathered(parts),
{
    let stretches = unguarded_stretches(text);
    let mut corrections: Vec<KorrektorBadWord> = Vec::new();
    let ghost mut asked: Seq<(String, String)> = Seq::empty();
    let ghost mut parts: Seq<Vec<KorrektorBadWord>> = Seq::empty();
    let ghost wanted = stretches_outside(text@, Seq::<char>::empty(), 0);
    let mut k: usize = 0;
    while k < stretches.len()
        invariant
            k <= stretches.len(),
            stretches.deep_view() == wanted,
            forall|stretch: String, tag: String| call_requires(spell, (stretch, tag)),
            answered(spell, wanted.take(k as int), language_of(lang@), asked, parts),
            corrections@ == gathered(parts),
        decreases stretches.len() - k,
    {
        let stretch = stretches[k].clone();
        let tag = String::from_str(language_tag(lang));
        let ghost question = (stretch, tag);
        assert(stretch@ == wanted[k as int]) by {
            assert(stretches.deep_view()[k as int] == stretches[k as int]@);
        }
        let mut found = spell(stretch, tag);
        let ghost answer = found;
        corrections.append(&mut found);
        proof {
            let before_asked = asked;
            let before_parts = parts;
            asked = asked.push(question);
            parts = parts.push(answer);
            assert(parts.drop_last() =~= before_parts);
            assert forall|j: int| 0 <= j < k + 1 implies {
                &&& (#[trigger] asked[j]).0@ == wanted.take(k + 1)[j]
                &&& asked[j].1@ == language_of(lang@)
                &&& call_ensures(spell, asked[j], parts[j])
            } by {
                if j < k {
                    assert(asked[j] == before_asked[j]);
                    assert(parts[j] == before_parts[j]);
                    assert(wanted.take(k as int)[j] == wanted[j]);
                }
            }
        }
        k += 1;
    }
    proof {
        assert(wanted.take(k as int) =~= wanted);
    }
    corrections
}

/// Checks the spelling of `text` in the script that `lang` names, with the
/// speller `spell`.
///
/// The addresses, links and handles of the text are guarded first and are
/// never shown to the speller; see [`check_wrapped_text`] for the rest.
pub fn get_correction_suggestions<F: Fn(String, String) -> Vec<KorrektorBadWord>>(
    text: &str,
    lang: &str,
    spell: F,
) -> (r: Vec<KorrektorBadWord>)
    requires
        guard_ready(),
        forall|stretch: String, tag: String| call_requires(spell, (stretch, tag)),
    ensures
        exists|asked: Seq<(String, String)>, parts: Seq<Vec<KorrektorBadWord>>|
            answered(
                spell,
                stretches_outside(guarded(text@), Seq::<char>::empty(), 0),
                language_of(lang@),
                asked,
                parts,
            ) && r@ == gathered(parts),
{
    let input = get_wrapped_text(text);
    check_wrapped_text(input.as_str(), lang, spell)
}

} // verus!
