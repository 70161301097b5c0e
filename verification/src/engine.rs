//! The engine: the operations of the library behind one value that is made
//! once, when every pattern of the rule sets has been compiled.
use crate::error::outcome;
use crate::error::KorrektorError;
use crate::utils::patterns::unmarked;
use crate::utils::patterns::unwrapped;
use crate::utils::wrappers::get_wrapped_text;
use crate::utils::wrappers::guard_is_ready;
use crate::utils::wrappers::guard_ready;
use crate::utils::wrappers::guarded;
use crate::uzbek::alphabetic::sort;
use crate::uzbek::alphabetic::sort_text;
use crate::uzbek::corrector::correct;
use crate::uzbek::corrector::corrected;
use crate::uzbek::corrector::corrector_is_ready;
use crate::uzbek::corrector::corrector_ready;
use crate::uzbek::corrector::answered;
use crate::uzbek::corrector::gathered;
use crate::uzbek::corrector::get_correction_suggestions;
use crate::uzbek::corrector::language_of;
use crate::uzbek::corrector::KorrektorBadWord;
use crate::uzbek::corrector::modifiers_removed;
use crate::uzbek::corrector::remove_modifiers;
use crate::uzbek::corrector::stretches_outside;
use crate::uzbek::number::all_numbers_to_word;
use crate::uzbek::number::helper::numbers_text;
use crate::uzbek::number::helper::numeral_guard_is_ready;
use crate::uzbek::number::helper::numeral_guard_ready;
use crate::uzbek::transliterator::cyrillic_ready;
use crate::uzbek::transliterator::cyrillic_text;
use crate::uzbek::transliterator::latin_ready;
use crate::uzbek::transliterator::latin_text;
use crate::uzbek::transliterator::to;
use crate::uzbek::transliterator::to_cyrillic;
use crate::uzbek::transliterator::to_latin;
use crate::uzbek::transliterator::to_text;
use crate::uzbek::transliterator::transliterator_is_ready;
use vstd::prelude::*;

verus! {

/// Whether the engines accept every pattern of the library's rule sets.
pub open spec fn rules_ready() -> bool {
    &&& guard_ready()
    &&& numeral_guard_ready()
    &&& latin_ready()
    &&& cyrillic_ready()
    &&& corrector_ready()
}

/// The engine. A value of it exists only where every pattern of the rule
/// sets compiles: a pattern that does not is found when the engine is made
/// and never in a call.
pub struct Korrektor {
    checked: bool,
}

impl Korrektor {
    #[verifier::type_invariant]
    spec fn ready(self) -> bool {
        rules_ready()
    }

    /// Compiles every pattern of the rule sets, and gives the engine where
    /// all of them compile.
    pub fn new() -> (r: Option<Korrektor>)
        ensures
            r is Some <==> rules_ready(),
    {
        if guard_is_ready() && numeral_guard_is_ready() && transliterator_is_ready()
            && corrector_is_ready() {
            Some(Korrektor { checked: true })
        } else {
            None
        }
    }

    /// The words of `text` in ascending alphabetical order.
    pub fn sort(&self, text: &str) -> (r: Result<String, KorrektorError>)
        ensures
            outcome(r) == sort_text(text@),
    {
        sort(text)
    }

    /// `text` with its addresses, links and handles marked.
    pub fn wrap(&self, text: &str) -> (r: String)
        ensures
            r@ == guarded(text@),
            unwrapped(r@) == unwrapped(text@),
    {
        proof {
            use_type_invariant(self);
            crate::utils::wrappers::lemma_guard_round_trip(text@);
        }
        get_wrapped_text(text)
    }

    /// `text` with every number spoken in words.
    pub fn numbers_to_word(&self, text: &str) -> (r: Result<String, KorrektorError>)
        ensures
            outcome(r) == numbers_text(text@),
            r is Ok ==> unmarked(r->Ok_0@),
    {
        proof {
            use_type_invariant(self);
        }
        all_numbers_to_word(text)
    }

    /// `text` in the Cyrillic script.
    pub fn to_cyrillic(&self, text: String) -> (r: String)
        ensures
            r@ == cyrillic_text(text@),
    {
        proof {
            use_type_invariant(self);
        }
        to_cyrillic(text)
    }

    /// `text` in the Latin script.
    pub fn to_latin(&self, text: String) -> (r: String)
        ensures
            r@ == latin_text(text@),
    {
        proof {
            use_type_invariant(self);
        }
        to_latin(text)
    }

    /// `text` in the script that `alphabet` names, its addresses, links
    /// and handles left as they are.
    pub fn to(&self, text: String, alphabet: &str) -> (r: String)
        ensures
            r@ == to_text(text@, alphabet@),
            unmarked(r@),
    {
        proof {
            use_type_invariant(self);
        }
        to(text, alphabet)
    }

    /// `text` with its spelling corrected.
    pub fn correct(&self, text: &str) -> (r: String)
        ensures
            r@ == corrected(text@),
    {
        proof {
            use_type_invariant(self);
        }
        correct(text)
    }

    /// `text` without what the checking of spelling does not look at.
    pub fn remove_modifiers(&self, text: &str) -> (r: String)
        ensures
            r@ == modifiers_removed(text@),
    {
        proof {
            use_type_invariant(self);
        }
        remove_modifiers(text)
    }

    /// What the speller `spell` finds in the stretches of `text` that are
    /// checked, in the script that `lang` names.
    pub fn get_correction_suggestions<F: Fn(String, String) -> Vec<KorrektorBadWord>>(
        &self,
        text: &str,
        lang: &str,
        spell: F,
    ) -> (r: Vec<KorrektorBadWord>)
        requires
            forall|stretch: String, tag: String| call_requires(spell, (stretch, tag)),
        ensures
            exists|asked: Seq<(String, String)>, parts: Seq<Vec<KorrektorBadWord>>|
                answered(
                    spell,
                    stretches_outside(guarded(text@), Seq::<char>::empty(), 0),
                    language_of(lang@),
                    asked,
                    parts,
                ) && r@ == gathered(parts),
    {
        proof {
            use_type_invariant(self);
        }
        get_correction_suggestions(text, lang, spell)
    }
}

} // verus!
