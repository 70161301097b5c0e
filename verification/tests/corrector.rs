use korrektor::engine::Korrektor;
use korrektor::uzbek::corrector::{
    check_wrapped_text, correct, corrector_is_ready, get_correction_suggestions, language_tag, remove_modifiers, unguarded_stretches,
    KorrektorBadWord,
};
use std::cell::RefCell;

fn suggestions_lat() -> Vec<String> {
    vec![
        "choyli".to_string(),
        "chiroyli".to_string(),
        "chorpoyli".to_string(),
        "choroynali".to_string(),
        "choykorli".to_string(),
        "chiroyi".to_string(),
        "zichroqli".to_string(),
    ]
}

fn suggestions_cyr() -> Vec<String> {
    vec![
        "чойли".to_string(),
        "чиройли".to_string(),
        "чорпойли".to_string(),
        "ойлили".to_string(),
        "ойликчи".to_string(),
        "чоройнали".to_string(),
        "бройлерли".to_string(),
    ]
}

/// A speller that knows two misspelled words and the word `go'zal`, and
/// takes everything else for misspelled without a suggestion.
fn small_speller(stretch: String, tag: String) -> Vec<KorrektorBadWord> {
    let mut found = Vec::new();
    let mut offset = 0;
    for piece in stretch.split(' ') {
        if !piece.is_empty() {
            if tag == "uz-lat" && piece == "chroyli" {
                found.push(KorrektorBadWord::new(piece.to_string(), offset, suggestions_lat()));
            } else if tag == "uz-cyr" && piece == "чройли" {
                found.push(KorrektorBadWord::new(piece.to_string(), offset, suggestions_cyr()));
            } else if piece != "go'zal" {
                found.push(KorrektorBadWord::new(piece.to_string(), offset, vec![]));
            }
        }
        offset += piece.chars().count() + 1;
    }
    found
}

#[test]
fn check_latin_test() {
    let errors_lat: Vec<KorrektorBadWord> = vec![KorrektorBadWord::new(
        "chroyli".to_string(),
        0,
        suggestions_lat(),
    )];
    let errors_cyr: Vec<KorrektorBadWord> = vec![KorrektorBadWord::new(
        "чройли".to_string(),
        0,
        suggestions_cyr(),
    )];

    assert_eq!(check_wrapped_text("chroyli", "lat", small_speller), errors_lat);
    assert_eq!(check_wrapped_text("chroyli", "", small_speller), errors_lat);
    assert_eq!(check_wrapped_text("чройли", "cyr", small_speller), errors_cyr);
}

#[test]
fn check_wrapped_text_test() {
    assert_eq!(check_wrapped_text("〈@hello〉 〈〈nyan@mail.uz〉〉 〈〈nya@mail.uz〉〉 〈https://nyan.com〉 go'zal 〈@crystalny〉", "lat", small_speller), vec![]);
}

#[test]
fn nothing_inside_a_pair_is_shown_to_the_speller() {
    assert_eq!(check_wrapped_text("〈a〈b〉c〉", "lat", small_speller), vec![]);
    assert_eq!(
        get_correction_suggestions("https://t.me/@durov", "lat", small_speller),
        vec![]
    );
    assert_eq!(
        check_wrapped_text("〈a〈b〉c〉 d", "lat", small_speller),
        vec![KorrektorBadWord::new("d".to_string(), 1, vec![])]
    );
}

#[test]
fn get_suggestions_test() {
    assert_eq!(
        get_correction_suggestions(
            "@hello nyan@mail.uz nya@mail.uz https://nyan.com go'zal @crystalny",
            "lat",
            small_speller
        ),
        vec![]
    );
}

#[test]
fn the_speller_is_asked_once_for_each_stretch_in_order() {
    let asked: RefCell<Vec<(String, String)>> = RefCell::new(Vec::new());
    let found = check_wrapped_text("bir 〈x〉 ikki〈y〉〈z〉uch", "cyr", |stretch: String, tag: String| {
        let place = asked.borrow().len();
        asked.borrow_mut().push((stretch.clone(), tag));
        vec![KorrektorBadWord::new(stretch, place, vec![])]
    });
    assert_eq!(
        asked.into_inner(),
        vec![
            ("bir ".to_string(), "uz-cyr".to_string()),
            (" ikki".to_string(), "uz-cyr".to_string()),
            ("uch".to_string(), "uz-cyr".to_string()),
        ]
    );
    assert_eq!(
        found,
        vec![
            KorrektorBadWord::new("bir ".to_string(), 0, vec![]),
            KorrektorBadWord::new(" ikki".to_string(), 1, vec![]),
            KorrektorBadWord::new("uch".to_string(), 2, vec![]),
        ]
    );
}

#[test]
fn remove_modifiers_test() {
    assert_eq!(
        remove_modifiers("stul- stul-ku"),
        String::from("stul  stul")
    );
}

#[test]
fn correct_test() {
    assert_eq!(
        correct("2022-йил 12 yanvar"),
        String::from("2022 йил 12-yanvar")
    );
}

#[test]
fn corrections() {
    assert!(corrector_is_ready());
    assert_eq!(correct("g'ozal o`zbek"), "g‘ozal o‘zbek");
    assert_eq!(correct("nuqtai nazar"), "nuqtayi nazar");
    assert_eq!(correct("5-май"), "5 май");
    assert_eq!(remove_modifiers("NATO keldi-da"), " keldi");
}

#[test]
fn stretches_outside_the_guarded_spans() {
    assert_eq!(
        unguarded_stretches("〈@hello〉 〈〈nyan@mail.uz〉〉 〈〈nya@mail.uz〉〉 〈https://nyan.com〉 go'zal 〈@crystalny〉"),
        vec![" ", " ", " ", " go'zal "]
    );
    assert_eq!(unguarded_stretches("chroyli"), vec!["chroyli"]);
    assert_eq!(unguarded_stretches(""), Vec::<String>::new());
    assert_eq!(unguarded_stretches("〈a〉"), Vec::<String>::new());
    assert_eq!(unguarded_stretches("a〈b〉c〉d"), vec!["a", "c", "d"]);
    assert_eq!(unguarded_stretches("a〈b〈c"), vec!["a"]);
    assert_eq!(unguarded_stretches("〈a〈b〉c〉"), Vec::<String>::new());
    assert_eq!(unguarded_stretches("x〈a〈b〉c〉y〈〈d〉e〉z"), vec!["x", "y", "z"]);
    assert_eq!(
        unguarded_stretches("qarang 〈https://t.me/〈@durov〉〉 kanali"),
        vec!["qarang ", " kanali"]
    );
}

#[test]
fn language_tags() {
    assert_eq!(language_tag("cyr"), "uz-cyr");
    assert_eq!(language_tag("lat"), "uz-lat");
    assert_eq!(language_tag(""), "uz-lat");
}

#[test]
fn bad_word_record() {
    let word = KorrektorBadWord::new(
        "chroyli".to_string(),
        0,
        vec!["choyli".to_string(), "chiroyli".to_string()],
    );
    assert_eq!(word.misspelled(), "chroyli");
    assert_eq!(word.position(), 0);
    assert_eq!(word.suggestions(), &vec!["choyli".to_string(), "chiroyli".to_string()]);
    assert_eq!(
        word,
        KorrektorBadWord::new(
            "chroyli".to_string(),
            0,
            vec!["choyli".to_string(), "chiroyli".to_string()]
        )
    );
}

#[test]
fn the_engine_corrects() {
    let engine = Korrektor::new().unwrap();
    assert_eq!(engine.correct("2022-йил"), "2022 йил");
    assert_eq!(engine.remove_modifiers("stul-ku"), "stul");
    assert_eq!(engine.sort("b! a?").unwrap(), "a? b!");
    assert_eq!(
        engine.get_correction_suggestions("chroyli nyan@mail.uz", "lat", small_speller),
        vec![KorrektorBadWord::new("chroyli".to_string(), 0, suggestions_lat())]
    );
}
