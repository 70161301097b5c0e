use korrektor::engine::Korrektor;
use korrektor::uzbek::transliterator::{
    casing_of, recase, recase_matches, replace_letters, retransliterate, to, to_cyrillic,
    to_latin, transliterate_unguarded, transliterator_is_ready, Casing,
};

#[test]
fn to_cyrillic_test() {
    assert_eq!(
        to_cyrillic(String::from("g'ozal G'OZAL G'ozal geliy")),
        String::from("ғозал ҒОЗАЛ Ғозал гелий")
    );
}

#[test]
fn to_latin_test() {
    assert_eq!(
        to_latin(String::from("ғозал ҒОЗАЛ Ғозал гелий")),
        String::from("g‘ozal GʼOZAL Gʼozal geliy")
    );
}

#[test]
fn to_test() {
    assert_eq!(
        to(String::from("ғозал ҒОЗАЛ Ғозал гелий"), "lat"),
        String::from("g‘ozal GʼOZAL Gʼozal geliy")
    );
    assert_eq!(
        to(String::from("g'ozal G'OZAL G'ozal geliy"), "cyr"),
        String::from("ғозал ҒОЗАЛ Ғозал гелий")
    );

    assert_eq!(
        to(String::from("қаерда қаёрда ёрда"), "lat"),
        String::from("qayerda qayorda yorda")
    );
    assert_eq!(
        to(
            String::from("13 январ 2021 йил bnuqtai nazar nuqtai nazar"),
            "lat"
        ),
        String::from("13-yanvar 2021-yil bnuqtai nazar nuqtayi nazar")
    );
    assert_eq!(
        to(String::from("аца баер Ша Ë Ёш Ë Чуст Юрт шу гўзал"), "lat"),
        String::from("atsa bayer Sha Yo Yosh Yo Chust Yurt shu go‘zal")
    );

    assert_eq!(
        to(String::from("«дзнъю» \"а\" ДЗНЪЮ"), "lat"),
        String::from("“dznyu” “a” DZNYU")
    );

    assert_eq!(to(String::from("“a MЎJ"), "cyr"), String::from("«а МЎЪЖ"));

    assert_eq!(to(String::from("ʼA Eʼ"), "cyr"), String::from("ЪА ЭЪ"));

    assert_eq!(
        to(String::from("аE аЯна-даа"), "cyr"),
        String::from("аЭ аЯнадаа")
    );
}

#[test]
fn an_unknown_script_is_latin() {
    assert!(transliterator_is_ready());
    assert_eq!(to(String::from("гўзал"), ""), "go‘zal");
    assert_eq!(to(String::from("гўзал"), "uz"), "go‘zal");
    assert_eq!(to(String::from("гўзал"), "CYR"), "go‘zal");
}

#[test]
fn guarded_spans_are_not_transliterated() {
    assert_eq!(
        to(String::from("salom @hello nyan@mail.uz https://nyan.com dunyo"), "cyr"),
        "салом @hello nyan@mail.uz https://nyan.com дунё"
    );
    assert_eq!(
        transliterate_unguarded("〈abc〉 abc 〈〈abc〉〉", true),
        "abc абц abc"
    );
    assert_eq!(transliterate_unguarded("〈a〈b〉c〉 d", true), "abc д");
    assert_eq!(transliterate_unguarded("a〈b〈c〉d〉e〉f", true), "аbcdэф");
    assert_eq!(transliterate_unguarded("a〈b", true), "аb");
    assert_eq!(
        to(String::from("qarang https://t.me/@durov kanali"), "cyr"),
        "қаранг https://t.me/@durov канали"
    );
    assert_eq!(to(String::from("https://t.me/@durov"), "cyr"), "https://t.me/@durov");
    assert_eq!(to(String::from("olma 〈anor〉 〉behi"), "cyr"), "олма anor беҳи");
    assert_eq!(transliterate_unguarded("", true), "");
    assert_eq!(transliterate_unguarded("〈〉", false), "");
}

#[test]
fn casing_is_decided_by_the_first_form_that_fits() {
    assert_eq!(casing_of("rol", "rol", "ROL", "Rol"), Casing::Lower);
    assert_eq!(casing_of("ROL", "rol", "ROL", "Rol"), Casing::Upper);
    assert_eq!(casing_of("Rol", "rol", "ROL", "Rol"), Casing::Title);
    assert_eq!(casing_of("rOl", "rol", "ROL", "Rol"), Casing::Other);
    assert_eq!(casing_of("1", "1", "1", "1"), Casing::Lower);
    assert_eq!(casing_of("A", "a", "A", "A"), Casing::Upper);
}

#[test]
fn replacements_take_the_casing_of_the_match() {
    assert_eq!(recase("sirk", "цирк"), "цирк");
    assert_eq!(recase("SIRK", "цирк"), "ЦИРК");
    assert_eq!(recase("sIrk", "цирк"), "цирк");
    assert_eq!(recase("Sirk", "sirk"), "Sirk");
    assert_eq!(recase("SIRK", "sirk"), "SIRK");
    assert_eq!(
        recase_matches("bu sirk va SIRK", &vec![(3, 7), (11, 15)], "цирк"),
        "bu цирк va ЦИРК"
    );
    assert_eq!(recase_matches("abc", &vec![], "x"), "abc");
}

#[test]
fn set_words_are_replaced_at_the_beginning_of_a_word() {
    assert_eq!(
        retransliterate("sirk SIRK sirkda tsirk budjet"),
        "цирк ЦИРК циркda tsirk бюджет"
    );
    assert_eq!(
        to_cyrillic(String::from("sentabr oyida OKTABR")),
        "сентябрь ойида ОКТЯБРЬ"
    );
}

#[test]
fn letters_are_replaced_in_the_order_of_the_list() {
    assert_eq!(replace_letters("abc", &["a", "b"], &["b", "c"]), "ccc");
    assert_eq!(replace_letters("abc", &["b", "a"], &["c", "b"]), "bcc");
    assert_eq!(replace_letters("abc", &[], &[]), "abc");
    assert_eq!(replace_letters("abc", &["c"], &["x", "y"]), "abx");
}

#[test]
fn more_of_both_scripts() {
    assert_eq!(
        to_latin(String::from("ШАҲАР Шаҳар цирк ЧЎЛ Ер субъект маъно")),
        "SHAHAR Shahar sirk CHOʼL Yer subyekt maʼno"
    );
    assert_eq!(
        to_cyrillic(String::from("yozuvchi Yozuvchi YOZUVCHI she’r mo‘jiza \"yaxshi\"")),
        "ёзувчи Ёзувчи ЁЗУВЧИ шеър мўъжиза «яхши»"
    );
    assert_eq!(
        to_cyrillic(String::from("2021-yil 13-yanvar")),
        "2021 йил 13 январь"
    );
}

#[test]
fn the_engine_transliterates() {
    let engine = Korrektor::new().unwrap();
    assert_eq!(engine.to_latin(String::from("гелий")), "geliy");
    assert_eq!(engine.to_cyrillic(String::from("geliy")), "гелий");
    assert_eq!(engine.to(String::from("geliy"), "cyr"), "гелий");
}
