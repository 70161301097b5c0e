use korrektor::engine::Korrektor;
use korrektor::utils::patterns::{
    replace_pairs, try_replace_pairs, try_wrap_regex, unwrap_text, wrap_matches, wrap_regex,
};
use korrektor::utils::wrappers::{
    get_wrapped_text, guard_is_ready, wrap_mails, wrap_urls, wrap_usernames,
};

#[test]
fn unwrap_text_test() {
    let input = "@ki-d @ki- 〈@hello〉 〈〈nyan@mail.uz〉〉 〈〈nya@mail.uz〉〉 〈https://nyan.com〉 go'zal 〈@crystalny〉";
    let expected = "@ki-d @ki- @hello nyan@mail.uz nya@mail.uz https://nyan.com go'zal @crystalny";

    assert_eq!(unwrap_text(input), expected.to_string());
}

#[test]
fn wrap_matches_by_offsets() {
    assert_eq!(wrap_matches("abc def", &vec![(0, 3), (4, 7)]), "〈abc〉 〈def〉");
    assert_eq!(wrap_matches("ўзбек tili", &vec![(0, 10)]), "〈ўзбек〉 tili");
    assert_eq!(wrap_matches("abc", &vec![]), "abc");
    assert_eq!(wrap_matches("abc", &vec![(1, 1)]), "a〈〉bc");
    assert_eq!(wrap_matches("abcdef", &vec![(0, 4), (2, 5)]), "〈abcd〉〈e〉f");
    assert_eq!(wrap_matches("abc", &vec![(2, 9)]), "ab〈c〉");
}

#[test]
fn unwrap_after_wrap_gives_the_text_back() {
    let text = "salom ўзбек 127.0.0.1 dunyo";
    let wrapped = wrap_matches(text, &vec![(6, 16), (17, 26)]);
    assert_eq!(wrapped, "salom 〈ўзбек〉 〈127.0.0.1〉 dunyo");
    assert_eq!(unwrap_text(&wrapped), text);
}

#[test]
fn wrap_regex_marks_each_match() {
    assert_eq!(wrap_regex("a1b22c", "[0-9]+"), "a〈1〉b〈22〉c");
    assert_eq!(wrap_regex("x@y @z", "@(?!y)[a-z]"), "x@y 〈@z〉");
    assert_eq!(try_wrap_regex("a1", "[0-9]+"), Some("a〈1〉".to_string()));
    assert_eq!(try_wrap_regex("a1", "[0-9"), None);
}

#[test]
fn wrap_regex_test() {
    let input = "@ki-d @ki- @hello nyan@mail.uz nya@mail.uz https://nyan.com go'zal @crystalny";
    let pattern = r"([\w-]+(?:\.[\w-]+)*)@((?:[\w-]+\.)*\w[\w-]{0,66})\.([a-z]{2,6}(?:\.[a-z]{2})?)|@(?!.*\-|.*\-$)[a-zA-Z0-9][\w-]+[a-zA-Z0-9]{0,39}";
    let expected = "@ki-d @ki- 〈@hello〉 〈nyan@mail.uz〉 〈nya@mail.uz〉 https://nyan.com go'zal 〈@crystalny〉";

    assert_eq!(wrap_regex(input, pattern), expected.to_string());

    let input = "@ki-d https://nyan.com go'zal @crystalny";
    let pattern = "(?i)\\b(?:(?:https?|ftp|file|ssh):\\/\\/|www\\.|ftp\\.)[-A-Z0-9+&@#\\/%=~_|$?!:,.]*[A-Z0-9+&@#\\/%=~_|$]";
    let expected = "@ki-d 〈https://nyan.com〉 go'zal @crystalny";

    assert_eq!(wrap_regex(input, pattern), expected.to_string());
}

#[test]
fn wrap_mails_test() {
    assert_eq!(
        wrap_mails(
            "@ki-d @ki- @hello nyan@mail.uz nya@mail.uz https://nyan.com go'zal @crystalny"
        ),
        "@ki-d @ki- @hello 〈nyan@mail.uz〉 〈nya@mail.uz〉 https://nyan.com go'zal @crystalny"
            .to_string()
    );
}

#[test]
fn wrap_urls_test() {
    assert_eq!(wrap_urls("@ki-d @ki- @hello 〈nyan@mail.uz〉 〈nya@mail.uz〉 https://nyan.com go'zal @crystalny"),
               "@ki-d @ki- @hello 〈nyan@mail.uz〉 〈nya@mail.uz〉 〈https://nyan.com〉 go'zal @crystalny".to_string());
}

#[test]
fn wrap_usernames_test() {
    assert_eq!(wrap_usernames("@ki-d @ki- @hello 〈nyan@mail.uz〉 〈nya@mail.uz〉 〈https://nyan.com〉 go'zal @crystalny"),
               "@ki-d @ki- 〈@hello〉 〈〈nyan@mail.uz〉〉 〈〈nya@mail.uz〉〉 〈https://nyan.com〉 go'zal 〈@crystalny〉".to_string());
}

#[test]
fn get_wrapped_text_test() {
    assert_eq!(get_wrapped_text("@ki-d @ki- @hello nyan@mail.uz nya@mail.uz https://nyan.com go'zal @crystalny"),
    String::from("@ki-d @ki- 〈@hello〉 〈〈nyan@mail.uz〉〉 〈〈nya@mail.uz〉〉 〈https://nyan.com〉 go'zal 〈@crystalny〉"));
}

#[test]
fn guarding_and_unwrapping_restores_the_text() {
    assert!(guard_is_ready());
    for text in [
        "@ki-d @ki- @hello nyan@mail.uz nya@mail.uz https://nyan.com go'zal @crystalny",
        "",
        "oddiy matn",
        "www.example.uz, ftp.example.uz va file://x/y",
        "ўзбек nyan@mail.uz ўзбек",
        "a@b.uz a@b.uz",
    ] {
        assert_eq!(unwrap_text(&get_wrapped_text(text)), text);
    }
}

#[test]
fn equal_matches_are_each_marked_once() {
    assert_eq!(wrap_mails("a@b.uz a@b.uz"), "〈a@b.uz〉 〈a@b.uz〉");
}

#[test]
fn links_are_found_at_the_beginning_of_a_word() {
    assert_eq!(wrap_urls("xwww.a.uz www.a.uz"), "xwww.a.uz 〈www.a.uz〉");
    assert_eq!(wrap_urls("HTTPS://A.UZ/b?c=1."), "〈HTTPS://A.UZ/b?c=1〉.");
}

#[test]
fn rules_are_applied_in_order() {
    assert_eq!(replace_pairs("aab", &[("a", "b"), ("b+", "c")]), "c");
    assert_eq!(replace_pairs("aab", &[("b+", "c"), ("a", "b")]), "bbc");
    assert_eq!(replace_pairs("2021 yil", &[("(\\d+) (yil)", "${1}-${2}")]), "2021-yil");
    assert_eq!(replace_pairs("abc", &[]), "abc");
    assert_eq!(try_replace_pairs("abc", &[("b", "x")]), Some("axc".to_string()));
    assert_eq!(try_replace_pairs("abc", &[("b", "x"), ("(", "y")]), None);
}

#[test]
fn the_engine_is_made() {
    let engine = Korrektor::new().unwrap();
    assert_eq!(
        engine.wrap("salom https://nyan.com"),
        "salom 〈https://nyan.com〉"
    );
}

#[test]
fn white_space_is_what_the_standard_library_takes_for_it() {
    for code in 0..=0x10FFFFu32 {
        if let Some(c) = char::from_u32(code) {
            assert_eq!(korrektor::utils::text::is_whitespace(c), c.is_whitespace());
        }
    }
}

#[test]
fn byte_offsets_are_read_as_offsets_in_utf8() {
    let text = "aўb〈𝄞z";
    let chars = korrektor::utils::text::to_chars(text);
    assert_eq!(chars, text.chars().collect::<Vec<char>>());
    for (place, (offset, _)) in text.char_indices().enumerate() {
        assert_eq!(korrektor::utils::text::char_index(&chars, offset), place);
    }
    assert_eq!(korrektor::utils::text::char_index(&chars, text.len()), chars.len());
    assert_eq!(korrektor::utils::text::char_index(&chars, text.len() + 5), chars.len());
    assert_eq!(korrektor::utils::text::substring(&chars, 1, 3), "ўb");
    assert_eq!(
        korrektor::utils::text::split_whitespace(&korrektor::utils::text::to_chars(
            " bir\tikki\u{a0}uch \n"
        )),
        vec!["bir", "ikki", "uch"]
    );
}
