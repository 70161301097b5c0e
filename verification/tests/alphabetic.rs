use korrektor::error::KorrektorError;
use korrektor::uzbek::alphabetic::{
    char_order_table, compare, from_sortable, get_exceptioned_value, get_value, is_exceptioned, sort,
    sort_sortable, to_sortable, usort, WordOrder,
};

#[test]
fn to_sortable_test() {
    let result = to_sortable("G'g' O'o' ShSHsh ChCHch ʻʼ'‘’‛′ʽ`".to_string());
    assert_eq!(result, "Ğğ Ŏŏ ŠÖš ČÜč ʼʼʼʼʼʼʼʼʼ");
}

#[test]
fn mod_to_sortable_test() {
    let result = to_sortable("G'g' O'o' ShSHsh ChCHch ʻʼ'‘’‛′ʽ`".to_string());
    assert_eq!(result, "Ğğ Ŏŏ ŠÖš ČÜč ʼʼʼʼʼʼʼʼʼ");
}

#[test]
fn from_sortable_test() {
    let result = from_sortable("Ğğ Ŏŏ ŠÖš ČÜč".to_string());
    assert_eq!(result, "G‘g‘ O‘o‘ ShSHsh ChCHch");
}

#[test]
fn mod_from_sortable_test() {
    let result = from_sortable("Ğğ Ŏŏ ŠÖš ČÜč".to_string());
    assert_eq!(result, "G‘g‘ O‘o‘ ShSHsh ChCHch");
}

#[test]
fn is_exceptioned_test() {
    assert!(is_exceptioned('Ö'));
    assert!(is_exceptioned('Ü'));
}

#[test]
fn mod_is_exceptioned_test() {
    assert!(is_exceptioned('Ö'));
    assert!(is_exceptioned('Ü'));
}

#[test]
fn get_exceptioned_value_test() {
    assert_eq!(get_exceptioned_value('Ö'), 55);
    assert_eq!(get_exceptioned_value('Ü'), 56);
}

#[test]
fn mod_get_exceptioned_value_test() {
    assert_eq!(get_exceptioned_value('Ö'), 55);
    assert_eq!(get_exceptioned_value('Ü'), 56);
}

#[test]
fn usort_test() {
    assert_eq!(usort("čiroyli", "čilonzor").unwrap(), 1);
    assert_eq!(usort("čiroyli", "čiroyli").unwrap(), 0);
    assert_eq!(usort("čilonzor", "čiroyli").unwrap(), -1);
}

#[test]
fn mod_usort_test() {
    assert_eq!(usort("čiroyli", "čilonzor").unwrap(), 1);
    assert_eq!(usort("čiroyli", "čiroyli").unwrap(), 0);
    assert_eq!(usort("čilonzor", "čiroyli").unwrap(), -1);
}

#[test]
fn get_sorted_text_test() {
    let input = "G‘ozal estafeta chilonzor o'zbek chiroyli";
    let output = String::from("estafeta o‘zbek chilonzor chiroyli G‘ozal");
    assert_eq!(sort(input).unwrap(), output)
}

#[test]
fn mod_get_sorted_text_test() {
    let input = "G‘ozal estafeta chilonzor o'zbek chiroyli";
    let output = String::from("estafeta o‘zbek chilonzor chiroyli G‘ozal");
    assert_eq!(sort(input).unwrap(), output)
}

#[test]
fn get_sorted_text_cyr_test() {
    let input = "Ғозал эстафета чилонзор ўзбек чиройли";
    let output = String::from("чилонзор чиройли эстафета ўзбек Ғозал");
    assert_eq!(sort(input).unwrap(), output)
}

#[test]
fn mod_get_sorted_text_cyr_test() {
    let input = "Ғозал эстафета чилонзор ўзбек чиройли";
    let output = String::from("чилонзор чиройли эстафета ўзбек Ғозал");
    assert_eq!(sort(input).unwrap(), output)
}

#[test]
fn not_exceptioned() {
    assert!(!is_exceptioned('O'));
    assert!(!is_exceptioned('Š'));
    assert_eq!(get_exceptioned_value('a'), 0);
}

#[test]
fn ranks_follow_the_table() {
    let table = char_order_table();
    assert_eq!(table.len(), 127);
    for (i, c) in table.iter().enumerate() {
        assert_eq!(get_value(*c).unwrap(), i);
        assert_eq!(table.iter().filter(|x| *x == c).count(), 1);
    }
    assert_eq!(get_value('ʼ').unwrap(), 0);
    assert_eq!(get_value('a').unwrap(), 1);
    assert_eq!(get_value('Š').unwrap(), 55);
    assert_eq!(get_value('Ö').unwrap(), 55);
    assert_eq!(get_value('Č').unwrap(), 56);
    assert_eq!(get_value('Ü').unwrap(), 56);
}

#[test]
fn a_character_without_rank_is_an_error() {
    assert_eq!(get_value('!'), Err(KorrektorError::InvalidChar('!')));
    assert_eq!(get_value('c'), Err(KorrektorError::InvalidChar('c')));
    assert_eq!(usort("a!b", "a?b"), Err(KorrektorError::InvalidChar('!')));
    assert_eq!(usort("aab", "a?b"), Err(KorrektorError::InvalidChar('?')));
    assert_eq!(sort("olma 4lma anor"), Err(KorrektorError::InvalidChar('4')));
}

#[test]
fn a_character_behind_the_deciding_place_is_not_looked_at() {
    assert_eq!(usort("ab!", "ba?").unwrap(), -1);
    assert_eq!(sort("b! a?").unwrap(), "a? b!");
}

#[test]
fn comparison_walks_every_position_of_the_shorter_word() {
    assert_eq!(usort("ab", "ae").unwrap(), -1);
    assert_eq!(usort("ab", "ad").unwrap(), -1);
    assert_eq!(usort("ad", "ab").unwrap(), 1);
    assert_eq!(usort("ča", "čb").unwrap(), -1);
    assert_eq!(usort("b", "a").unwrap(), 1);
    assert_eq!(usort("a", "ab").unwrap(), -1);
    assert_eq!(usort("ab", "a").unwrap(), 1);
    assert_eq!(usort("", "").unwrap(), 0);
    assert_eq!(usort("", "a").unwrap(), -1);
    assert_eq!(usort("čč", "čč").unwrap(), 0);
    assert_eq!(usort("ччч", "чч").unwrap(), 1);
    assert_eq!(usort("чч", "ab").unwrap(), 1);
    assert_eq!(usort("ab", "č").unwrap(), -1);
    assert_eq!(usort("Öa", "Ša").unwrap(), 0);
    assert_eq!(usort("Ü", "Č").unwrap(), 0);
    assert_eq!(usort("a!", "a").unwrap(), 1);
    assert_eq!(usort("a!", "ab"), Err(KorrektorError::InvalidChar('!')));
}

#[test]
fn comparison_is_antisymmetric() {
    let words = ["a", "ab", "ba", "čiroyli", "čilonzor", "Ğozal", "ŏzbek", "ŠÖ", "Öa", "Ša"];
    for a in words {
        assert_eq!(usort(a, a).unwrap(), 0);
        for b in words {
            assert_eq!(usort(a, b).unwrap(), -usort(b, a).unwrap());
        }
    }
}

#[test]
fn sortable_round_trip() {
    for w in ["G‘ozal", "o‘zbek", "chiroyli", "SHAHAR", "Shahar", "maʼno", "abc xyz"] {
        assert_eq!(from_sortable(to_sortable(w.to_string())), w);
    }
    assert_eq!(from_sortable(to_sortable("o'zbek".to_string())), "o‘zbek");
}

#[test]
fn sorting_of_few_words() {
    assert_eq!(sort("").unwrap(), "");
    assert_eq!(sort("   ").unwrap(), "");
    assert_eq!(sort("olma").unwrap(), "olma");
    assert_eq!(sort("  olma \t anor\nbehi ").unwrap(), "anor behi olma");
    assert_eq!(sort_sortable("ba ab").unwrap(), "ab ba");
    assert_eq!(sort_sortable("b a").unwrap(), "a b");
    assert_eq!(sort("ab aa").unwrap(), "aa ab");
    assert_eq!(sort("olmalar olma ol o").unwrap(), "o ol olma olmalar");
}

#[test]
fn equal_words_keep_their_order() {
    assert_eq!(sort("ab ad aa").unwrap(), "aa ab ad");
    assert_eq!(sort("shu sho").unwrap(), "sho shu");
    assert_eq!(sort_sortable("Ša Öa").unwrap(), "Ša Öa");
    assert_eq!(sort_sortable("Öa Ša").unwrap(), "Öa Ša");
    assert_eq!(sort("SHa b Sha a").unwrap(), "a b SHa Sha");
    assert_eq!(sort("Sha b SHa a").unwrap(), "a b Sha SHa");
}

#[test]
fn sorted_words_are_in_order_and_the_same_words() {
    let text = "shahar choy g‘isht olma o‘rik anor SHAHAR Choy behi uzum ŏrik nok ʼa zira";
    let sorted = sort(text).unwrap();
    let keys = to_sortable(sorted.clone());
    let words: Vec<&str> = keys.split(' ').collect();
    for pair in words.windows(2) {
        assert!(usort(pair[0], pair[1]).unwrap() <= 0);
    }
    let mut before: Vec<String> = to_sortable(text.to_string())
        .split(' ')
        .map(|w| w.to_string())
        .collect();
    let mut after: Vec<String> = words.iter().map(|w| w.to_string()).collect();
    before.sort();
    after.sort();
    assert_eq!(before, after);
}

#[test]
fn comparison_is_transitive() {
    let words = ["a", "ab", "ač", "ča", "č", "čb", "abd", "ŠÖ", "Öa", "Ša", "b", "bč"];
    for a in words {
        for b in words {
            for c in words {
                if usort(a, b).unwrap() <= 0 && usort(b, c).unwrap() <= 0 {
                    assert!(usort(a, c).unwrap() <= 0);
                }
            }
        }
    }
}

#[test]
fn words_are_compared_by_their_keys() {
    assert_eq!(compare("chiroyli", "chilonzor").unwrap(), WordOrder::Greater);
    assert_eq!(compare("chilonzor", "chiroyli").unwrap(), WordOrder::Less);
    assert_eq!(compare("chiroyli", "chiroyli").unwrap(), WordOrder::Equal);
    assert_eq!(compare("o'zbek", "o‘zbek").unwrap(), WordOrder::Equal);
    assert_eq!(compare("estafeta", "o'zbek").unwrap(), WordOrder::Less);
    assert_eq!(compare("G‘ozal", "chiroyli").unwrap(), WordOrder::Greater);
    assert_eq!(compare("olma", "olmalar").unwrap(), WordOrder::Less);
    assert_eq!(compare("4x", "ab"), Err(KorrektorError::InvalidChar('4')));
    let words = ["shahar", "SHAHAR", "choy", "g'isht", "olma", "o'rik", "Ўзбек", "ғишт"];
    for a in words {
        assert_eq!(compare(a, a).unwrap(), WordOrder::Equal);
        for b in words {
            let there = compare(a, b).unwrap();
            let back = compare(b, a).unwrap();
            assert_eq!(
                back,
                match there {
                    WordOrder::Less => WordOrder::Greater,
                    WordOrder::Equal => WordOrder::Equal,
                    WordOrder::Greater => WordOrder::Less,
                }
            );
        }
    }
}
