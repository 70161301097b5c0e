//! Words in the order of the Uzbek alphabet, in either script.
pub mod order;

use crate::error::ErrorView;
use crate::error::KorrektorError;
use crate::error::outcome;
use crate::utils::text::join_words;
use crate::utils::text::split_whitespace;
use crate::utils::text::split_words;
use crate::utils::text::to_chars;
use vstd::prelude::*;
use vstd::seq_lib::to_multiset_update;

verus! {

/// The collation alphabet, least letter first: the modifier apostrophe, the
/// Latin letters in lower case with the four placeholders of `o‘`, `g‘`,
/// `sh` and `ch`, the same in upper case, and the Cyrillic letters in lower
/// and then in upper case. No character stands in it twice.
#[verifier::opaque]
pub open spec fn char_order() -> Seq<char> {
    seq![
        'ʼ', 'a', 'b', 'd', 'e', 'f', 'g', 'h', 'i', 'j', 'k', 'l',
        'm', 'n', 'o', 'p', 'q', 'r', 's', 't', 'u', 'v', 'x', 'y',
        'z', 'ŏ', 'ğ', 'š', 'č', 'A', 'B', 'D', 'E', 'F', 'G', 'H',
        'I', 'J', 'K', 'L', 'M', 'N', 'O', 'P', 'Q', 'R', 'S', 'T',
        'U', 'V', 'X', 'Y', 'Z', 'Ŏ', 'Ğ', 'Š', 'Č', 'а', 'б', 'в',
        'г', 'д', 'е', 'ё', 'ж', 'з', 'и', 'й', 'к', 'л', 'м', 'н',
        'о', 'п', 'р', 'с', 'т', 'у', 'ф', 'х', 'ц', 'ч', 'ш', 'ъ',
        'ь', 'э', 'ю', 'я', 'ў', 'қ', 'ғ', 'ҳ', 'А', 'Б', 'В', 'Г',
        'Д', 'Е', 'Ё', 'Ж', 'З', 'И', 'Й', 'К', 'Л', 'М', 'Н', 'О',
        'П', 'Р', 'С', 'Т', 'У', 'Ф', 'Х', 'Ц', 'Ч', 'Ш', 'Ъ', 'Ь',
        'Э', 'Ю', 'Я', 'Ў', 'Қ', 'Ғ', 'Ҳ',
    ]
}

/// The collation alphabet as a vector.
pub fn char_order_table() -> (t: Vec<char>)
    ensures
        t@ == char_order(),
{
    reveal(char_order);
    vec![
        'ʼ', 'a', 'b', 'd', 'e', 'f', 'g', 'h', 'i', 'j', 'k', 'l',
        'm', 'n', 'o', 'p', 'q', 'r', 's', 't', 'u', 'v', 'x', 'y',
        'z', 'ŏ', 'ğ', 'š', 'č', 'A', 'B', 'D', 'E', 'F', 'G', 'H',
        'I', 'J', 'K', 'L', 'M', 'N', 'O', 'P', 'Q', 'R', 'S', 'T',
        'U', 'V', 'X', 'Y', 'Z', 'Ŏ', 'Ğ', 'Š', 'Č', 'а', 'б', 'в',
        'г', 'д', 'е', 'ё', 'ж', 'з', 'и', 'й', 'к', 'л', 'м', 'н',
        'о', 'п', 'р', 'с', 'т', 'у', 'ф', 'х', 'ц', 'ч', 'ш', 'ъ',
        'ь', 'э', 'ю', 'я', 'ў', 'қ', 'ғ', 'ҳ', 'А', 'Б', 'В', 'Г',
        'Д', 'Е', 'Ё', 'Ж', 'З', 'И', 'Й', 'К', 'Л', 'М', 'Н', 'О',
        'П', 'Р', 'С', 'Т', 'У', 'Ф', 'Х', 'Ц', 'Ч', 'Ш', 'Ъ', 'Ь',
        'Э', 'Ю', 'Я', 'Ў', 'Қ', 'Ғ', 'Ҳ',
    ]
}

/// No character stands twice in the collation alphabet, and the two
/// exceptional letters do not stand in it at all.
pub proof fn lemma_char_order_distinct()
    ensures
        char_order().len() == 127,
        forall|i: int, j: int|
            0 <= i < j < char_order().len() ==> char_order()[i] != char_order()[j],
        forall|i: int| 0 <= i < char_order().len() ==> char_order()[i] != 'Ö' && char_order()[i] != 'Ü',
{
    reveal(char_order);
}

/// The rank that the placeholder of upper-case `SH` carries.
pub const RANK_UPPER_SH: usize = 55;

/// The rank that the placeholder of upper-case `CH` carries.
pub const RANK_UPPER_CH: usize = 56;

/// Whether `k` is the first place of `c` in `table`.
pub open spec fn first_at(table: Seq<char>, c: char, k: int) -> bool {
    &&& 0 <= k < table.len()
    &&& table[k] == c
    &&& forall|j: int| 0 <= j < k ==> table[j] != c
}

/// The rank of a character: the fixed rank of the two exceptional letters,
/// else the character's place in the alphabet, if it has one.
#[verifier::opaque]
pub open spec fn rank(c: char) -> Option<nat> {
    if c == 'Ö' {
        Some(RANK_UPPER_SH as nat)
    } else if c == 'Ü' {
        Some(RANK_UPPER_CH as nat)
    } else if exists|k: int| first_at(char_order(), c, k) {
        Some((choose|k: int| first_at(char_order(), c, k)) as nat)
    } else {
        None
    }
}

/// The rank of a character of the alphabet is its place, and the two
/// exceptional letters rank with the placeholders of `Sh` and `Ch`.
pub proof fn lemma_ranks()
    ensures
        forall|k: int|
            0 <= k < char_order().len() ==> rank(#[trigger] char_order()[k]) == Some(k as nat),
        rank('Ö') == rank('Š'),
        rank('Ü') == rank('Č'),
{
    lemma_char_order_distinct();
    reveal(rank);
    let table = char_order();
    assert forall|k: int| 0 <= k < table.len() implies rank(#[trigger] table[k]) == Some(
        k as nat,
    ) by {
        let c = table[k];
        assert(first_at(table, c, k));
        let found = choose|j: int| first_at(table, c, j);
        assert(first_at(table, c, found));
        assert(found == k);
    }
    assert(table[55] == 'Š') by {
        reveal(char_order);
    }
    assert(table[56] == 'Č') by {
        reveal(char_order);
    }
}

/// Whether `value` is one of the two upper-case digraph placeholders that
/// carry a fixed rank instead of a place in the alphabet.
pub fn is_exceptioned(value: char) -> (r: bool)
    ensures
        r == (value == 'Ö' || value == 'Ü'),
{
    value == 'Ö' || value == 'Ü'
}

/// The fixed rank of an exceptional letter, and zero for any other character.
pub fn get_exceptioned_value(value: char) -> (r: usize)
    ensures
        r == if value == 'Ö' {
            RANK_UPPER_SH
        } else if value == 'Ü' {
            RANK_UPPER_CH
        } else {
            0
        },
{
    if value == 'Ö' {
        return RANK_UPPER_SH;
    }
    if value == 'Ü' {
        return RANK_UPPER_CH;
    }
    0
}

/// The rank of `value` in the collation order, or the error that names
/// `value` where it has none.
pub fn get_value(value: char) -> (r: Result<usize, KorrektorError>)
    ensures
        match r {
            Ok(k) => rank(value) == Some(k as nat),
            Err(e) => rank(value) is None && e@ == ErrorView::InvalidChar(value),
        },
{
    reveal(rank);
    if is_exceptioned(value) {
        return Ok(get_exceptioned_value(value));
    }
    let table = char_order_table();
    let mut i: usize = 0;
    while i < table.len()
        invariant
            i <= table.len(),
            table@ == char_order(),
            value != 'Ö',
            value != 'Ü',
            forall|j: int| 0 <= j < i ==> table@[j] != value,
        decreases table.len() - i,
    {
        if table[i] == value {
            proof {
                reveal(rank);
                assert(first_at(char_order(), value, i as int));
                let k = choose|k: int| first_at(char_order(), value, k);
                assert(first_at(char_order(), value, k));
                if k < i {
                    assert(table@[k] != value);
                }
                if i < k {
                    assert(char_order()[i as int] != value);
                }
            }
            return Ok(i);
        }
        i += 1;
    }
    proof {
        reveal(rank);
        if exists|k: int| first_at(char_order(), value, k) {
            let k = choose|k: int| first_at(char_order(), value, k);
            assert(table@[k] != value);
        }
    }
    Err(KorrektorError::InvalidChar(value))
}


/// The order of two words by the number of their characters: -1 where the
/// first is shorter, 1 where it is longer, 0 where they are of one length.
pub open spec fn by_length(a: Seq<char>, b: Seq<char>) -> int {
    if a.len() < b.len() {
        -1
    } else if a.len() > b.len() {
        1
    } else {
        0
    }
}

/// The number of leading positions at which two words are compared: every
/// position of the shorter word.
pub open spec fn walk_end(a: Seq<char>, b: Seq<char>) -> int {
    if a.len() < b.len() {
        a.len() as int
    } else {
        b.len() as int
    }
}

/// The comparison of `a` and `b` from position `i` on: at the first position
/// of the shorter word where the ranks differ, the lower rank sorts first; a
/// character without a rank met on the way is an error, that of `a` before
/// that of `b`; where every such position ties, the shorter word sorts
/// first.
pub open spec fn collation_from(a: Seq<char>, b: Seq<char>, i: int) -> Result<int, ErrorView>
    decreases walk_end(a, b) - i,
{
    if i < 0 || i >= walk_end(a, b) {
        Ok(by_length(a, b))
    } else {
        match rank(a[i]) {
            None => Err(ErrorView::InvalidChar(a[i])),
            Some(ra) => match rank(b[i]) {
                None => Err(ErrorView::InvalidChar(b[i])),
                Some(rb) => if ra < rb {
                    Ok(-1)
                } else if ra > rb {
                    Ok(1)
                } else {
                    collation_from(a, b, i + 1)
                },
            },
        }
    }
}

/// The comparison of two words in sortable form: -1 where `a` sorts before
/// `b`, 1 where it sorts after, 0 where neither.
pub open spec fn collation(a: Seq<char>, b: Seq<char>) -> Result<int, ErrorView> {
    collation_from(a, b, 0)
}

/// The outcome of a comparison, by its views.
pub open spec fn verdict(r: Result<i8, KorrektorError>) -> Result<int, ErrorView> {
    match r {
        Ok(v) => Ok(v as int),
        Err(e) => Err(e@),
    }
}

/// Whether every character of `w` has a rank.
pub open spec fn in_alphabet(w: Seq<char>) -> bool {
    forall|i: int| 0 <= i < w.len() ==> rank(#[trigger] w[i]) is Some
}

proof fn lemma_collation_from_opposite(a: Seq<char>, b: Seq<char>, i: int)
    requires
        in_alphabet(a),
        in_alphabet(b),
        0 <= i,
    ensures
        collation_from(a, b, i) is Ok,
        collation_from(b, a, i) is Ok,
        collation_from(b, a, i)->Ok_0 == -collation_from(a, b, i)->Ok_0,
        -1 <= collation_from(a, b, i)->Ok_0 <= 1,
    decreases walk_end(a, b) - i,
{
    assert(walk_end(a, b) == walk_end(b, a));
    if i < walk_end(a, b) {
        assert(rank(a[i]) is Some);
        assert(rank(b[i]) is Some);
        if rank(a[i])->Some_0 == rank(b[i])->Some_0 {
            lemma_collation_from_opposite(a, b, i + 1);
        }
    }
}

proof fn lemma_collation_from_same(a: Seq<char>, i: int)
    requires
        in_alphabet(a),
        0 <= i,
    ensures
        collation_from(a, a, i) == Ok::<int, ErrorView>(0),
    decreases walk_end(a, a) - i,
{
    if i < walk_end(a, a) {
        assert(rank(a[i]) is Some);
        lemma_collation_from_same(a, i + 1);
    }
}

/// Two words made of ranked characters compare, and compare as opposites
/// when taken in the other order.
pub proof fn lemma_collation_opposite(a: Seq<char>, b: Seq<char>)
    requires
        in_alphabet(a),
        in_alphabet(b),
    ensures
        collation(a, b) is Ok,
        collation(b, a) is Ok,
        collation(b, a)->Ok_0 == -collation(a, b)->Ok_0,
        -1 <= collation(a, b)->Ok_0 <= 1,
{
    lemma_collation_from_opposite(a, b, 0);
}

/// A word made of ranked characters compares equal to itself.
pub proof fn lemma_collation_same(a: Seq<char>)
    requires
        in_alphabet(a),
    ensures
        collation(a, a) == Ok::<int, ErrorView>(0),
{
    lemma_collation_from_same(a, 0);
}

/// Compares two words in sortable form under the collation order.
///
/// Gives -1 where `string1` sorts before `string2`, 1 where it sorts after
/// and 0 where neither; a character without a rank that the comparison
/// meets is reported as invalid.
pub fn usort(string1: &str, string2: &str) -> (r: Result<i8, KorrektorError>)
    ensures
        verdict(r) == collation(string1@, string2@),
{
    let a = to_chars(string1);
    let b = to_chars(string2);
    let end: usize = if a.len() < b.len() {
        a.len()
    } else {
        b.len()
    };
    let mut i: usize = 0;
    while i < end
        invariant
            i <= end,
            end == walk_end(a@, b@),
            a@ == string1@,
            b@ == string2@,
            collation(a@, b@) == collation_from(a@, b@, i as int),
        decreases end - i,
    {
        let value1 = match get_value(a[i]) {
            Ok(v) => v,
            Err(e) => {
                return Err(e);
            },
        };
        let value2 = match get_value(b[i]) {
            Ok(v) => v,
            Err(e) => {
                return Err(e);
            },
        };
        if value1 < value2 {
            return Ok(-1);
        }
        if value1 > value2 {
            return Ok(1);
        }
        i += 1;
    }
    if a.len() < b.len() {
        Ok(-1)
    } else if a.len() > b.len() {
        Ok(1)
    } else {
        Ok(0)
    }
}

/// Whether `c` is one of the marks that are written for the Uzbek modifier
/// apostrophe.
pub open spec fn is_apostrophe(c: char) -> bool {
    c == 'ʻ' || c == 'ʼ' || c == '\'' || c == '‘' || c == '’' || c == '‛' || c == '′' || c == 'ʽ'
        || c == '`'
}

/// Whether `c` is a letter that forms a grapheme with a following apostrophe.
pub open spec fn takes_modifier(c: char) -> bool {
    c == 'G' || c == 'g' || c == 'O' || c == 'o'
}

/// Whether `c` is one of the ten characters that stand for a grapheme of two
/// characters in a sortable key.
pub open spec fn is_placeholder(c: char) -> bool {
    c == 'Ğ' || c == 'ğ' || c == 'Ŏ' || c == 'ŏ' || c == 'Š' || c == 'Ö' || c == 'š' || c == 'Č'
        || c == 'Ü' || c == 'č'
}

/// The placeholder of the grapheme that `a` and `b` form, if they form one.
pub open spec fn digraph(a: char, b: char) -> Option<char> {
    if is_apostrophe(b) {
        if a == 'G' {
            Some('Ğ')
        } else if a == 'g' {
            Some('ğ')
        } else if a == 'O' {
            Some('Ŏ')
        } else if a == 'o' {
            Some('ŏ')
        } else {
            None
        }
    } else if b == 'h' {
        if a == 'S' {
            Some('Š')
        } else if a == 's' {
            Some('š')
        } else if a == 'C' {
            Some('Č')
        } else if a == 'c' {
            Some('č')
        } else {
            None
        }
    } else if b == 'H' {
        if a == 'S' {
            Some('Ö')
        } else if a == 'C' {
            Some('Ü')
        } else {
            None
        }
    } else {
        None
    }
}

/// Every character that a sortable key puts in the place of a grapheme or
/// of an apostrophe mark has a rank.
pub proof fn lemma_placeholders_ranked()
    ensures
        forall|c: char| is_placeholder(c) ==> rank(c) is Some,
        forall|a: char, b: char|
            digraph(a, b) is Some ==> is_placeholder(#[trigger] digraph(a, b)->Some_0),
        rank('ʼ') == Some(0nat),
{
    lemma_ranks();
    lemma_char_order_distinct();
    let table = char_order();
    assert(table[0] == 'ʼ' && table[25] == 'ŏ' && table[26] == 'ğ' && table[27] == 'š'
        && table[28] == 'č' && table[53] == 'Ŏ' && table[54] == 'Ğ' && table[55] == 'Š'
        && table[56] == 'Č') by {
        reveal(char_order);
    }
    assert(rank(table[0]) is Some && rank(table[25]) is Some && rank(table[26]) is Some && rank(
        table[27],
    ) is Some && rank(table[28]) is Some && rank(table[53]) is Some && rank(table[54]) is Some
        && rank(table[55]) is Some && rank(table[56]) is Some);
}

/// A character that forms no grapheme, as it stands in a sortable key: every
/// apostrophe mark becomes the modifier apostrophe.
pub open spec fn single(c: char) -> char {
    if is_apostrophe(c) {
        'ʼ'
    } else {
        c
    }
}

/// The sortable key of a text: read from the left, each grapheme of two
/// characters becomes its placeholder and each other apostrophe mark the
/// modifier apostrophe; everything else stays.
pub open spec fn to_sortable_text(s: Seq<char>) -> Seq<char>
    decreases s.len(),
{
    if s.len() == 0 {
        Seq::<char>::empty()
    } else if s.len() >= 2 && digraph(s[0], s[1]) is Some {
        seq![digraph(s[0], s[1])->Some_0] + to_sortable_text(s.skip(2))
    } else {
        seq![single(s[0])] + to_sortable_text(s.skip(1))
    }
}

/// What a character of a sortable key stands for: the two characters of its
/// grapheme for a placeholder, itself otherwise.
pub open spec fn expansion(c: char) -> Seq<char> {
    if c == 'Ğ' {
        seq!['G', '‘']
    } else if c == 'ğ' {
        seq!['g', '‘']
    } else if c == 'Ŏ' {
        seq!['O', '‘']
    } else if c == 'ŏ' {
        seq!['o', '‘']
    } else if c == 'Š' {
        seq!['S', 'h']
    } else if c == 'Ö' {
        seq!['S', 'H']
    } else if c == 'š' {
        seq!['s', 'h']
    } else if c == 'Č' {
        seq!['C', 'h']
    } else if c == 'Ü' {
        seq!['C', 'H']
    } else if c == 'č' {
        seq!['c', 'h']
    } else {
        seq![c]
    }
}

/// The text that a sortable key stands for: each character's expansion, in
/// order.
pub open spec fn from_sortable_text(s: Seq<char>) -> Seq<char>
    decreases s.len(),
{
    if s.len() == 0 {
        Seq::<char>::empty()
    } else {
        expansion(s[0]) + from_sortable_text(s.skip(1))
    }
}

/// A text in the spelling that a sortable key gives back: it holds no
/// placeholder, the apostrophe behind `G`, `g`, `O` or `o` is the turned
/// comma `‘`, and every other apostrophe is the modifier apostrophe `ʼ`.
pub open spec fn canonical(w: Seq<char>) -> bool {
    forall|i: int|
        0 <= i < w.len() ==> {
            &&& !is_placeholder(#[trigger] w[i])
            &&& is_apostrophe(w[i]) ==> w[i] == if i > 0 && takes_modifier(w[i - 1]) {
                '‘'
            } else {
                'ʼ'
            }
        }
}

proof fn lemma_round_trip_from(w: Seq<char>, i: int)
    requires
        canonical(w),
        0 <= i <= w.len(),
        i == 0 || i == w.len() || !(takes_modifier(w[i - 1]) && is_apostrophe(w[i])),
    ensures
        from_sortable_text(to_sortable_text(w.skip(i))) == w.skip(i),
    decreases w.len() - i,
{
    let rest = w.skip(i);
    if i < w.len() {
        assert(rest[0] == w[i]);
        assert(!is_placeholder(w[i]));
        if rest.len() >= 2 && digraph(rest[0], rest[1]) is Some {
            let p = digraph(rest[0], rest[1])->Some_0;
            assert(rest[1] == w[i + 1]);
            assert(rest.skip(2) =~= w.skip(i + 2));
            lemma_round_trip_from(w, i + 2);
            let key = seq![p] + to_sortable_text(w.skip(i + 2));
            assert(key[0] == p);
            assert(key.skip(1) =~= to_sortable_text(w.skip(i + 2)));
            assert(!is_placeholder(w[i + 1]));
            assert(expansion(p) =~= seq![w[i], w[i + 1]]);
            assert(expansion(p) + w.skip(i + 2) =~= rest);
        } else {
            assert(rest.skip(1) =~= w.skip(i + 1));
            if i + 1 < w.len() {
                assert(rest[1] == w[i + 1]);
            }
            lemma_round_trip_from(w, i + 1);
            let c = single(rest[0]);
            let key = seq![c] + to_sortable_text(w.skip(i + 1));
            assert(key[0] == c);
            assert(key.skip(1) =~= to_sortable_text(w.skip(i + 1)));
            assert(c == w[i]);
            assert(expansion(c) =~= seq![w[i]]);
            assert(expansion(c) + w.skip(i + 1) =~= rest);
        }
    } else {
        assert(rest =~= Seq::<char>::empty());
    }
}

/// A text in canonical spelling is given back unchanged by its sortable key.
pub proof fn lemma_sortable_round_trip(w: Seq<char>)
    requires
        canonical(w),
    ensures
        from_sortable_text(to_sortable_text(w)) == w,
{
    lemma_round_trip_from(w, 0);
    assert(w.skip(0) =~= w);
}

fn is_apostrophe_mark(c: char) -> (r: bool)
    ensures
        r == is_apostrophe(c),
{
    c == 'ʻ' || c == 'ʼ' || c == '\'' || c == '‘' || c == '’' || c == '‛' || c == '′' || c == 'ʽ'
        || c == '`'
}

fn digraph_of(a: char, b: char) -> (r: Option<char>)
    ensures
        r == digraph(a, b),
{
    if is_apostrophe_mark(b) {
        if a == 'G' {
            Some('Ğ')
        } else if a == 'g' {
            Some('ğ')
        } else if a == 'O' {
            Some('Ŏ')
        } else if a == 'o' {
            Some('ŏ')
        } else {
            None
        }
    } else if b == 'h' {
        if a == 'S' {
            Some('Š')
        } else if a == 's' {
            Some('š')
        } else if a == 'C' {
            Some('Č')
        } else if a == 'c' {
            Some('č')
        } else {
            None
        }
    } else if b == 'H' {
        if a == 'S' {
            Some('Ö')
        } else if a == 'C' {
            Some('Ü')
        } else {
            None
        }
    } else {
        None
    }
}

/// The sortable key of `text`.
pub fn to_sortable(text: String) -> (r: String)
    ensures
        r@ == to_sortable_text(text@),
{
    let chars = to_chars(text.as_str());
    let n = chars.len();
    let mut out = String::new();
    let mut i: usize = 0;
    assert(chars@.skip(0) =~= chars@);
    while i < n
        invariant
            i <= n,
            n == chars.len(),
            chars@ == text@,
            out@ + to_sortable_text(chars@.skip(i as int)) == to_sortable_text(chars@),
        decreases n - i,
    {
        let ghost rest = chars@.skip(i as int);
        let ghost before = out@;
        let a = chars[i];
        assert(rest[0] == a);
        let pair = if i + 1 < n {
            assert(rest[1] == chars@[i + 1]);
            digraph_of(a, chars[i + 1])
        } else {
            None
        };
        match pair {
            Some(p) => {
                out.push(p);
                assert(rest.skip(2) =~= chars@.skip(i + 2));
                assert(out@ + to_sortable_text(chars@.skip(i + 2)) =~= before + to_sortable_text(
                    rest,
                ));
                i += 2;
            },
            None => {
                let c = if is_apostrophe_mark(a) {
                    'ʼ'
                } else {
                    a
                };
                out.push(c);
                assert(rest.skip(1) =~= chars@.skip(i + 1));
                assert(out@ + to_sortable_text(chars@.skip(i + 1)) =~= before + to_sortable_text(
                    rest,
                ));
                i += 1;
            },
        }
    }
    assert(out@ + Seq::<char>::empty() =~= out@);
    out
}

/// Appends to `out` what the character `c` of a sortable key stands for.
fn push_expansion(out: &mut String, c: char)
    ensures
        final(out)@ == old(out)@ + expansion(c),
{
    let ghost before = out@;
    if c == 'Ğ' {
        out.push('G');
        out.push('‘');
    } else if c == 'ğ' {
        out.push('g');
        out.push('‘');
    } else if c == 'Ŏ' {
        out.push('O');
        out.push('‘');
    } else if c == 'ŏ' {
        out.push('o');
        out.push('‘');
    } else if c == 'Š' {
        out.push('S');
        out.push('h');
    } else if c == 'Ö' {
        out.push('S');
        out.push('H');
    } else if c == 'š' {
        out.push('s');
        out.push('h');
    } else if c == 'Č' {
        out.push('C');
        out.push('h');
    } else if c == 'Ü' {
        out.push('C');
        out.push('H');
    } else if c == 'č' {
        out.push('c');
        out.push('h');
    } else {
        out.push(c);
    }
    assert(out@ =~= before + expansion(c));
}

/// The text that the sortable key `text` stands for.
pub fn from_sortable(text: String) -> (r: String)
    ensures
        r@ == from_sortable_text(text@),
{
    let chars = to_chars(text.as_str());
    let n = chars.len();
    let mut out = String::new();
    let mut i: usize = 0;
    assert(chars@.skip(0) =~= chars@);
    while i < n
        invariant
            i <= n,
            n == chars.len(),
            chars@ == text@,
            out@ + from_sortable_text(chars@.skip(i as int)) == from_sortable_text(chars@),
        decreases n - i,
    {
        let ghost rest = chars@.skip(i as int);
        let ghost before = out@;
        assert(rest[0] == chars@[i as int]);
        push_expansion(&mut out, chars[i]);
        assert(rest.skip(1) =~= chars@.skip(i + 1));
        assert(out@ + from_sortable_text(chars@.skip(i + 1)) =~= before + from_sortable_text(rest));
        i += 1;
    }
    assert(out@ + Seq::<char>::empty() =~= out@);
    out
}


/// `words` with the neighbours at `i` and `i + 1` exchanged.
pub open spec fn exchanged(words: Seq<Seq<char>>, i: int) -> Seq<Seq<char>> {
    words.update(i, words[i + 1]).update(i + 1, words[i])
}

/// One pass over the neighbours from `i` up to `end`: a pair whose first
/// word sorts after its second is exchanged, and the pass goes on with the
/// next pair. It gives the words and whether a pair was exchanged, in this
/// pass so far (`moved`) or from here on; a failed comparison ends it.
pub open spec fn bubble_pass(words: Seq<Seq<char>>, i: int, end: int, moved: bool) -> Result<
    (Seq<Seq<char>>, bool),
    ErrorView,
>
    decreases end - i,
{
    if i < 0 || i + 1 >= end || end > words.len() {
        Ok((words, moved))
    } else {
        match collation(words[i], words[i + 1]) {
            Err(e) => Err(e),
            Ok(v) => if v == 1 {
                bubble_pass(exchanged(words, i), i + 1, end, true)
            } else {
                bubble_pass(words, i + 1, end, moved)
            },
        }
    }
}

/// Passes over the first `end` words, each pass one word shorter than the
/// last, until a pass exchanges nothing.
pub open spec fn bubble_sort(words: Seq<Seq<char>>, end: int) -> Result<
    Seq<Seq<char>>,
    ErrorView,
>
    decreases end,
{
    if end <= 0 {
        Ok(words)
    } else {
        match bubble_pass(words, 0, end, false) {
            Err(e) => Err(e),
            Ok((next, moved)) => if moved {
                bubble_sort(next, end - 1)
            } else {
                Ok(next)
            },
        }
    }
}

/// The words in ascending order, or the invalid character that a comparison
/// met.
pub open spec fn sorted_words(words: Seq<Seq<char>>) -> Result<Seq<Seq<char>>, ErrorView> {
    bubble_sort(words, words.len() as int)
}

/// What [`sort_sortable`] makes of a text of sortable words.
pub open spec fn sorted_text(s: Seq<char>) -> Result<Seq<char>, ErrorView> {
    match sorted_words(split_words(s)) {
        Ok(words) => Ok(join_words(words)),
        Err(e) => Err(e),
    }
}

/// What [`sort`] makes of a text: its words are sorted by their sortable
/// keys and given back in the spelling that the keys stand for.
pub open spec fn sort_text(s: Seq<char>) -> Result<Seq<char>, ErrorView> {
    match sorted_text(to_sortable_text(s)) {
        Ok(sorted) => Ok(from_sortable_text(sorted)),
        Err(e) => Err(e),
    }
}

/// Whether `order` lists the places of `words` in the arrangement `current`.
pub open spec fn arranged(words: Seq<String>, order: Seq<usize>, current: Seq<Seq<char>>) -> bool {
    &&& order.len() == words.len()
    &&& current.len() == words.len()
    &&& forall|k: int|
        0 <= k < order.len() ==> (#[trigger] order[k]) < words.len() && current[k]
            == words[order[k] as int]@
}

/// Sorts the words of a text in sortable form and joins them by single
/// spaces.
///
/// The words are the runs between white space. Neighbours that stand in the
/// wrong order are exchanged, pass after pass, until a pass exchanges none;
/// words that compare equal keep their order. A character without a rank
/// that a comparison meets ends the sorting with the error that names it.
pub fn sort_sortable(text: &str) -> (r: Result<String, KorrektorError>)
    ensures
        outcome(r) == sorted_text(text@),
{
    let chars = to_chars(text);
    let words = split_whitespace(&chars);
    let n = words.len();
    let mut order: Vec<usize> = Vec::new();
    let mut k: usize = 0;
    while k < n
        invariant
            k <= n,
            n == words.len(),
            order.len() == k,
            forall|j: int| 0 <= j < k ==> order[j] == j,
        decreases n - k,
    {
        order.push(k);
        k += 1;
    }
    let ghost start = words.deep_view();
    let ghost mut current = start;
    assert(arranged(words@, order@, current)) by {
        assert forall|j: int| 0 <= j < order.len() implies (#[trigger] order@[j]) < words.len()
            && current[j] == words@[order@[j] as int]@ by {
            assert(current[j] == words@[j].deep_view());
        }
    }
    let mut end: usize = n;
    let mut sorted = false;
    while !sorted && end > 0
        invariant
            n == words.len(),
            end <= n,
            start == split_words(text@),
            arranged(words@, order@, current),
            sorted ==> sorted_words(start) == Ok::<Seq<Seq<char>>, ErrorView>(current),
            !sorted ==> sorted_words(start) == bubble_sort(current, end as int),
        decreases
                (if sorted {
                    0int
                } else {
                    1int
                }),
                end,
    {
        let ghost first = current;
        sorted = true;
        let mut i: usize = 0;
        while i + 1 < end
            invariant
                n == words.len(),
                0 < end <= n,
                i < end,
                start == split_words(text@),
                arranged(words@, order@, current),
                sorted_words(start) == bubble_sort(first, end as int),
                bubble_pass(first, 0, end as int, false) == bubble_pass(
                    current,
                    i as int,
                    end as int,
                    !sorted,
                ),
            decreases end - i,
        {
            let x: usize = order[i];
            let y: usize = order[i + 1];
            assert(current[i as int] == words@[x as int]@);
            assert(current[i + 1] == words@[y as int]@);
            match usort(words[x].as_str(), words[y].as_str()) {
                Err(e) => {
                    assert(bubble_pass(current, i as int, end as int, !sorted) == Err::<
                        (Seq<Seq<char>>, bool),
                        ErrorView,
                    >(e@));
                    assert(sorted_words(start) == Err::<Seq<Seq<char>>, ErrorView>(e@));
                    return Err(e);
                },
                Ok(v) => {
                    if v == 1 {
                        order.set(i, y);
                        order.set(i + 1, x);
                        proof {
                            current = exchanged(current, i as int);
                        }
                        sorted = false;
                    }
                },
            }
            i += 1;
        }
        end -= 1;
    }
    let mut out = String::new();
    let mut k: usize = 0;
    assert(current.take(0) =~= Seq::<Seq<char>>::empty());
    while k < n
        invariant
            k <= n,
            n == words.len(),
            arranged(words@, order@, current),
            out@ == join_words(current.take(k as int)),
        decreases n - k,
    {
        let ghost before = out@;
        if k > 0 {
            out.push(' ');
        }
        let place: usize = order[k];
        out.append(words[place].as_str());
        proof {
            let next = current.take(k + 1);
            assert(next.drop_last() =~= current.take(k as int));
            assert(next.last() == current[k as int]);
            assert(out@ =~= join_words(next));
        }
        k += 1;
    }
    assert(current.take(n as int) =~= current);
    Ok(out)
}

/// Sorts the words of `text` in ascending alphabetical order.
///
/// The text is brought into sortable form, its words are sorted and joined
/// by single spaces, and the result is brought back from sortable form.
pub fn sort(text: &str) -> (r: Result<String, KorrektorError>)
    ensures
        outcome(r) == sort_text(text@),
{
    let sortable = to_sortable(String::from_str(text));
    match sort_sortable(sortable.as_str()) {
        Err(e) => Err(e),
        Ok(sorted) => Ok(from_sortable(sorted)),
    }
}


/// Exchanging two neighbours keeps the words and their number.
pub proof fn lemma_exchanged_permutes(words: Seq<Seq<char>>, i: int)
    requires
        0 <= i,
        i + 1 < words.len(),
    ensures
        exchanged(words, i).to_multiset() == words.to_multiset(),
        exchanged(words, i).len() == words.len(),
{
    let half = words.update(i, words[i + 1]);
    to_multiset_update(words, i, words[i + 1]);
    to_multiset_update(half, i + 1, words[i]);
    assert(half[i + 1] == words[i + 1]);
    words.to_multiset_ensures();
    assert(words.contains(words[i]));
    assert(words.contains(words[i + 1]));
    let all = words.to_multiset();
    let a = words[i];
    let b = words[i + 1];
    assert(all.count(a) > 0);
    assert(all.insert(b).remove(a).insert(a).remove(b) =~= all);
}

proof fn lemma_bubble_pass_permutes(words: Seq<Seq<char>>, i: int, end: int, moved: bool)
    ensures
        bubble_pass(words, i, end, moved) is Ok ==> {
            &&& bubble_pass(words, i, end, moved)->Ok_0.0.to_multiset() == words.to_multiset()
            &&& bubble_pass(words, i, end, moved)->Ok_0.0.len() == words.len()
        },
    decreases end - i,
{
    if !(i < 0 || i + 1 >= end || end > words.len()) {
        match collation(words[i], words[i + 1]) {
            Err(e) => {},
            Ok(v) => {
                if v == 1 {
                    lemma_exchanged_permutes(words, i);
                    lemma_bubble_pass_permutes(exchanged(words, i), i + 1, end, true);
                } else {
                    lemma_bubble_pass_permutes(words, i + 1, end, moved);
                }
            },
        }
    }
}

proof fn lemma_bubble_sort_permutes(words: Seq<Seq<char>>, end: int)
    ensures
        bubble_sort(words, end) is Ok ==> {
            &&& bubble_sort(words, end)->Ok_0.to_multiset() == words.to_multiset()
            &&& bubble_sort(words, end)->Ok_0.len() == words.len()
        },
    decreases end,
{
    if end > 0 {
        lemma_bubble_pass_permutes(words, 0, end, false);
        match bubble_pass(words, 0, end, false) {
            Err(e) => {},
            Ok((next, moved)) => {
                if moved {
                    lemma_bubble_sort_permutes(next, end - 1);
                }
            },
        }
    }
}

/// Sorting rearranges: what comes out holds each word as often as what went
/// in.
pub proof fn lemma_sorted_words_permutes(words: Seq<Seq<char>>)
    ensures
        sorted_words(words) is Ok ==> {
            &&& sorted_words(words)->Ok_0.to_multiset() == words.to_multiset()
            &&& sorted_words(words)->Ok_0.len() == words.len()
        },
{
    lemma_bubble_sort_permutes(words, words.len() as int);
}

/// The key of a key character before a rest stands for the character's
/// expansion before what the rest stands for.
proof fn lemma_from_sortable_step(k: char, rest: Seq<char>)
    ensures
        from_sortable_text(seq![k] + rest) == expansion(k) + from_sortable_text(rest),
{
    let s = seq![k] + rest;
    assert(s[0] == k);
    assert(s.skip(1) =~= rest);
}

/// What a sortable key stands for is no shorter than the text of the key.
proof fn lemma_round_trip_not_shorter(x: Seq<char>)
    ensures
        from_sortable_text(to_sortable_text(x)).len() >= x.len(),
    decreases x.len(),
{
    if x.len() > 0 {
        if x.len() >= 2 && digraph(x[0], x[1]) is Some {
            let p = digraph(x[0], x[1])->Some_0;
            lemma_from_sortable_step(p, to_sortable_text(x.skip(2)));
            lemma_round_trip_not_shorter(x.skip(2));
        } else {
            lemma_from_sortable_step(single(x[0]), to_sortable_text(x.skip(1)));
            lemma_round_trip_not_shorter(x.skip(1));
        }
    }
}

/// Whether `w` is in canonical spelling from position `i` on.
pub open spec fn canonical_from(w: Seq<char>, i: int) -> bool {
    forall|j: int|
        i <= j < w.len() ==> {
            &&& !is_placeholder(#[trigger] w[j])
            &&& is_apostrophe(w[j]) ==> w[j] == if j > 0 && takes_modifier(w[j - 1]) {
                '‘'
            } else {
                'ʼ'
            }
        }
}

proof fn lemma_only_canonical_from(w: Seq<char>, i: int)
    requires
        0 <= i <= w.len(),
        i == 0 || i == w.len() || !(takes_modifier(w[i - 1]) && is_apostrophe(w[i])),
        from_sortable_text(to_sortable_text(w.skip(i))) == w.skip(i),
    ensures
        canonical_from(w, i),
    decreases w.len() - i,
{
    let rest = w.skip(i);
    if i < w.len() {
        assert(rest[0] == w[i]);
        if rest.len() >= 2 && digraph(rest[0], rest[1]) is Some {
            let p = digraph(rest[0], rest[1])->Some_0;
            assert(rest[1] == w[i + 1]);
            assert(rest.skip(2) =~= w.skip(i + 2));
            let tail = from_sortable_text(to_sortable_text(w.skip(i + 2)));
            lemma_from_sortable_step(p, to_sortable_text(w.skip(i + 2)));
            assert(rest == expansion(p) + tail);
            assert(expansion(p).len() == 2);
            assert(tail =~= rest.skip(2));
            assert(rest[0] == expansion(p)[0]);
            assert(rest[1] == expansion(p)[1]);
            lemma_only_canonical_from(w, i + 2);
        } else {
            let c = single(rest[0]);
            assert(rest.skip(1) =~= w.skip(i + 1));
            if i + 1 < w.len() {
                assert(rest[1] == w[i + 1]);
            }
            let tail = from_sortable_text(to_sortable_text(w.skip(i + 1)));
            lemma_from_sortable_step(c, to_sortable_text(w.skip(i + 1)));
            lemma_round_trip_not_shorter(w.skip(i + 1));
            assert(rest == expansion(c) + tail);
            assert(expansion(c).len() == 1);
            assert(rest[0] == expansion(c)[0]);
            assert(tail =~= rest.skip(1));
            lemma_only_canonical_from(w, i + 1);
        }
    }
}

/// A text is given back unchanged by its sortable key exactly where it is
/// in canonical spelling.
pub proof fn lemma_round_trip_iff_canonical(w: Seq<char>)
    ensures
        from_sortable_text(to_sortable_text(w)) == w <==> canonical(w),
{
    assert(w.skip(0) =~= w);
    if canonical(w) {
        lemma_sortable_round_trip(w);
    }
    if from_sortable_text(to_sortable_text(w)) == w {
        lemma_only_canonical_from(w, 0);
    }
}

/// How one word stands to another in the order of the alphabet.
#[derive(Debug, Clone, Copy, PartialEq, Eq, Structural)]
pub enum WordOrder {
    /// The first word sorts before the second.
    Less,
    /// Neither word sorts before the other.
    Equal,
    /// The first word sorts after the second.
    Greater,
}

/// The order that a number of the comparison stands for.
pub open spec fn order_of(v: int) -> WordOrder {
    if v < 0 {
        WordOrder::Less
    } else if v == 0 {
        WordOrder::Equal
    } else {
        WordOrder::Greater
    }
}

/// The order seen from the other word.
pub open spec fn reversed(order: WordOrder) -> WordOrder {
    match order {
        WordOrder::Less => WordOrder::Greater,
        WordOrder::Equal => WordOrder::Equal,
        WordOrder::Greater => WordOrder::Less,
    }
}

/// How the word `a` stands to the word `b`: their sortable keys are
/// compared.
pub open spec fn compared(a: Seq<char>, b: Seq<char>) -> Result<WordOrder, ErrorView> {
    match collation(to_sortable_text(a), to_sortable_text(b)) {
        Ok(v) => Ok(order_of(v)),
        Err(e) => Err(e),
    }
}

/// Compares two words under the order of the alphabet: both are brought
/// into sortable form and compared as [`usort`] compares.
pub fn compare(word_a: &str, word_b: &str) -> (r: Result<WordOrder, KorrektorError>)
    ensures
        match r {
            Ok(order) => compared(word_a@, word_b@) == Ok::<WordOrder, ErrorView>(order),
            Err(e) => compared(word_a@, word_b@) == Err::<WordOrder, ErrorView>(e@),
        },
{
    let key_a = to_sortable(String::from_str(word_a));
    let key_b = to_sortable(String::from_str(word_b));
    match usort(key_a.as_str(), key_b.as_str()) {
        Err(e) => Err(e),
        Ok(v) => if v < 0 {
            Ok(WordOrder::Less)
        } else if v == 0 {
            Ok(WordOrder::Equal)
        } else {
            Ok(WordOrder::Greater)
        },
    }
}

/// Two words whose keys are made of ranked characters compare as exact
/// opposites when taken in the other order, and each compares equal to
/// itself.
pub proof fn lemma_compare_opposite(a: Seq<char>, b: Seq<char>)
    requires
        in_alphabet(to_sortable_text(a)),
        in_alphabet(to_sortable_text(b)),
    ensures
        compared(a, b) is Ok,
        compared(b, a) == Ok::<WordOrder, ErrorView>(reversed(compared(a, b)->Ok_0)),
        compared(a, a) == Ok::<WordOrder, ErrorView>(WordOrder::Equal),
{
    lemma_collation_opposite(to_sortable_text(a), to_sortable_text(b));
    lemma_collation_same(to_sortable_text(a));
}

} // verus!
