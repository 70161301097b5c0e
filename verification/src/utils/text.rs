//! Texts as sequences of characters.
use vstd::prelude::*;
use vstd::utf8::encode_scalar;
use vstd::utf8::encode_utf8;

verus! {

/// `String::push` appends one character to the end of the string, as its
/// documentation says; this is taken without proof.
pub assume_specification[ String::push ](s: &mut String, c: char)
    ensures
        final(s)@ == old(s)@.push(c),
;

/// The characters of `s`, in order.
pub fn to_chars(s: &str) -> (v: Vec<char>)
    ensures
        v@ == s@,
{
    let mut v: Vec<char> = Vec::new();
    for c in it: s.chars()
        invariant
            v@ == it.seq().take(it.index() as int),
            it.seq() == s@,
    {
        v.push(c);
    }
    v
}

/// The characters of `chars` from `start` up to `end`, as a string.
pub fn substring(chars: &Vec<char>, start: usize, end: usize) -> (s: String)
    requires
        start <= end <= chars.len(),
    ensures
        s@ == chars@.subrange(start as int, end as int),
{
    let mut s = String::new();
    let mut i: usize = start;
    while i < end
        invariant
            start <= i <= end <= chars.len(),
            s@ == chars@.subrange(start as int, i as int),
        decreases end - i,
    {
        s.push(chars[i]);
        i += 1;
    }
    s
}

/// Whether `c` is white space: a character with the Unicode property
/// `White_Space`.
pub open spec fn is_space(c: char) -> bool {
    ('\u{9}' <= c <= '\u{d}') || c == ' ' || c == '\u{85}' || c == '\u{a0}' || c == '\u{1680}' || (
    '\u{2000}' <= c <= '\u{200a}') || c == '\u{2028}' || c == '\u{2029}' || c == '\u{202f}' || c
        == '\u{205f}' || c == '\u{3000}'
}

/// Whether `c` is white space.
pub fn is_whitespace(c: char) -> (r: bool)
    ensures
        r == is_space(c),
{
    (c >= '\u{9}' && c <= '\u{d}') || c == ' ' || c == '\u{85}' || c == '\u{a0}' || c == '\u{1680}'
        || (c >= '\u{2000}' && c <= '\u{200a}') || c == '\u{2028}' || c == '\u{2029}' || c
        == '\u{202f}' || c == '\u{205f}' || c == '\u{3000}'
}

/// The word that has been read so far, as a list of at most one word.
pub open spec fn closed_word(current: Seq<char>) -> Seq<Seq<char>> {
    if current.len() > 0 {
        seq![current]
    } else {
        Seq::<Seq<char>>::empty()
    }
}

/// The words of `s`, where `current` holds the characters of a word already
/// begun.
pub open spec fn split_from(s: Seq<char>, current: Seq<char>) -> Seq<Seq<char>>
    decreases s.len(),
{
    if s.len() == 0 {
        closed_word(current)
    } else if is_space(s[0]) {
        closed_word(current) + split_from(s.skip(1), Seq::<char>::empty())
    } else {
        split_from(s.skip(1), current.push(s[0]))
    }
}

/// The words of a text: its maximal runs of characters that are not white
/// space, in order.
pub open spec fn split_words(s: Seq<char>) -> Seq<Seq<char>> {
    split_from(s, Seq::<char>::empty())
}

/// Whether a text holds no white space.
pub open spec fn spaceless(s: Seq<char>) -> bool {
    forall|i: int| 0 <= i < s.len() ==> !is_space(#[trigger] s[i])
}

proof fn lemma_split_from(s: Seq<char>, current: Seq<char>)
    requires
        spaceless(current),
    ensures
        forall|k: int|
            0 <= k < split_from(s, current).len() ==> (#[trigger] split_from(s, current)[k]).len()
                > 0 && spaceless(split_from(s, current)[k]),
    decreases s.len(),
{
    let words = split_from(s, current);
    if s.len() > 0 {
        if is_space(s[0]) {
            let rest = split_from(s.skip(1), Seq::<char>::empty());
            lemma_split_from(s.skip(1), Seq::<char>::empty());
            assert forall|k: int| 0 <= k < words.len() implies (#[trigger] words[k]).len() > 0
                && spaceless(words[k]) by {
                if current.len() > 0 {
                    if k > 0 {
                        assert(words[k] == rest[k - 1]);
                    }
                } else {
                    assert(words[k] == rest[k]);
                }
            }
        } else {
            let longer = current.push(s[0]);
            assert forall|i: int| 0 <= i < longer.len() implies !is_space(#[trigger] longer[i]) by {
                if i < current.len() {
                    assert(longer[i] == current[i]);
                }
            }
            lemma_split_from(s.skip(1), longer);
            assert(words == split_from(s.skip(1), longer));
        }
    } else {
        assert forall|k: int| 0 <= k < words.len() implies (#[trigger] words[k]).len() > 0
            && spaceless(words[k]) by {
            assert(words[k] == current);
        }
    }
}

/// No word of a text is empty, and none holds white space.
pub proof fn lemma_split_words(s: Seq<char>)
    ensures
        forall|k: int|
            0 <= k < split_words(s).len() ==> (#[trigger] split_words(s)[k]).len() > 0
                && spaceless(split_words(s)[k]),
{
    lemma_split_from(s, Seq::<char>::empty());
}

/// The words joined by single spaces.
pub open spec fn join_words(words: Seq<Seq<char>>) -> Seq<char>
    decreases words.len(),
{
    if words.len() == 0 {
        Seq::<char>::empty()
    } else if words.len() == 1 {
        words[0]
    } else {
        join_words(words.drop_last()) + seq![' '] + words.last()
    }
}

/// The words of `chars`.
pub fn split_whitespace(chars: &Vec<char>) -> (words: Vec<String>)
    ensures
        words.deep_view() == split_words(chars@),
{
    let n = chars.len();
    let mut words: Vec<String> = Vec::new();
    let mut start: usize = 0;
    let mut i: usize = 0;
    assert(chars@.skip(0) =~= chars@);
    assert(chars@.subrange(0, 0) =~= Seq::<char>::empty());
    assert(words.deep_view() =~= Seq::<Seq<char>>::empty());
    while i < n
        invariant
            start <= i <= n,
            n == chars.len(),
            words.deep_view() + split_from(
                chars@.skip(i as int),
                chars@.subrange(start as int, i as int),
            ) == split_words(chars@),
        decreases n - i,
    {
        let ghost rest = chars@.skip(i as int);
        let ghost current = chars@.subrange(start as int, i as int);
        let ghost before = words.deep_view();
        assert(rest[0] == chars@[i as int]);
        assert(rest.skip(1) =~= chars@.skip(i + 1));
        if is_whitespace(chars[i]) {
            if start < i {
                let word = substring(chars, start, i);
                words.push(word);
                assert(words.deep_view() =~= before + seq![current]);
            }
            assert(chars@.subrange(i + 1, i + 1) =~= Seq::<char>::empty());
            assert(words.deep_view() + split_from(chars@.skip(i + 1), Seq::<char>::empty())
                =~= before + split_from(rest, current));
            start = i + 1;
        } else {
            assert(chars@.subrange(start as int, i + 1) =~= current.push(chars@[i as int]));
        }
        i += 1;
    }
    let ghost before = words.deep_view();
    let ghost current = chars@.subrange(start as int, i as int);
    assert(chars@.skip(n as int) =~= Seq::<char>::empty());
    if start < n {
        let word = substring(chars, start, n);
        words.push(word);
        assert(words.deep_view() =~= before + seq![current]);
    } else {
        assert(before + closed_word(current) =~= before);
    }
    words
}

/// The number of bytes that `c` takes in UTF-8.
pub open spec fn utf8_width(c: char) -> nat {
    if c <= '\u{7f}' {
        1
    } else if c <= '\u{7ff}' {
        2
    } else if c <= '\u{ffff}' {
        3
    } else {
        4
    }
}

/// The number of leading characters of `s` that lie wholly within its first
/// `bytes` bytes in UTF-8: the index of the character that starts at byte
/// offset `bytes`, where one starts there.
pub open spec fn index_at(s: Seq<char>, bytes: nat) -> nat
    decreases s.len(),
{
    if s.len() > 0 && utf8_width(s[0]) <= bytes {
        1 + index_at(s.skip(1), (bytes - utf8_width(s[0])) as nat)
    } else {
        0
    }
}

/// The index of a character can not exceed the number of characters.
pub proof fn lemma_index_at_bound(s: Seq<char>, bytes: nat)
    ensures
        index_at(s, bytes) <= s.len(),
    decreases s.len(),
{
    if s.len() > 0 && utf8_width(s[0]) <= bytes {
        lemma_index_at_bound(s.skip(1), (bytes - utf8_width(s[0])) as nat);
    }
}

fn width_of(c: char) -> (w: usize)
    ensures
        w == utf8_width(c),
        1 <= w <= 4,
{
    if c <= '\u{7f}' {
        1
    } else if c <= '\u{7ff}' {
        2
    } else if c <= '\u{ffff}' {
        3
    } else {
        4
    }
}

/// The index among `chars` of the character at byte offset `bytes`.
pub fn char_index(chars: &Vec<char>, bytes: usize) -> (k: usize)
    ensures
        k == index_at(chars@, bytes as nat),
        k <= chars.len(),
{
    let mut k: usize = 0;
    let mut left: usize = bytes;
    assert(chars@.skip(0) =~= chars@);
    while k < chars.len() && width_of(chars[k]) <= left
        invariant
            k <= chars.len(),
            index_at(chars@, bytes as nat) == k + index_at(chars@.skip(k as int), left as nat),
        decreases chars.len() - k,
    {
        assert(chars@.skip(k as int)[0] == chars@[k as int]);
        assert(chars@.skip(k as int).skip(1) =~= chars@.skip(k + 1));
        left = left - width_of(chars[k]);
        k += 1;
    }
    proof {
        if k < chars.len() {
            assert(chars@.skip(k as int)[0] == chars@[k as int]);
        }
    }
    k
}

/// The number of bytes that `s` takes in UTF-8.
pub open spec fn byte_len(s: Seq<char>) -> nat
    decreases s.len(),
{
    if s.len() == 0 {
        0
    } else {
        utf8_width(s[0]) + byte_len(s.skip(1))
    }
}

/// The width of a character is the length of its encoding.
pub proof fn lemma_width_is_encoding(c: char)
    ensures
        encode_scalar(c as u32).len() == utf8_width(c),
{
}

/// The byte length of a text is the length of its encoding.
pub proof fn lemma_byte_len_is_encoding(s: Seq<char>)
    ensures
        encode_utf8(s).len() == byte_len(s),
    decreases s.len(),
{
    if s.len() > 0 {
        lemma_width_is_encoding(s[0]);
        assert(s.drop_first() =~= s.skip(1));
        lemma_byte_len_is_encoding(s.skip(1));
    }
}

/// The character at position `k` is the one that is found at the byte offset
/// at which it starts.
pub proof fn lemma_index_at_start(s: Seq<char>, k: int)
    requires
        0 <= k <= s.len(),
    ensures
        index_at(s, byte_len(s.take(k))) == k,
    decreases k,
{
    if k > 0 {
        let rest = s.skip(1);
        lemma_index_at_start(rest, k - 1);
        assert(s.take(k)[0] == s[0]);
        assert(s.take(k).skip(1) =~= rest.take(k - 1));
    } else {
        assert(s.take(0) =~= Seq::<char>::empty());
    }
}

} // verus!
