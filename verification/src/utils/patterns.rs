//! Pattern matching by the regular-expression engines, ordered rule sets, and
//! the marks that guard a span of text.
use crate::utils::text::char_index;
use crate::utils::text::index_at;
use crate::utils::text::lemma_index_at_bound;
use crate::utils::text::to_chars;
use vstd::prelude::*;

verus! {

/// The mark that opens a guarded span.
pub const OPEN_MARK: char = '〈';

/// The mark that closes a guarded span.
pub const CLOSE_MARK: char = '〉';

/// Whether the backtracking engine accepts `pattern`: whether
/// `fancy_regex::Regex::new` compiles it.
pub uninterp spec fn detector_accepts(pattern: Seq<char>) -> bool;

/// The matches of `pattern` in `text` as the backtracking engine finds them:
/// the start and end, in bytes of UTF-8, of each match that
/// `fancy_regex::Regex::find_iter` yields, up to the first search that the
/// engine gives up.
pub uninterp spec fn detector_found(pattern: Seq<char>, text: Seq<char>) -> Seq<(usize, usize)>;

/// Whether the automaton engine accepts `pattern`: whether
/// `regex::Regex::new` compiles it.
pub uninterp spec fn regex_accepts(pattern: Seq<char>) -> bool;

/// `text` with every match of `pattern` replaced by `replacement`, as
/// `regex::Regex::replace_all` does it; `$` in the replacement refers to the
/// groups of the match.
pub uninterp spec fn regex_replaced(
    pattern: Seq<char>,
    text: Seq<char>,
    replacement: Seq<char>,
) -> Seq<char>;

/// The matches of `pattern` in `text` as the automaton engine finds them: the
/// start and end, in bytes of UTF-8, of each match that
/// `regex::Regex::find_iter` yields.
pub uninterp spec fn regex_found(pattern: Seq<char>, text: Seq<char>) -> Seq<(usize, usize)>;

/// Calls `fancy_regex::Regex::new` and says whether it compiled the pattern.
/// Nothing is proved of the engine: the result is taken for what
/// [`detector_accepts`] names.
#[verifier::external_body]
pub(crate) fn detector_compiles(pattern: &str) -> (r: bool)
    ensures
        r == detector_accepts(pattern@),
{
    fancy_regex::Regex::new(pattern).is_ok()
}

/// Calls `fancy_regex::Regex::find_iter` on a pattern that compiles, and
/// gives the byte offsets of the matches in the order in which the iterator
/// yields them; the list ends where a search fails. Nothing is proved of the
/// engine: the list is taken for what [`detector_found`] names, and no
/// property of the offsets is claimed.
#[verifier::external_body]
pub(crate) fn find_spans(pattern: &str, text: &str) -> (spans: Vec<(usize, usize)>)
    requires
        detector_accepts(pattern@),
    ensures
        spans@ == detector_found(pattern@, text@),
{
    let re = fancy_regex::Regex::new(pattern).unwrap();
    re.find_iter(text).map_while(|m| m.ok()).map(|m| (m.start(), m.end())).collect()
}

/// Calls `regex::Regex::new` and says whether it compiled the pattern.
/// Nothing is proved of the engine: the result is taken for what
/// [`regex_accepts`] names.
#[verifier::external_body]
pub(crate) fn regex_compiles(pattern: &str) -> (r: bool)
    ensures
        r == regex_accepts(pattern@),
{
    regex::Regex::new(pattern).is_ok()
}

/// Calls `regex::Regex::replace_all` on a pattern that compiles. Nothing is
/// proved of the engine: the text that it returns is taken for what
/// [`regex_replaced`] names.
#[verifier::external_body]
pub(crate) fn regex_replace_all(pattern: &str, text: &str, replacement: &str) -> (r: String)
    requires
        regex_accepts(pattern@),
    ensures
        r@ == regex_replaced(pattern@, text@, replacement@),
{
    regex::Regex::new(pattern).unwrap().replace_all(text, replacement).into_owned()
}

/// Calls `regex::Regex::find_iter` on a pattern that compiles, and gives the
/// byte offsets of the matches in order. Nothing is proved of the engine:
/// the list is taken for what [`regex_found`] names, and no property of the
/// offsets is claimed.
#[verifier::external_body]
pub(crate) fn regex_find_spans(pattern: &str, text: &str) -> (spans: Vec<(usize, usize)>)
    requires
        regex_accepts(pattern@),
    ensures
        spans@ == regex_found(pattern@, text@),
{
    regex::Regex::new(pattern).unwrap().find_iter(text).map(|m| (m.start(), m.end())).collect()
}

/// Whether `c` is one of the two marks.
pub open spec fn is_mark(c: char) -> bool {
    c == OPEN_MARK || c == CLOSE_MARK
}

/// The depth of nesting behind the character `c`, where `depth` pairs of
/// marks are open before it: an opening mark opens one more, a closing mark
/// closes one where one is open, and any other character leaves the depth as
/// it is. Text is guarded where the depth is not zero.
pub open spec fn depth_behind(c: char, depth: nat) -> nat {
    if c == OPEN_MARK {
        depth + 1
    } else if c == CLOSE_MARK && depth > 0 {
        (depth - 1) as nat
    } else {
        depth
    }
}

/// The depth of nesting behind the character `c`.
pub fn step_depth(c: char, depth: usize) -> (r: usize)
    requires
        depth < usize::MAX,
    ensures
        r == depth_behind(c, depth as nat),
{
    if c == OPEN_MARK {
        depth + 1
    } else if c == CLOSE_MARK && depth > 0 {
        depth - 1
    } else {
        depth
    }
}

/// The larger of two positions.
pub open spec fn later(a: int, b: int) -> int {
    if a < b {
        b
    } else {
        a
    }
}

/// The text from position `pos` on, with the spans from the `j`-th on
/// marked. A span is given by byte offsets; it covers the characters between
/// the two characters that start at these offsets. A span that begins before
/// `pos` is cut to begin there.
pub open spec fn wrap_from(text: Seq<char>, spans: Seq<(usize, usize)>, j: int, pos: int) -> Seq<
    char,
>
    decreases spans.len() - j,
{
    if pos < 0 || pos > text.len() {
        Seq::<char>::empty()
    } else if j < 0 || j >= spans.len() {
        text.skip(pos)
    } else {
        let start = later(index_at(text, spans[j].0 as nat) as int, pos);
        let end = later(index_at(text, spans[j].1 as nat) as int, start);
        text.subrange(pos, start) + seq![OPEN_MARK] + text.subrange(start, end) + seq![CLOSE_MARK]
            + wrap_from(text, spans, j + 1, end)
    }
}

/// The text with each span enclosed in the two marks.
pub open spec fn wrapped(text: Seq<char>, spans: Seq<(usize, usize)>) -> Seq<char> {
    wrap_from(text, spans, 0, 0)
}

/// The text without its marks.
pub open spec fn unwrapped(s: Seq<char>) -> Seq<char>
    decreases s.len(),
{
    if s.len() == 0 {
        Seq::<char>::empty()
    } else if is_mark(s.last()) {
        unwrapped(s.drop_last())
    } else {
        unwrapped(s.drop_last()).push(s.last())
    }
}

/// Whether a text holds no mark.
pub open spec fn unmarked(s: Seq<char>) -> bool {
    forall|i: int| 0 <= i < s.len() ==> !is_mark(#[trigger] s[i])
}

/// Taking the marks out of two texts in a row is taking them out of each.
pub proof fn lemma_unwrapped_concat(a: Seq<char>, b: Seq<char>)
    ensures
        unwrapped(a + b) == unwrapped(a) + unwrapped(b),
    decreases b.len(),
{
    if b.len() == 0 {
        assert(a + b =~= a);
        assert(unwrapped(a) + unwrapped(b) =~= unwrapped(a));
    } else {
        assert((a + b).drop_last() =~= a + b.drop_last());
        assert((a + b).last() == b.last());
        lemma_unwrapped_concat(a, b.drop_last());
        assert(unwrapped(a + b) =~= unwrapped(a) + unwrapped(b));
    }
}

/// A text out of which the marks are taken holds no mark.
pub proof fn lemma_unwrapped_is_unmarked(s: Seq<char>)
    ensures
        unmarked(unwrapped(s)),
    decreases s.len(),
{
    if s.len() > 0 {
        lemma_unwrapped_is_unmarked(s.drop_last());
        let shorter = unwrapped(s.drop_last());
        if !is_mark(s.last()) {
            assert forall|i: int| 0 <= i < unwrapped(s).len() implies !is_mark(
                #[trigger] unwrapped(s)[i],
            ) by {
                if i < shorter.len() {
                    assert(unwrapped(s)[i] == shorter[i]);
                }
            }
        }
    }
}

/// A text without marks stays as it is when the marks are taken out.
pub proof fn lemma_unwrapped_unmarked(s: Seq<char>)
    requires
        unmarked(s),
    ensures
        unwrapped(s) == s,
    decreases s.len(),
{
    if s.len() > 0 {
        assert forall|i: int| 0 <= i < s.drop_last().len() implies !is_mark(
            #[trigger] s.drop_last()[i],
        ) by {
            assert(s.drop_last()[i] == s[i]);
        }
        lemma_unwrapped_unmarked(s.drop_last());
        assert(!is_mark(s[s.len() - 1]));
        assert(unwrapped(s) =~= s);
    } else {
        assert(unwrapped(s) =~= s);
    }
}

proof fn lemma_unwrap_wrap_from(text: Seq<char>, spans: Seq<(usize, usize)>, j: int, pos: int)
    requires
        0 <= pos <= text.len(),
        0 <= j,
    ensures
        unwrapped(wrap_from(text, spans, j, pos)) == unwrapped(text.skip(pos)),
    decreases spans.len() - j,
{
    if j < spans.len() {
        lemma_index_at_bound(text, spans[j].0 as nat);
        lemma_index_at_bound(text, spans[j].1 as nat);
        let start = later(index_at(text, spans[j].0 as nat) as int, pos);
        let end = later(index_at(text, spans[j].1 as nat) as int, start);
        let before = text.subrange(pos, start);
        let inside = text.subrange(start, end);
        let rest = wrap_from(text, spans, j + 1, end);
        lemma_unwrap_wrap_from(text, spans, j + 1, end);
        let open = seq![OPEN_MARK];
        let close = seq![CLOSE_MARK];
        assert(unwrapped(open) =~= Seq::<char>::empty()) by {
            reveal_with_fuel(unwrapped, 2);
            assert(open.last() == OPEN_MARK);
            assert(open.drop_last() =~= Seq::<char>::empty());
        }
        assert(unwrapped(close) =~= Seq::<char>::empty()) by {
            reveal_with_fuel(unwrapped, 2);
            assert(close.last() == CLOSE_MARK);
            assert(close.drop_last() =~= Seq::<char>::empty());
        }
        lemma_unwrapped_concat(before, open);
        lemma_unwrapped_concat(before + open, inside);
        lemma_unwrapped_concat(before + open + inside, close);
        lemma_unwrapped_concat(before + open + inside + close, rest);
        lemma_unwrapped_concat(before, inside);
        lemma_unwrapped_concat(before + inside, text.skip(end));
        assert(before + inside + text.skip(end) =~= text.skip(pos));
        assert(unwrapped(wrap_from(text, spans, j, pos)) =~= unwrapped(before) + unwrapped(inside)
            + unwrapped(text.skip(end)));
    }
}

/// Marking spans adds marks and nothing else: with the marks taken out
/// again, a marked text is the text that was marked, without the marks that
/// it held before.
pub proof fn lemma_unwrap_wrap(text: Seq<char>, spans: Seq<(usize, usize)>)
    ensures
        unwrapped(wrapped(text, spans)) == unwrapped(text),
        unmarked(text) ==> unwrapped(wrapped(text, spans)) == text,
{
    lemma_unwrap_wrap_from(text, spans, 0, 0);
    assert(text.skip(0) =~= text);
    if unmarked(text) {
        lemma_unwrapped_unmarked(text);
    }
}

/// Where nothing is marked, the text stays as it is.
pub proof fn lemma_wrapped_none(text: Seq<char>)
    ensures
        wrapped(text, Seq::<(usize, usize)>::empty()) == text,
{
    assert(text.skip(0) =~= text);
}

/// Whether a detector found one match, and that from the first byte of the
/// text to its last.
pub open spec fn matches_whole(found: Seq<(usize, usize)>, text: Seq<char>) -> bool {
    &&& found.len() == 1
    &&& found[0].0 == 0
    &&& index_at(text, found[0].1 as nat) == text.len()
}

/// A single span that runs from the first byte to the last encloses the
/// whole text in one pair of marks.
pub proof fn lemma_wrapped_whole(text: Seq<char>, end: usize)
    requires
        index_at(text, end as nat) == text.len(),
    ensures
        wrapped(text, seq![(0usize, end)]) == seq![OPEN_MARK] + text + seq![CLOSE_MARK],
{
    let spans = seq![(0usize, end)];
    let n = text.len() as int;
    assert(index_at(text, 0) == 0);
    assert(wrap_from(text, spans, 1, n) =~= Seq::<char>::empty());
    assert(text.subrange(0, 0) =~= Seq::<char>::empty());
    assert(text.subrange(0, n) =~= text);
    assert(wrap_from(text, spans, 0, 0) =~= seq![OPEN_MARK] + text + seq![CLOSE_MARK]);
}

/// The depth of nesting behind a text, where `depth` pairs of marks are open
/// before it and every closing mark of the text closes a pair.
pub open spec fn level(s: Seq<char>, depth: int) -> int
    decreases s.len(),
{
    if s.len() == 0 {
        depth
    } else if s[0] == OPEN_MARK {
        level(s.skip(1), depth + 1)
    } else if s[0] == CLOSE_MARK {
        level(s.skip(1), depth - 1)
    } else {
        level(s.skip(1), depth)
    }
}

/// Whether, with `depth` pairs of marks open before the text, every closing
/// mark of it stands deeper than `close_floor` and every character of it
/// that is no mark stands deeper than `char_floor`.
pub open spec fn kept(s: Seq<char>, depth: int, close_floor: int, char_floor: int) -> bool
    decreases s.len(),
{
    if s.len() == 0 {
        true
    } else if s[0] == OPEN_MARK {
        kept(s.skip(1), depth + 1, close_floor, char_floor)
    } else if s[0] == CLOSE_MARK {
        depth > close_floor && kept(s.skip(1), depth - 1, close_floor, char_floor)
    } else {
        depth > char_floor && kept(s.skip(1), depth, close_floor, char_floor)
    }
}

/// Whether every character of a text that is no opening mark stands inside
/// a pair of marks: the text is guarded throughout, and its marks are
/// paired.
pub open spec fn sheltered(s: Seq<char>) -> bool {
    kept(s, 0, 0, 0)
}

/// What holds of two texts in a row holds of the first and, from the depth
/// behind it, of the second.
pub proof fn lemma_kept_concat(x: Seq<char>, y: Seq<char>, depth: int, cf: int, hf: int)
    ensures
        kept(x + y, depth, cf, hf) <==> kept(x, depth, cf, hf) && kept(
            y,
            level(x, depth),
            cf,
            hf,
        ),
        level(x + y, depth) == level(y, level(x, depth)),
    decreases x.len(),
{
    if x.len() == 0 {
        assert(x + y =~= y);
    } else {
        assert((x + y)[0] == x[0]);
        assert((x + y).skip(1) =~= x.skip(1) + y);
        if x[0] == OPEN_MARK {
            lemma_kept_concat(x.skip(1), y, depth + 1, cf, hf);
        } else if x[0] == CLOSE_MARK {
            lemma_kept_concat(x.skip(1), y, depth - 1, cf, hf);
        } else {
            lemma_kept_concat(x.skip(1), y, depth, cf, hf);
        }
    }
}

/// What holds of a text holds of it one pair deeper, and leaves it one pair
/// deeper.
pub proof fn lemma_kept_deeper(x: Seq<char>, depth: int, cf: int, hf: int)
    requires
        kept(x, depth, cf, hf),
    ensures
        kept(x, depth + 1, cf, hf),
        kept(x, depth + 1, cf + 1, hf + 1),
        level(x, depth + 1) == level(x, depth) + 1,
    decreases x.len(),
{
    if x.len() > 0 {
        if x[0] == OPEN_MARK {
            lemma_kept_deeper(x.skip(1), depth + 1, cf, hf);
        } else if x[0] == CLOSE_MARK {
            lemma_kept_deeper(x.skip(1), depth - 1, cf, hf);
        } else {
            lemma_kept_deeper(x.skip(1), depth, cf, hf);
        }
    }
}

/// A text whose closing marks all stand deeper than a floor never leads
/// below the floor, and meets every lower floor; its characters stand no
/// lower than the floor.
pub proof fn lemma_kept_floor(
    x: Seq<char>,
    depth: int,
    cf: int,
    hf: int,
    lower: int,
    under: int,
)
    requires
        kept(x, depth, cf, hf),
        depth >= cf,
        lower <= cf,
        under < cf,
    ensures
        level(x, depth) >= cf,
        kept(x, depth, lower, under),
    decreases x.len(),
{
    if x.len() > 0 {
        if x[0] == OPEN_MARK {
            lemma_kept_floor(x.skip(1), depth + 1, cf, hf, lower, under);
        } else if x[0] == CLOSE_MARK {
            lemma_kept_floor(x.skip(1), depth - 1, cf, hf, lower, under);
        } else {
            lemma_kept_floor(x.skip(1), depth, cf, hf, lower, under);
        }
    }
}

/// A text without marks meets every floor for closing marks, and leaves the
/// depth as it is.
pub proof fn lemma_kept_unmarked(x: Seq<char>, depth: int, cf: int, hf: int)
    requires
        unmarked(x),
        depth > hf,
    ensures
        kept(x, depth, cf, hf),
        level(x, depth) == depth,
    decreases x.len(),
{
    if x.len() > 0 {
        assert(!is_mark(x[0]));
        assert forall|i: int| 0 <= i < x.skip(1).len() implies !is_mark(
            #[trigger] x.skip(1)[i],
        ) by {
            assert(x.skip(1)[i] == x[i + 1]);
        }
        lemma_kept_unmarked(x.skip(1), depth, cf, hf);
    }
}

proof fn lemma_kept_wrap_from(
    text: Seq<char>,
    spans: Seq<(usize, usize)>,
    j: int,
    pos: int,
    depth: int,
    cf: int,
    hf: int,
)
    requires
        0 <= pos <= text.len(),
        0 <= j,
        kept(text.skip(pos), depth, cf, hf),
        depth >= cf,
    ensures
        kept(wrap_from(text, spans, j, pos), depth, cf, hf),
        level(wrap_from(text, spans, j, pos), depth) == level(text.skip(pos), depth),
    decreases spans.len() - j,
{
    if j < spans.len() {
        lemma_index_at_bound(text, spans[j].0 as nat);
        lemma_index_at_bound(text, spans[j].1 as nat);
        let start = later(index_at(text, spans[j].0 as nat) as int, pos);
        let end = later(index_at(text, spans[j].1 as nat) as int, start);
        let before = text.subrange(pos, start);
        let inside = text.subrange(start, end);
        let behind = text.skip(end);
        let rest = wrap_from(text, spans, j + 1, end);
        let open = seq![OPEN_MARK];
        let close = seq![CLOSE_MARK];
        assert(before + (inside + behind) =~= text.skip(pos));
        lemma_kept_concat(before, inside + behind, depth, cf, hf);
        let d1 = level(before, depth);
        lemma_kept_concat(inside, behind, d1, cf, hf);
        let d2 = level(inside, d1);
        lemma_kept_floor(before, depth, cf, hf, cf, cf - 1);
        lemma_kept_floor(inside, d1, cf, hf, cf, cf - 1);
        lemma_kept_wrap_from(text, spans, j + 1, end, d2, cf, hf);
        lemma_kept_deeper(inside, d1, cf, hf);
        assert(kept(close + rest, d2 + 1, cf, hf) && level(close + rest, d2 + 1) == level(
            rest,
            d2,
        )) by {
            assert((close + rest)[0] == CLOSE_MARK);
            assert((close + rest).skip(1) =~= rest);
        }
        lemma_kept_concat(inside, close + rest, d1 + 1, cf, hf);
        assert(kept(open + (inside + (close + rest)), d1, cf, hf) && level(
            open + (inside + (close + rest)),
            d1,
        ) == level(inside + (close + rest), d1 + 1)) by {
            let all = open + (inside + (close + rest));
            assert(all[0] == OPEN_MARK);
            assert(all.skip(1) =~= inside + (close + rest));
        }
        lemma_kept_concat(before, open + (inside + (close + rest)), depth, cf, hf);
        assert(wrap_from(text, spans, j, pos) =~= before + (open + (inside + (close + rest))));
    }
}

/// Marking spans in a text keeps what held of its marks and of the depth of
/// its characters: no character comes to stand less deep, and the depth
/// behind the text stays.
pub proof fn lemma_kept_wrapped(
    text: Seq<char>,
    spans: Seq<(usize, usize)>,
    depth: int,
    cf: int,
    hf: int,
)
    requires
        kept(text, depth, cf, hf),
        depth >= cf,
    ensures
        kept(wrapped(text, spans), depth, cf, hf),
        level(wrapped(text, spans), depth) == level(text, depth),
{
    assert(text.skip(0) =~= text);
    lemma_kept_wrap_from(text, spans, 0, 0, depth, cf, hf);
}

/// A text with paired marks that is enclosed whole in one more pair is
/// guarded throughout.
pub proof fn lemma_sheltered_whole(text: Seq<char>)
    requires
        kept(text, 0, 0, -1),
    ensures
        sheltered(seq![OPEN_MARK] + text + seq![CLOSE_MARK]),
{
    let close = seq![CLOSE_MARK];
    let all = seq![OPEN_MARK] + text + close;
    lemma_kept_deeper(text, 0, 0, -1);
    lemma_kept_floor(text, 1, 1, 0, 0, 0);
    assert(kept(close, level(text, 1), 0, 0)) by {
        reveal_with_fuel(kept, 2);
        assert(close[0] == CLOSE_MARK);
        assert(close.skip(1) =~= Seq::<char>::empty());
    }
    lemma_kept_concat(text, close, 1, 0, 0);
    assert(all[0] == OPEN_MARK);
    assert(all.skip(1) =~= text + close);
}

/// Taking the marks out of a text is leaving out its first character where
/// that is a mark, and taking the marks out of the rest.
pub proof fn lemma_unwrapped_first(s: Seq<char>)
    requires
        s.len() > 0,
    ensures
        unwrapped(s) == if is_mark(s[0]) {
            unwrapped(s.skip(1))
        } else {
            seq![s[0]] + unwrapped(s.skip(1))
        },
{
    let first = seq![s[0]];
    assert(first + s.skip(1) =~= s);
    lemma_unwrapped_concat(first, s.skip(1));
    reveal_with_fuel(unwrapped, 2);
    assert(first.drop_last() =~= Seq::<char>::empty());
    assert(first.last() == s[0]);
    if is_mark(s[0]) {
        assert(unwrapped(first) =~= Seq::<char>::empty());
        assert(unwrapped(first) + unwrapped(s.skip(1)) =~= unwrapped(s.skip(1)));
    } else {
        assert(unwrapped(first) =~= first);
    }
}

/// Appends the characters of `chars` from `from` up to `to`.
pub(crate) fn push_range(out: &mut String, chars: &Vec<char>, from: usize, to: usize)
    requires
        from <= to <= chars.len(),
    ensures
        final(out)@ == old(out)@ + chars@.subrange(from as int, to as int),
{
    let mut i: usize = from;
    assert(chars@.subrange(from as int, from as int) =~= Seq::<char>::empty());
    assert(out@ =~= old(out)@ + chars@.subrange(from as int, from as int));
    while i < to
        invariant
            from <= i <= to <= chars.len(),
            out@ == old(out)@ + chars@.subrange(from as int, i as int),
        decreases to - i,
    {
        out.push(chars[i]);
        assert(chars@.subrange(from as int, i + 1) =~= chars@.subrange(from as int, i as int).push(
            chars@[i as int],
        ));
        assert(out@ =~= old(out)@ + chars@.subrange(from as int, i + 1));
        i += 1;
    }
}

/// Encloses each of the matches in the two marks that guard a span from the
/// operations of the library. A match is given by the byte offsets of its
/// start and end in `text`.
pub fn wrap_matches(text: &str, matches: &Vec<(usize, usize)>) -> (r: String)
    ensures
        r@ == wrapped(text@, matches@),
{
    let chars = to_chars(text);
    let n = chars.len();
    let mut out = String::new();
    let mut pos: usize = 0;
    let mut j: usize = 0;
    while j < matches.len()
        invariant
            j <= matches.len(),
            pos <= n,
            n == chars.len(),
            chars@ == text@,
            out@ + wrap_from(text@, matches@, j as int, pos as int) == wrapped(text@, matches@),
        decreases matches.len() - j,
    {
        let ghost before = out@;
        let span = matches[j];
        let at_start = char_index(&chars, span.0);
        let start: usize = if at_start < pos {
            pos
        } else {
            at_start
        };
        let at_end = char_index(&chars, span.1);
        let end: usize = if at_end < start {
            start
        } else {
            at_end
        };
        push_range(&mut out, &chars, pos, start);
        out.push(OPEN_MARK);
        push_range(&mut out, &chars, start, end);
        out.push(CLOSE_MARK);
        assert(out@ + wrap_from(text@, matches@, j + 1, end as int) =~= before + wrap_from(
            text@,
            matches@,
            j as int,
            pos as int,
        ));
        pos = end;
        j += 1;
    }
    push_range(&mut out, &chars, pos, n);
    assert(chars@.subrange(pos as int, n as int) =~= chars@.skip(pos as int));
    out
}

/// Encloses every match of `pattern` in `text` in the two marks.
pub fn wrap_regex(text: &str, pattern: &str) -> (r: String)
    requires
        detector_accepts(pattern@),
    ensures
        r@ == wrapped(text@, detector_found(pattern@, text@)),
{
    let matches = find_spans(pattern, text);
    wrap_matches(text, &matches)
}

/// As [`wrap_regex`], for a pattern of which it is not known whether the
/// engine accepts it: gives nothing where it does not.
pub fn try_wrap_regex(text: &str, pattern: &str) -> (r: Option<String>)
    ensures
        match r {
            Some(s) => detector_accepts(pattern@) && s@ == wrapped(
                text@,
                detector_found(pattern@, text@),
            ),
            None => !detector_accepts(pattern@),
        },
{
    if detector_compiles(pattern) {
        Some(wrap_regex(text, pattern))
    } else {
        None
    }
}

/// Takes every mark out of `text`, however the marks are nested.
pub fn unwrap_text(text: &str) -> (r: String)
    ensures
        r@ == unwrapped(text@),
{
    let chars = to_chars(text);
    let mut out = String::new();
    let mut i: usize = 0;
    assert(chars@.take(0) =~= Seq::<char>::empty());
    while i < chars.len()
        invariant
            i <= chars.len(),
            chars@ == text@,
            out@ == unwrapped(chars@.take(i as int)),
        decreases chars.len() - i,
    {
        let c = chars[i];
        assert(chars@.take(i + 1).drop_last() =~= chars@.take(i as int));
        assert(chars@.take(i + 1).last() == c);
        if c != OPEN_MARK && c != CLOSE_MARK {
            out.push(c);
        }
        i += 1;
    }
    assert(chars@.take(chars.len() as int) =~= chars@);
    out
}


/// A rule set as patterns and replacements, each by its characters.
pub open spec fn rules_view(rules: Seq<(&str, &str)>) -> Seq<(Seq<char>, Seq<char>)> {
    Seq::new(rules.len(), |i: int| (rules[i].0@, rules[i].1@))
}

/// Whether the engine accepts the pattern of every rule.
pub open spec fn rules_accepted(rules: Seq<(Seq<char>, Seq<char>)>) -> bool {
    forall|i: int| 0 <= i < rules.len() ==> regex_accepts(#[trigger] rules[i].0)
}

/// A text after the rules, applied one after the other: each rule works on
/// the whole of what the rules before it made of the text.
pub open spec fn rules_applied(text: Seq<char>, rules: Seq<(Seq<char>, Seq<char>)>) -> Seq<char>
    decreases rules.len(),
{
    if rules.len() == 0 {
        text
    } else {
        rules_applied(regex_replaced(rules[0].0, text, rules[0].1), rules.skip(1))
    }
}

/// Applying two rule sets in a row is applying the second to what the first
/// made of the text.
pub proof fn lemma_rules_in_a_row(
    text: Seq<char>,
    first: Seq<(Seq<char>, Seq<char>)>,
    second: Seq<(Seq<char>, Seq<char>)>,
)
    ensures
        rules_applied(text, first + second) == rules_applied(rules_applied(text, first), second),
    decreases first.len(),
{
    if first.len() == 0 {
        assert(first + second =~= second);
    } else {
        assert((first + second)[0] == first[0]);
        assert((first + second).skip(1) =~= first.skip(1) + second);
        lemma_rules_in_a_row(
            regex_replaced(first[0].0, text, first[0].1),
            first.skip(1),
            second,
        );
    }
}

/// Applies the rules to `input` in their order: in the text that the rules
/// before it have made, each rule replaces every match of its pattern by its
/// replacement.
pub fn replace_pairs(input: &str, constant: &[(&str, &str)]) -> (r: String)
    requires
        rules_accepted(rules_view(constant@)),
    ensures
        r@ == rules_applied(input@, rules_view(constant@)),
{
    let ghost rules = rules_view(constant@);
    let mut text = String::from_str(input);
    let mut i: usize = 0;
    assert(rules.skip(0) =~= rules);
    while i < constant.len()
        invariant
            i <= constant.len(),
            rules == rules_view(constant@),
            rules_accepted(rules),
            rules_applied(text@, rules.skip(i as int)) == rules_applied(input@, rules),
        decreases constant.len() - i,
    {
        let rule = constant[i];
        assert(rules.skip(i as int)[0] == rules[i as int]);
        assert(rules.skip(i as int).skip(1) =~= rules.skip(i + 1));
        assert(regex_accepts(rules[i as int].0));
        text = regex_replace_all(rule.0, text.as_str(), rule.1);
        i += 1;
    }
    text
}

/// Whether the engine accepts the pattern of every rule.
pub fn rules_compile(constant: &[(&str, &str)]) -> (r: bool)
    ensures
        r == rules_accepted(rules_view(constant@)),
{
    let ghost rules = rules_view(constant@);
    let mut i: usize = 0;
    while i < constant.len()
        invariant
            i <= constant.len(),
            rules == rules_view(constant@),
            forall|j: int| 0 <= j < i ==> regex_accepts(#[trigger] rules[j].0),
        decreases constant.len() - i,
    {
        let rule = constant[i];
        assert(rules[i as int].0 == rule.0@);
        if !regex_compiles(rule.0) {
            return false;
        }
        i += 1;
    }
    true
}

/// As [`replace_pairs`], for rules of which it is not known whether the
/// engine accepts their patterns: gives nothing where it refuses one.
pub fn try_replace_pairs(input: &str, constant: &[(&str, &str)]) -> (r: Option<String>)
    ensures
        match r {
            Some(s) => rules_accepted(rules_view(constant@)) && s@ == rules_applied(
                input@,
                rules_view(constant@),
            ),
            None => !rules_accepted(rules_view(constant@)),
        },
{
    if rules_compile(constant) {
        Some(replace_pairs(input, constant))
    } else {
        None
    }
}

} // verus!
