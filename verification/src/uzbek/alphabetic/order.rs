//! The order that the comparison of words defines: that it is an order, and
//! that sorting leaves the words in it.
use crate::error::ErrorView;
use crate::uzbek::alphabetic::bubble_pass;
use crate::uzbek::alphabetic::bubble_sort;
use crate::uzbek::alphabetic::by_length;
use crate::uzbek::alphabetic::collation;
use crate::uzbek::alphabetic::collation_from;
use crate::uzbek::alphabetic::exchanged;
use crate::utils::text::join_words;
use crate::utils::text::split_words;
use crate::uzbek::alphabetic::from_sortable_text;
use crate::uzbek::alphabetic::sort_text;
use crate::uzbek::alphabetic::to_sortable_text;
use crate::uzbek::alphabetic::in_alphabet;
use crate::uzbek::alphabetic::lemma_collation_opposite;
use crate::uzbek::alphabetic::rank;
use crate::uzbek::alphabetic::sorted_words;
use crate::uzbek::alphabetic::walk_end;
use vstd::prelude::*;

verus! {

/// Whether `a` and `b` have characters of the same rank at every position
/// from `from` up to `to`.
pub open spec fn ties(a: Seq<char>, b: Seq<char>, from: int, to: int) -> bool {
    forall|i: int| from <= i < to ==> rank(#[trigger] a[i]) == rank(b[i])
}

/// The first position from `i` up to `n` at which the ranks of `a` and `b`
/// differ, or `n` where they differ at none.
pub open spec fn gap(a: Seq<char>, b: Seq<char>, i: int, n: int) -> int
    decreases n - i,
{
    if i >= n {
        n
    } else if rank(a[i]) != rank(b[i]) {
        i
    } else {
        gap(a, b, i + 1, n)
    }
}

proof fn lemma_gap(a: Seq<char>, b: Seq<char>, i: int, n: int)
    requires
        i <= n,
    ensures
        i <= gap(a, b, i, n) <= n,
        ties(a, b, i, gap(a, b, i, n)),
        gap(a, b, i, n) < n ==> rank(a[gap(a, b, i, n)]) != rank(b[gap(a, b, i, n)]),
    decreases n - i,
{
    if i < n && rank(a[i]) == rank(b[i]) {
        lemma_gap(a, b, i + 1, n);
    }
}

proof fn lemma_collation_through_ties(a: Seq<char>, b: Seq<char>, i: int, d: int)
    requires
        in_alphabet(a),
        in_alphabet(b),
        0 <= i <= d <= walk_end(a, b),
        walk_end(a, b) <= a.len(),
        walk_end(a, b) <= b.len(),
        ties(a, b, i, d),
    ensures
        collation_from(a, b, i) == collation_from(a, b, d),
    decreases d - i,
{
    if i < d {
        assert(rank(a[i]) is Some);
        assert(rank(b[i]) is Some);
        assert(rank(a[i]) == rank(b[i]));
        lemma_collation_through_ties(a, b, i + 1, d);
    }
}

/// What a comparison of words of ranked characters comes to: where the
/// ranks differ at a position of the shorter word, the first such position
/// decides, and the lower rank sorts first; where they differ at none, the
/// word of fewer characters sorts first, and words of one length compare
/// equal.
pub proof fn lemma_collation_by_gap(a: Seq<char>, b: Seq<char>)
    requires
        in_alphabet(a),
        in_alphabet(b),
    ensures
        ({
            let n = walk_end(a, b);
            let d = gap(a, b, 0, n);
            &&& 0 <= d <= n
            &&& n <= a.len()
            &&& n <= b.len()
            &&& ties(a, b, 0, d)
            &&& d < n ==> rank(a[d]) is Some && rank(b[d]) is Some && rank(a[d]) != rank(b[d])
                && collation(a, b) == Ok::<int, ErrorView>(
                if rank(a[d])->Some_0 < rank(b[d])->Some_0 {
                    -1int
                } else {
                    1int
                },
            )
            &&& d == n ==> collation(a, b) == Ok::<int, ErrorView>(by_length(a, b))
        }),
{
    let n = walk_end(a, b);
    lemma_gap(a, b, 0, n);
    let d = gap(a, b, 0, n);
    lemma_collation_through_ties(a, b, 0, d);
    if d < n {
        assert(rank(a[d]) is Some);
        assert(rank(b[d]) is Some);
    }
}

/// Whether `a` does not sort after `b`.
pub open spec fn not_after(a: Seq<char>, b: Seq<char>) -> bool {
    collation(a, b) is Ok && collation(a, b)->Ok_0 <= 0
}

/// The comparison is transitive: a word that does not sort after a second,
/// which does not sort after a third, does not sort after the third.
pub proof fn lemma_collation_transitive(a: Seq<char>, b: Seq<char>, c: Seq<char>)
    requires
        in_alphabet(a),
        in_alphabet(b),
        in_alphabet(c),
        not_after(a, b),
        not_after(b, c),
    ensures
        not_after(a, c),
{
    lemma_collation_by_gap(a, b);
    lemma_collation_by_gap(b, c);
    lemma_collation_by_gap(a, c);
    let n1 = walk_end(a, b);
    let n2 = walk_end(b, c);
    let n3 = walk_end(a, c);
    let d1 = gap(a, b, 0, n1);
    let d2 = gap(b, c, 0, n2);
    if d1 < n1 && d2 < n2 {
        let m = if d1 < d2 {
            d1
        } else {
            d2
        };
        assert(ties(a, c, 0, m));
        assert(rank(a[m]) is Some && rank(b[m]) is Some && rank(c[m]) is Some);
        assert(rank(a[m])->Some_0 < rank(c[m])->Some_0);
        lemma_first_gap(a, c, n3, m);
    } else if d1 == n1 && d2 < n2 {
        if d2 < n1 {
            assert(ties(a, c, 0, d2));
            assert(rank(a[d2]) == rank(b[d2]));
            lemma_first_gap(a, c, n3, d2);
        } else {
            assert(ties(a, c, 0, n3));
            lemma_first_gap(a, c, n3, n3);
        }
    } else if d1 < n1 && d2 == n2 {
        assert(ties(a, c, 0, d1));
        assert(rank(b[d1]) == rank(c[d1]));
        lemma_first_gap(a, c, n3, d1);
    } else {
        assert(ties(a, c, 0, n3));
        lemma_first_gap(a, c, n3, n3);
    }
}

proof fn lemma_first_gap(a: Seq<char>, c: Seq<char>, n: int, m: int)
    requires
        0 <= m <= n,
        ties(a, c, 0, m),
        m < n ==> rank(a[m]) != rank(c[m]),
    ensures
        gap(a, c, 0, n) == m,
{
    lemma_gap_from(a, c, 0, n, m);
}

proof fn lemma_gap_from(a: Seq<char>, c: Seq<char>, i: int, n: int, m: int)
    requires
        0 <= i <= m <= n,
        ties(a, c, i, m),
        m < n ==> rank(a[m]) != rank(c[m]),
    ensures
        gap(a, c, i, n) == m,
    decreases m - i,
{
    if i < m {
        assert(rank(a[i]) == rank(c[i]));
        lemma_gap_from(a, c, i + 1, n, m);
    }
}


/// Whether every word is made of ranked characters.
pub open spec fn all_ranked(words: Seq<Seq<char>>) -> bool {
    forall|k: int| 0 <= k < words.len() ==> in_alphabet(#[trigger] words[k])
}

/// Whether no word from `from` up to `to` sorts after the word that follows
/// it.
pub open spec fn in_order(words: Seq<Seq<char>>, from: int, to: int) -> bool {
    forall|k: int| from <= k && k + 1 < to ==> not_after(#[trigger] words[k], words[k + 1])
}

/// Whether none of the first `end` words sorts after `top`.
pub open spec fn below(words: Seq<Seq<char>>, end: int, top: Seq<char>) -> bool {
    forall|k: int| 0 <= k < end ==> not_after(#[trigger] words[k], top)
}

proof fn lemma_pass_in_order(
    words: Seq<Seq<char>>,
    i: int,
    end: int,
    moved: bool,
    bounded: bool,
    top: Seq<char>,
)
    requires
        all_ranked(words),
        0 <= i,
        0 < end <= words.len(),
        i < end,
        bounded ==> below(words, end, top),
        below(words, i, words[i]),
        !moved ==> in_order(words, 0, i + 1),
    ensures
        bubble_pass(words, i, end, moved) is Ok,
        ({
            let (next, changed) = bubble_pass(words, i, end, moved)->Ok_0;
            &&& next.len() == words.len()
            &&& all_ranked(next)
            &&& forall|k: int| end <= k < words.len() ==> next[k] == words[k]
            &&& bounded ==> below(next, end, top)
            &&& below(next, end - 1, next[end - 1])
            &&& moved ==> changed
            &&& !changed ==> next == words && in_order(next, 0, end)
        }),
    decreases end - i,
{
    if i + 1 < end {
        lemma_collation_opposite(words[i], words[i + 1]);
        let v = collation(words[i], words[i + 1])->Ok_0;
        if v == 1 {
            let next = exchanged(words, i);
            assert(next[i] == words[i + 1]);
            assert(next[i + 1] == words[i]);
            assert forall|k: int| 0 <= k < next.len() implies in_alphabet(#[trigger] next[k]) by {
                if k != i && k != i + 1 {
                    assert(next[k] == words[k]);
                }
            }
            if bounded {
                assert forall|k: int| 0 <= k < end implies not_after(#[trigger] next[k], top) by {
                    if k == i {
                        assert(not_after(words[i + 1], top));
                    } else if k == i + 1 {
                        assert(not_after(words[i], top));
                    } else {
                        assert(next[k] == words[k]);
                        assert(not_after(words[k], top));
                    }
                }
            }
            assert forall|k: int| 0 <= k < i + 1 implies not_after(
                #[trigger] next[k],
                next[i + 1],
            ) by {
                if k < i {
                    assert(next[k] == words[k]);
                    assert(not_after(words[k], words[i]));
                }
            }
            lemma_pass_in_order(next, i + 1, end, true, bounded, top);
            let last = bubble_pass(next, i + 1, end, true)->Ok_0.0;
            assert forall|k: int| end <= k < words.len() implies last[k] == words[k] by {
                assert(next[k] == words[k]);
            }
        } else {
            assert(not_after(words[i], words[i + 1]));
            assert forall|k: int| 0 <= k < i + 1 implies not_after(
                #[trigger] words[k],
                words[i + 1],
            ) by {
                if k < i {
                    assert(not_after(words[k], words[i]));
                    lemma_collation_transitive(words[k], words[i], words[i + 1]);
                }
            }
            if !moved {
                assert forall|k: int| 0 <= k && k + 1 < i + 2 implies not_after(
                    #[trigger] words[k],
                    words[k + 1],
                ) by {
                    if k + 1 < i + 1 {
                        assert(in_order(words, 0, i + 1));
                    }
                }
            }
            lemma_pass_in_order(words, i + 1, end, moved, bounded, top);
        }
    }
}

proof fn lemma_sort_in_order(words: Seq<Seq<char>>, end: int)
    requires
        all_ranked(words),
        0 <= end <= words.len(),
        in_order(words, end, words.len() as int),
        end < words.len() ==> below(words, end, words[end]),
    ensures
        bubble_sort(words, end) is Ok,
        bubble_sort(words, end)->Ok_0.len() == words.len(),
        in_order(bubble_sort(words, end)->Ok_0, 0, words.len() as int),
    decreases end,
{
    let n = words.len() as int;
    if end > 0 {
        let bounded = end < n;
        let top = if bounded {
            words[end]
        } else {
            words[0]
        };
        lemma_pass_in_order(words, 0, end, false, bounded, top);
        let (next, changed) = bubble_pass(words, 0, end, false)->Ok_0;
        if changed {
            assert forall|k: int| end - 1 <= k && k + 1 < n implies not_after(
                #[trigger] next[k],
                next[k + 1],
            ) by {
                if k == end - 1 {
                    assert(next[end] == words[end]);
                    assert(not_after(next[end - 1], top));
                } else {
                    assert(next[k] == words[k]);
                    assert(next[k + 1] == words[k + 1]);
                    assert(not_after(words[k], words[k + 1]));
                }
            }
            lemma_sort_in_order(next, end - 1);
        } else {
            assert forall|k: int| 0 <= k && k + 1 < n implies not_after(
                #[trigger] words[k],
                words[k + 1],
            ) by {
                if k + 1 < end {
                    assert(in_order(words, 0, end));
                } else if k == end - 1 {
                    assert(not_after(words[end - 1], words[end]));
                } else {
                    assert(in_order(words, end, n));
                }
            }
        }
    } else {
        assert(in_order(words, 0, n));
    }
}

/// Words made of ranked characters alone are sorted into order: what comes
/// out holds the words that went in, and no word of it sorts after the word
/// that follows it.
pub proof fn lemma_sorted_words_in_order(words: Seq<Seq<char>>)
    requires
        all_ranked(words),
    ensures
        sorted_words(words) is Ok,
        sorted_words(words)->Ok_0.len() == words.len(),
        sorted_words(words)->Ok_0.to_multiset() == words.to_multiset(),
        in_order(sorted_words(words)->Ok_0, 0, words.len() as int),
{
    lemma_sort_in_order(words, words.len() as int);
    crate::uzbek::alphabetic::lemma_sorted_words_permutes(words);
}


proof fn lemma_pass_leaves_order(words: Seq<Seq<char>>, i: int, end: int)
    requires
        0 <= i,
        end <= words.len(),
        in_order(words, 0, end),
    ensures
        bubble_pass(words, i, end, false) == Ok::<(Seq<Seq<char>>, bool), ErrorView>(
            (words, false),
        ),
    decreases end - i,
{
    if i + 1 < end {
        assert(not_after(words[i], words[i + 1]));
        lemma_pass_leaves_order(words, i + 1, end);
    }
}

/// Words that stand in order are left as they are: sorting exchanges no
/// pair of them, so that sorting twice gives what sorting once gives.
pub proof fn lemma_sorted_words_stay(words: Seq<Seq<char>>)
    requires
        in_order(words, 0, words.len() as int),
    ensures
        sorted_words(words) == Ok::<Seq<Seq<char>>, ErrorView>(words),
{
    if words.len() > 0 {
        lemma_pass_leaves_order(words, 0, words.len() as int);
    }
}

/// The words that compare equal to the word `x`.
pub open spec fn level_with(x: Seq<char>) -> spec_fn(Seq<char>) -> bool {
    |w: Seq<char>| collation(w, x) == Ok::<int, ErrorView>(0)
}

proof fn lemma_filter_one(a: Seq<char>, pick: spec_fn(Seq<char>) -> bool)
    ensures
        seq![a].filter(pick) == if pick(a) {
            seq![a]
        } else {
            Seq::<Seq<char>>::empty()
        },
{
    reveal_with_fuel(Seq::filter, 2);
    assert(seq![a].drop_last() =~= Seq::<Seq<char>>::empty());
    assert(seq![a].last() == a);
    if pick(a) {
        assert(Seq::<Seq<char>>::empty().push(a) =~= seq![a]);
    }
}

proof fn lemma_exchange_keeps_class(words: Seq<Seq<char>>, i: int, x: Seq<char>)
    requires
        all_ranked(words),
        in_alphabet(x),
        0 <= i,
        i + 1 < words.len(),
        collation(words[i], words[i + 1]) == Ok::<int, ErrorView>(1),
    ensures
        exchanged(words, i).filter(level_with(x)) == words.filter(level_with(x)),
{
    let pick = level_with(x);
    let a = words[i];
    let b = words[i + 1];
    let pre = words.take(i);
    let post = words.skip(i + 2);
    assert(words =~= pre + seq![a] + seq![b] + post);
    assert(exchanged(words, i) =~= pre + seq![b] + seq![a] + post);
    Seq::filter_distributes_over_add(pre, seq![a], pick);
    Seq::filter_distributes_over_add(pre + seq![a], seq![b], pick);
    Seq::filter_distributes_over_add(pre + seq![a] + seq![b], post, pick);
    Seq::filter_distributes_over_add(pre, seq![b], pick);
    Seq::filter_distributes_over_add(pre + seq![b], seq![a], pick);
    Seq::filter_distributes_over_add(pre + seq![b] + seq![a], post, pick);
    lemma_filter_one(a, pick);
    lemma_filter_one(b, pick);
    if pick(a) && pick(b) {
        lemma_collation_opposite(b, x);
        assert(not_after(a, x));
        assert(not_after(x, b));
        lemma_collation_transitive(a, x, b);
    }
    assert(pre.filter(pick) + seq![a].filter(pick) + seq![b].filter(pick) =~= pre.filter(pick)
        + seq![b].filter(pick) + seq![a].filter(pick));
}

proof fn lemma_pass_is_stable(words: Seq<Seq<char>>, i: int, end: int, moved: bool, x: Seq<char>)
    requires
        all_ranked(words),
        in_alphabet(x),
    ensures
        bubble_pass(words, i, end, moved) is Ok ==> {
            &&& all_ranked(bubble_pass(words, i, end, moved)->Ok_0.0)
            &&& bubble_pass(words, i, end, moved)->Ok_0.0.filter(level_with(x)) == words.filter(
                level_with(x),
            )
        },
    decreases end - i,
{
    if !(i < 0 || i + 1 >= end || end > words.len()) {
        lemma_collation_opposite(words[i], words[i + 1]);
        if collation(words[i], words[i + 1])->Ok_0 == 1 {
            let next = exchanged(words, i);
            assert forall|k: int| 0 <= k < next.len() implies in_alphabet(#[trigger] next[k]) by {
                if k == i {
                    assert(next[k] == words[i + 1]);
                } else if k == i + 1 {
                    assert(next[k] == words[i]);
                } else {
                    assert(next[k] == words[k]);
                }
            }
            lemma_exchange_keeps_class(words, i, x);
            lemma_pass_is_stable(next, i + 1, end, true, x);
        } else {
            lemma_pass_is_stable(words, i + 1, end, moved, x);
        }
    }
}

proof fn lemma_bubble_sort_is_stable(words: Seq<Seq<char>>, end: int, x: Seq<char>)
    requires
        all_ranked(words),
        in_alphabet(x),
    ensures
        bubble_sort(words, end) is Ok ==> bubble_sort(words, end)->Ok_0.filter(level_with(x))
            == words.filter(level_with(x)),
    decreases end,
{
    if end > 0 {
        lemma_pass_is_stable(words, 0, end, false, x);
        match bubble_pass(words, 0, end, false) {
            Err(e) => {},
            Ok((next, moved)) => {
                if moved {
                    lemma_bubble_sort_is_stable(next, end - 1, x);
                }
            },
        }
    }
}

/// Sorting is stable: the words that compare equal to any one word come out
/// in the order in which they went in.
pub proof fn lemma_sorted_words_stable(words: Seq<Seq<char>>, x: Seq<char>)
    requires
        all_ranked(words),
        in_alphabet(x),
    ensures
        sorted_words(words) is Ok,
        sorted_words(words)->Ok_0.filter(level_with(x)) == words.filter(level_with(x)),
{
    lemma_sorted_words_in_order(words);
    lemma_bubble_sort_is_stable(words, words.len() as int, x);
}

/// A text whose words have keys of ranked characters alone is always sorted:
/// the result is made of the words of its key, each as often as before, in
/// an order in which no word sorts after the word that follows it, joined by
/// single spaces and brought back from sortable form.
pub proof fn lemma_sort_text_in_order(text: Seq<char>)
    requires
        all_ranked(split_words(to_sortable_text(text))),
    ensures
        ({
            let words = split_words(to_sortable_text(text));
            let sorted = sorted_words(words);
            &&& sorted is Ok
            &&& sorted->Ok_0.to_multiset() == words.to_multiset()
            &&& in_order(sorted->Ok_0, 0, words.len() as int)
            &&& sort_text(text) == Ok::<Seq<char>, ErrorView>(
                from_sortable_text(join_words(sorted->Ok_0)),
            )
        }),
{
    lemma_sorted_words_in_order(split_words(to_sortable_text(text)));
}

} // verus!
