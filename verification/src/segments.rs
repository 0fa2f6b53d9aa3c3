//! Event boundaries: where a conversation turns to another topic.

use vstd::prelude::*;

use crate::parser::ConversationTurn;
#[allow(unused_imports)]
use crate::parser::ConversationTurnView;
use crate::text::{to_chars, to_lowercase, to_words};

verus! {

/// The fewest turns of a segment that is not the last one.
pub const MIN_SEGMENT_TURNS: usize = 6;

/// The number of turns that are compared on each side of a boundary.
pub const WINDOW_TURNS: usize = 3;

/// Words of fewer characters say nothing about the topic.
pub const MIN_WORD_LENGTH: usize = 3;

/// The words of a list that say something about the topic.
pub open spec fn telling(words: Seq<Seq<char>>) -> Seq<Seq<char>>
    decreases words.len(),
{
    if words.len() == 0 {
        Seq::empty()
    } else if words.last().len() >= MIN_WORD_LENGTH {
        telling(words.drop_last()).push(words.last())
    } else {
        telling(words.drop_last())
    }
}

/// The telling words of a turn, in lower case.
pub open spec fn turn_words(text: Seq<char>) -> Seq<Seq<char>> {
    telling(crate::text::words(crate::text::lowercase(text)))
}

/// The telling words of some turns.
pub open spec fn all_words(turns: Seq<ConversationTurnView>) -> Seq<Seq<Seq<char>>> {
    Seq::new(turns.len(), |i: int| turn_words(turns[i].text))
}

/// The words of the turns from `from` up to `to`.
pub open spec fn window(words: Seq<Seq<Seq<char>>>, from: int, to: int) -> Seq<Seq<char>>
    decreases to - from,
{
    if to <= from {
        Seq::empty()
    } else {
        window(words, from, to - 1) + words[to - 1]
    }
}

/// How many words of one list come up in another.
pub open spec fn recurring(left: Seq<Seq<char>>, right: Seq<Seq<char>>) -> nat
    decreases left.len(),
{
    if left.len() == 0 {
        0
    } else {
        recurring(left.drop_last(), right) + if right.contains(left.last()) {
            1nat
        } else {
            0nat
        }
    }
}

/// The topic shifts before turn `i`: of the words of the turns just before it,
/// fewer than one in ten come up in the turns that follow.
pub open spec fn shifts_at(words: Seq<Seq<Seq<char>>>, i: int) -> bool {
    let left = window(words, i - WINDOW_TURNS, i);
    let right = window(words, i, i + WINDOW_TURNS);
    10 * recurring(left, right) < left.len()
}

/// A segment that begins at `start` can end before turn `i`: it would be long
/// enough, and so would be what follows.
pub open spec fn is_boundary(words: Seq<Seq<Seq<char>>>, start: int, i: int) -> bool {
    i - start >= MIN_SEGMENT_TURNS && words.len() - i >= MIN_SEGMENT_TURNS && shifts_at(words, i)
}

/// The ends of the segments from `start` on, where no segment ends before turn
/// `i`.
pub open spec fn boundaries_from(words: Seq<Seq<Seq<char>>>, start: int, i: int) -> Seq<int>
    decreases words.len() - i,
{
    if i >= words.len() {
        seq![words.len() as int]
    } else if is_boundary(words, start, i) {
        seq![i] + boundaries_from(words, i, i + 1)
    } else {
        boundaries_from(words, start, i + 1)
    }
}

/// The ends of all segments of a conversation.
pub open spec fn boundaries(words: Seq<Seq<Seq<char>>>) -> Seq<int> {
    boundaries_from(words, 0, 0)
}

/// A list of lists of words.
pub open spec fn word_views(v: Seq<Vec<Vec<char>>>) -> Seq<Seq<Seq<char>>> {
    Seq::new(v.len(), |i: int| crate::text::char_views(v[i]@))
}

proof fn lemma_boundaries_from(words: Seq<Seq<Seq<char>>>, start: int, i: int)
    requires
        0 <= start <= i <= words.len(),
    ensures
        ({
            let b = boundaries_from(words, start, i);
            &&& b.len() > 0
            &&& b.last() == words.len()
            &&& forall|k: int| 0 <= k < b.len() ==> i <= #[trigger] b[k]
            &&& forall|k: int|
                0 <= k < b.len() - 1 ==> (#[trigger] b[k]) - (if k == 0 {
                    start
                } else {
                    b[k - 1]
                }) >= MIN_SEGMENT_TURNS
            &&& forall|k: int|
                0 <= k < b.len() - 1 ==> words.len() - (#[trigger] b[k]) >= MIN_SEGMENT_TURNS
        }),
    decreases words.len() - i,
{
    let b = boundaries_from(words, start, i);
    if i < words.len() {
        if is_boundary(words, start, i) {
            lemma_boundaries_from(words, i, i + 1);
            let rest = boundaries_from(words, i, i + 1);
            assert(b == seq![i] + rest);
            assert forall|k: int| 0 <= k < b.len() implies i <= #[trigger] b[k] by {
                if k > 0 {
                    assert(b[k] == rest[k - 1]);
                }
            }
            assert forall|k: int| 0 <= k < b.len() - 1 implies (#[trigger] b[k]) - (if k == 0 {
                start
            } else {
                b[k - 1]
            }) >= MIN_SEGMENT_TURNS by {
                if k > 0 {
                    assert(b[k] == rest[k - 1]);
                    if k > 1 {
                        assert(b[k - 1] == rest[k - 2]);
                    }
                }
            }
            assert forall|k: int| 0 <= k < b.len() - 1 implies words.len() - (#[trigger] b[k])
                >= MIN_SEGMENT_TURNS by {
                if k > 0 {
                    assert(b[k] == rest[k - 1]);
                }
            }
        } else {
            lemma_boundaries_from(words, start, i + 1);
        }
    }
}

/// The last segment ends with the conversation, every other one is long enough,
/// and so the ends increase.
pub proof fn law_boundaries(words: Seq<Seq<Seq<char>>>)
    ensures
        boundaries(words).len() > 0,
        boundaries(words).last() == words.len(),
        forall|k: int|
            0 <= k < boundaries(words).len() - 1 ==> (#[trigger] boundaries(words)[k]) - (if k
                == 0 {
                0
            } else {
                boundaries(words)[k - 1]
            }) >= MIN_SEGMENT_TURNS && words.len() - boundaries(words)[k] >= MIN_SEGMENT_TURNS,
{
    lemma_boundaries_from(words, 0, 0);
}

/// A conversation of fewer than two segments is not cut.
pub proof fn law_short_conversations_are_whole(words: Seq<Seq<Seq<char>>>)
    requires
        words.len() < 2 * MIN_SEGMENT_TURNS,
    ensures
        boundaries(words) == seq![words.len() as int],
{
    law_boundaries(words);
    let b = boundaries(words);
    if b.len() > 1 {
        assert(b[0] - 0 >= MIN_SEGMENT_TURNS && words.len() - b[0] >= MIN_SEGMENT_TURNS);
    }
    assert(b =~= seq![words.len() as int]);
}

/// The telling words of a text in lower case.
fn telling_words(lower: &str) -> (r: Vec<Vec<char>>)
    ensures
        crate::text::char_views(r@) == telling(crate::text::words(lower@)),
{
    let words = to_words(&to_chars(lower));
    let ghost all = crate::text::char_views(words@);
    let mut out: Vec<Vec<char>> = Vec::new();
    let mut i: usize = 0;
    assert(crate::text::char_views(out@) == telling(all.take(0)));
    while i < words.len()
        invariant
            i <= words.len(),
            all == crate::text::char_views(words@),
            crate::text::char_views(out@) == telling(all.take(i as int)),
        decreases words.len() - i,
    {
        proof {
            assert(all.take(i + 1).drop_last() == all.take(i as int));
            assert(all.take(i + 1).last() == words@[i as int]@);
        }
        if words[i].len() >= MIN_WORD_LENGTH {
            let w = crate::text::slice(&words[i], 0, words[i].len());
            assert(w@ == words@[i as int]@);
            assert(crate::text::char_views(out@.push(w)) == crate::text::char_views(out@).push(w@));
            out.push(w);
        }
        i = i + 1;
    }
    assert(all.take(i as int) == all);
    out
}

/// The words of the turns from `from` up to `to`.
fn collect_window(words: &Vec<Vec<Vec<char>>>, from: usize, to: usize) -> (r: Vec<Vec<char>>)
    requires
        from <= to <= words.len(),
    ensures
        crate::text::char_views(r@) == window(word_views(words@), from as int, to as int),
{
    let ghost all = word_views(words@);
    let mut out: Vec<Vec<char>> = Vec::new();
    let mut i: usize = from;
    assert(crate::text::char_views(out@) == window(all, from as int, from as int));
    while i < to
        invariant
            from <= i <= to <= words.len(),
            all == word_views(words@),
            crate::text::char_views(out@) == window(all, from as int, i as int),
        decreases to - i,
    {
        let turn = &words[i];
        let ghost so_far = crate::text::char_views(out@);
        let ghost mine = crate::text::char_views(turn@);
        let mut k: usize = 0;
        assert(so_far + mine.take(0) == so_far);
        while k < turn.len()
            invariant
                k <= turn.len(),
                mine == crate::text::char_views(turn@),
                crate::text::char_views(out@) == so_far + mine.take(k as int),
            decreases turn.len() - k,
        {
            let w = crate::text::slice(&turn[k], 0, turn[k].len());
            proof {
                assert(w@ == turn@[k as int]@);
                assert(crate::text::char_views(out@.push(w)) == crate::text::char_views(out@).push(
                    w@,
                ));
                assert((so_far + mine.take(k as int)).push(w@) == so_far + mine.take(k + 1));
            }
            out.push(w);
            k = k + 1;
        }
        assert(mine.take(k as int) == mine);
        assert(all[i as int] == mine);
        i = i + 1;
    }
    out
}

/// Tells whether a word is in a list.
fn is_among(words: &Vec<Vec<char>>, w: &Vec<char>) -> (r: bool)
    ensures
        r == crate::text::char_views(words@).contains(w@),
{
    let ghost all = crate::text::char_views(words@);
    let mut i: usize = 0;
    while i < words.len()
        invariant
            i <= words.len(),
            all == crate::text::char_views(words@),
            forall|k: int| 0 <= k < i ==> #[trigger] all[k] != w@,
        decreases words.len() - i,
    {
        assert(all[i as int] == words@[i as int]@);
        if same_chars(&words[i], w) {
            assert(all[i as int] == w@);
            return true;
        }
        i = i + 1;
    }
    false
}

/// Tells whether two words are the same.
fn same_chars(a: &Vec<char>, b: &Vec<char>) -> (r: bool)
    ensures
        r == (a@ == b@),
{
    if a.len() != b.len() {
        return false;
    }
    let mut i: usize = 0;
    while i < a.len()
        invariant
            i <= a.len() == b.len(),
            forall|k: int| 0 <= k < i ==> a@[k] == b@[k],
        decreases a.len() - i,
    {
        if a[i] != b[i] {
            return false;
        }
        i = i + 1;
    }
    assert(a@ =~= b@);
    true
}

/// Tells whether the topic shifts before turn `i`.
fn topic_shifts(words: &Vec<Vec<Vec<char>>>, i: usize) -> (r: bool)
    requires
        WINDOW_TURNS <= i <= words.len() - WINDOW_TURNS,
    ensures
        r == shifts_at(word_views(words@), i as int),
{
    let left = collect_window(words, i - WINDOW_TURNS, i);
    let right = collect_window(words, i, i + WINDOW_TURNS);
    let ghost l = crate::text::char_views(left@);
    let ghost rt = crate::text::char_views(right@);
    let mut n: usize = 0;
    let mut k: usize = 0;
    while k < left.len()
        invariant
            k <= left.len(),
            n <= k,
            l == crate::text::char_views(left@),
            rt == crate::text::char_views(right@),
            n == recurring(l.take(k as int), rt),
        decreases left.len() - k,
    {
        proof {
            assert(l.take(k + 1).drop_last() == l.take(k as int));
            assert(l.take(k + 1).last() == left@[k as int]@);
        }
        if is_among(&right, &left[k]) {
            n = n + 1;
        }
        k = k + 1;
    }
    assert(l.take(k as int) == l);
    10 * (n as u128) < left.len() as u128
}

/// Finds the ends of the segments of a conversation, given by its words.
pub fn find_boundaries(words: &Vec<Vec<Vec<char>>>) -> (r: Vec<usize>)
    ensures
        crate::lists::place_views(r@) == boundaries(word_views(words@)),
{
    let ghost all = word_views(words@);
    let n: usize = words.len();
    let mut out: Vec<usize> = Vec::new();
    let mut start: usize = 0;
    let mut i: usize = 0;
    assert(crate::lists::place_views(out@) + boundaries_from(all, 0, 0) == boundaries(all));
    while i < n
        invariant
            start <= i <= n,
            n == words.len(),
            all == word_views(words@),
            crate::lists::place_views(out@) + boundaries_from(all, start as int, i as int)
                == boundaries(all),
        decreases n - i,
    {
        if i - start >= MIN_SEGMENT_TURNS && n - i >= MIN_SEGMENT_TURNS && topic_shifts(words, i) {
            proof {
                assert(crate::lists::place_views(out@.push(i)) == crate::lists::place_views(
                    out@,
                ).push(i as int));
                assert(crate::lists::place_views(out@).push(i as int) + boundaries_from(
                    all,
                    i as int,
                    i + 1,
                ) == crate::lists::place_views(out@) + (seq![i as int] + boundaries_from(
                    all,
                    i as int,
                    i + 1,
                )));
            }
            out.push(i);
            start = i;
        }
        i = i + 1;
    }
    proof {
        assert(crate::lists::place_views(out@.push(n)) == crate::lists::place_views(out@)
            + seq![n as int]);
    }
    out.push(n);
    out
}

/// Finds where a conversation turns to another topic: the ends of its segments.
pub fn detect_topic_boundaries(turns: &Vec<ConversationTurn>) -> (r: Vec<usize>)
    ensures
        crate::lists::place_views(r@) == boundaries(
            all_words(crate::parser::conversation_views(turns@)),
        ),
{
    let ghost all = all_words(crate::parser::conversation_views(turns@));
    let mut words: Vec<Vec<Vec<char>>> = Vec::new();
    let mut i: usize = 0;
    while i < turns.len()
        invariant
            i <= turns.len(),
            all == all_words(crate::parser::conversation_views(turns@)),
            words.len() == i,
            forall|k: int|
                0 <= k < i ==> crate::text::char_views((#[trigger] words@[k])@) == all[k],
        decreases turns.len() - i,
    {
        let lower = to_lowercase(turns[i].text.as_str());
        let mine = telling_words(lower.as_str());
        assert(all[i as int] == turn_words(turns@[i as int].text@));
        words.push(mine);
        i = i + 1;
    }
    assert(word_views(words@) == all);
    find_boundaries(&words)
}

// ---- where topics shift ----

/// The telling words of a list are those of three characters or more, in their order, and
/// the words of a list that come up in another are counted one by one.
pub proof fn law_telling_and_recurring(words: Seq<Seq<char>>, right: Seq<Seq<char>>)
    ensures
        telling(words) == words.filter(|w: Seq<char>| w.len() >= 3),
        recurring(words, right) == words.filter(|w: Seq<char>| right.contains(w)).len(),
    decreases words.len(),
{
    reveal(Seq::filter);
    if words.len() > 0 {
        law_telling_and_recurring(words.drop_last(), right);
    }
}

/// Whether few of the words of the three turns before a place come up again in the three
/// turns behind it: fewer than one in ten.
pub open spec fn few_recur(words: Seq<Seq<Seq<char>>>, i: int) -> bool {
    let left = words[i - 3] + words[i - 2] + words[i - 1];
    let right = words[i] + words[i + 1] + words[i + 2];
    10 * left.filter(|w: Seq<char>| right.contains(w)).len() < left.len()
}

proof fn lemma_few_recur(words: Seq<Seq<Seq<char>>>, i: int)
    ensures
        shifts_at(words, i) <==> few_recur(words, i),
{
    reveal_with_fuel(window, 4);
    let left = words[i - 3] + words[i - 2] + words[i - 1];
    let right = words[i] + words[i + 1] + words[i + 2];
    assert(window(words, i - 3, i) == left);
    assert(window(words, i, i + 3) == right);
    law_telling_and_recurring(left, right);
}

/// Where segment `k` of some segments begins.
pub open spec fn begins_at(ends: Seq<int>, k: int) -> int {
    if k == 0 {
        0
    } else {
        ends[k - 1]
    }
}

proof fn lemma_cut_at_shifts(words: Seq<Seq<Seq<char>>>, start: int, i: int)
    requires
        0 <= start <= i <= words.len(),
    ensures
        ({
            let b = boundaries_from(words, start, i);
            &&& forall|k: int| 0 <= k < b.len() - 1 ==> few_recur(words, #[trigger] b[k])
            &&& forall|k: int, j: int|
                #![trigger b[k], few_recur(words, j)]
                0 <= k < b.len() && (if k == 0 {
                    start
                } else {
                    b[k - 1]
                }) + 6 <= j < b[k] && i <= j <= words.len() - 6 ==> !few_recur(words, j)
        }),
    decreases words.len() - i,
{
    let b = boundaries_from(words, start, i);
    if i < words.len() {
        lemma_few_recur(words, i);
        if is_boundary(words, start, i) {
            lemma_cut_at_shifts(words, i, i + 1);
            let rest = boundaries_from(words, i, i + 1);
            assert(b == seq![i] + rest);
            assert forall|k: int| 0 <= k < b.len() - 1 implies few_recur(
                words,
                #[trigger] b[k],
            ) by {
                if k > 0 {
                    assert(b[k] == rest[k - 1]);
                }
            }
            assert forall|k: int, j: int|
                #![trigger b[k], few_recur(words, j)]
                0 <= k < b.len() && (if k == 0 {
                    start
                } else {
                    b[k - 1]
                }) + 6 <= j < b[k] && i <= j <= words.len() - 6 implies !few_recur(words, j) by {
                if k > 0 {
                    assert(b[k] == rest[k - 1]);
                    if k > 1 {
                        assert(b[k - 1] == rest[k - 2]);
                        lemma_boundaries_from(words, i, i + 1);
                    }
                    assert(!few_recur(words, j));
                }
            }
        } else {
            lemma_cut_at_shifts(words, start, i + 1);
            let rest = boundaries_from(words, start, i + 1);
            assert(b == rest);
            assert forall|k: int, j: int|
                #![trigger b[k], few_recur(words, j)]
                0 <= k < b.len() && (if k == 0 {
                    start
                } else {
                    b[k - 1]
                }) + 6 <= j < b[k] && i <= j <= words.len() - 6 implies !few_recur(words, j) by {
                if j == i && k > 0 {
                    lemma_boundaries_from(words, start, i + 1);
                    assert(i + 1 <= b[k - 1]);
                }
            }
        }
    }
}

/// A conversation is cut where its topic shifts, and only there: before a turn from which
/// on few words recur, with six turns or more on both sides; and at every such turn unless
/// the segment would be shorter than that.
pub proof fn law_cut_where_topics_shift(words: Seq<Seq<Seq<char>>>)
    ensures
        ({
            let ends = boundaries(words);
            &&& ends.len() > 0 && ends.last() == words.len()
            &&& forall|k: int|
                0 <= k < ends.len() - 1 ==> few_recur(words, #[trigger] ends[k]) && begins_at(
                    ends,
                    k,
                ) + 6 <= ends[k] <= words.len() - 6
            &&& forall|k: int, j: int|
                #![trigger ends[k], few_recur(words, j)]
                0 <= k < ends.len() && begins_at(ends, k) + 6 <= j < ends[k] && j <= words.len() - 6
                    ==> !few_recur(words, j)
        }),
{
    lemma_boundaries_from(words, 0, 0);
    lemma_cut_at_shifts(words, 0, 0);
    let ends = boundaries(words);
    assert forall|k: int, j: int|
        #![trigger ends[k], few_recur(words, j)]
        0 <= k < ends.len() && begins_at(ends, k) + 6 <= j < ends[k] && j <= words.len()
            - 6 implies !few_recur(words, j) by {
        if k > 0 {
            assert(0 <= ends[k - 1]);
        }
    }
}

/// The words by which turns are compared: those of each turn, in lower case, that have
/// three characters or more.
pub proof fn law_words_of_turns(turns: Seq<ConversationTurnView>, i: int)
    requires
        0 <= i < turns.len(),
    ensures
        all_words(turns).len() == turns.len(),
        all_words(turns)[i] == crate::text::words(crate::text::lowercase(turns[i].text)).filter(
            |w: Seq<char>| w.len() >= 3,
        ),
{
    law_telling_and_recurring(
        crate::text::words(crate::text::lowercase(turns[i].text)),
        Seq::empty(),
    );
}

} // verus!
