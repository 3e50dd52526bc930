//! Counts over a text: lines, words and characters, as a word-count tool
//! reports them.

use vstd::prelude::*;

verus! {

/// How many characters of the text satisfy the predicate.
pub open spec fn count_matching(s: Seq<char>, p: spec_fn(char) -> bool) -> nat
    decreases s.len(),
{
    if s.len() == 0 {
        0
    } else {
        count_matching(s.drop_last(), p) + if p(s.last()) {
            1nat
        } else {
            0nat
        }
    }
}

/// A line break.
pub open spec fn is_line_break(c: char) -> bool {
    c == '\n'
}

/// A word separator: a space or a tab.
pub open spec fn is_word_sep(c: char) -> bool {
    c == ' ' || c == '\t'
}

/// Counts the characters satisfying an executable predicate-by-equality:
/// the characters equal to one of the two given ones (pass the same
/// character twice to count one character).
fn count_two(s: &Vec<char>, c1: char, c2: char) -> (r: usize)
    requires
        s@.len() < usize::MAX,
    ensures
        r == count_matching(s@, |c: char| c == c1 || c == c2),
{
    let ghost p = |c: char| c == c1 || c == c2;
    let mut cnt: usize = 0;
    let mut i: usize = 0;
    proof {
        assert(s@.take(0) =~= Seq::<char>::empty());
    }
    while i < s.len()
        invariant
            forall|c: char| #[trigger] p(c) == (c == c1 || c == c2),
            i <= s@.len(),
            s@.len() < usize::MAX,
            cnt <= i,
            cnt == count_matching(s@.take(i as int), p),
        decreases s@.len() - i,
    {
        let c = s[i];
        proof {
            assert(s@.take(i + 1).drop_last() =~= s@.take(i as int));
            assert(s@.take(i + 1).last() == s@[i as int]);
            assert(p(s@[i as int]) == (s@[i as int] == c1 || s@[i as int] == c2));
            assert(count_matching(s@.take(i + 1), p) == count_matching(s@.take(i as int), p)
                + if p(s@[i as int]) {
                1nat
            } else {
                0nat
            });
        }
        if c == c1 || c == c2 {
            cnt = cnt + 1;
        }
        i = i + 1;
    }
    proof {
        assert(s@.take(s@.len() as int) =~= s@);
    }
    cnt
}

/// The number of lines: the pieces a split at every line break yields, which
/// is one more than the number of line breaks.
pub fn count_by_line(s: &Vec<char>) -> (r: usize)
    requires
        s@.len() < usize::MAX,
    ensures
        r == count_matching(s@, |c: char| is_line_break(c)) + 1,
{
    let n = count_two(s, '\n', '\n');
    proof {
        let p1 = |c: char| c == '\n' || c == '\n';
        let p2 = |c: char| is_line_break(c);
        lemma_count_matching_equiv(s@, p1, p2);
        lemma_count_matching_le_len(s@, p1);
    }
    n + 1
}

/// The number of words: the pieces a split at every space or tab yields,
/// which is one more than the number of separators.
pub fn count_by_word(s: &Vec<char>) -> (r: usize)
    requires
        s@.len() < usize::MAX,
    ensures
        r == count_matching(s@, |c: char| is_word_sep(c)) + 1,
{
    let n = count_two(s, ' ', '\t');
    proof {
        let p1 = |c: char| c == ' ' || c == '\t';
        let p2 = |c: char| is_word_sep(c);
        lemma_count_matching_equiv(s@, p1, p2);
        lemma_count_matching_le_len(s@, p1);
    }
    n + 1
}

/// The number of characters.
pub fn count_character(s: &Vec<char>) -> (r: usize)
    ensures
        r == s@.len(),
{
    s.len()
}

/// Counting is the same under predicates that agree on every character.
proof fn lemma_count_matching_equiv(s: Seq<char>, p1: spec_fn(char) -> bool, p2: spec_fn(
    char,
) -> bool)
    requires
        forall|c: char| #[trigger] p1(c) == p2(c),
    ensures
        count_matching(s, p1) == count_matching(s, p2),
    decreases s.len(),
{
    if s.len() > 0 {
        lemma_count_matching_equiv(s.drop_last(), p1, p2);
        assert(p1(s.last()) == p2(s.last()));
    }
}

/// A count of matching characters never exceeds the text's length; it is
/// what keeps the piece counts within machine range.
proof fn lemma_count_matching_le_len(s: Seq<char>, p: spec_fn(char) -> bool)
    ensures
        count_matching(s, p) <= s.len(),
    decreases s.len(),
{
    if s.len() > 0 {
        lemma_count_matching_le_len(s.drop_last(), p);
    }
}

} // verus!
