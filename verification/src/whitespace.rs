//! White space and its removal.

use vstd::prelude::*;
use vstd::std_specs::iter::IteratorSpec;

verus! {

/// White space: the characters with the Unicode property `White_Space`.
pub open spec fn is_white_space(c: char) -> bool {
    ||| '\u{9}' <= c <= '\u{d}'
    ||| c == ' '
    ||| c == '\u{85}'
    ||| c == '\u{a0}'
    ||| c == '\u{1680}'
    ||| '\u{2000}' <= c <= '\u{200a}'
    ||| c == '\u{2028}'
    ||| c == '\u{2029}'
    ||| c == '\u{202f}'
    ||| c == '\u{205f}'
    ||| c == '\u{3000}'
}

/// A text without its white space: the other characters, in their order.
pub open spec fn without_whitespace(text: Seq<char>) -> Seq<char> {
    text.filter(|c: char| !is_white_space(c))
}

/// `String::push` appends the character to the end of the string.
pub assume_specification[ String::push ](string: &mut String, ch: char)
    ensures
        final(string)@ == old(string)@.push(ch),
;

/// Tells whether a character is white space.
pub fn is_whitespace(c: char) -> (white: bool)
    ensures
        white == is_white_space(c),
{
    ('\u{9}' <= c && c <= '\u{d}') || c == ' ' || c == '\u{85}' || c == '\u{a0}' || c == '\u{1680}'
        || ('\u{2000}' <= c && c <= '\u{200a}') || c == '\u{2028}' || c == '\u{2029}' || c
        == '\u{202f}' || c == '\u{205f}' || c == '\u{3000}'
}

/// A text of white space only leaves nothing.
pub proof fn lemma_gap_vanishes(gap: Seq<char>)
    requires
        forall|i: int| 0 <= i < gap.len() ==> is_white_space(#[trigger] gap[i]),
    ensures
        without_whitespace(gap) == Seq::<char>::empty(),
    decreases gap.len(),
{
    reveal(Seq::filter);
    if gap.len() > 0 {
        lemma_gap_vanishes(gap.drop_last());
    }
}

/// A text that holds no white space is left as it is.
pub proof fn lemma_nothing_to_remove(text: Seq<char>)
    requires
        forall|i: int| 0 <= i < text.len() ==> !is_white_space(#[trigger] text[i]),
    ensures
        without_whitespace(text) == text,
    decreases text.len(),
{
    reveal(Seq::filter);
    if text.len() > 0 {
        lemma_nothing_to_remove(text.drop_last());
        assert(text.drop_last().push(text.last()) =~= text);
    }
}

/// White space put into a text, wherever, leaves the same text behind.
pub proof fn lemma_gap_is_dropped(before: Seq<char>, gap: Seq<char>, after: Seq<char>)
    requires
        forall|i: int| 0 <= i < gap.len() ==> is_white_space(#[trigger] gap[i]),
    ensures
        without_whitespace(before + gap + after) == without_whitespace(before + after),
{
    lemma_gap_vanishes(gap);
    let kept = |c: char| !is_white_space(c);
    Seq::filter_distributes_over_add(before + gap, after, kept);
    Seq::filter_distributes_over_add(before, gap, kept);
    Seq::filter_distributes_over_add(before, after, kept);
    assert(before.filter(kept) + Seq::<char>::empty() =~= before.filter(kept));
}

/// A text without its white space holds no white space, so that removing
/// it once more changes nothing.
pub proof fn lemma_without_whitespace_is_clean(text: Seq<char>)
    ensures
        forall|i: int|
            0 <= i < without_whitespace(text).len() ==> !is_white_space(
                #[trigger] without_whitespace(text)[i],
            ),
        without_whitespace(without_whitespace(text)) == without_whitespace(text),
    decreases text.len(),
{
    reveal(Seq::filter);
    let kept = |c: char| !is_white_space(c);
    if text.len() > 0 {
        let front = text.drop_last();
        lemma_without_whitespace_is_clean(front);
        if kept(text.last()) {
            front.filter(kept).lemma_filter_push(text.last(), kept);
        }
    }
}

/// Removes every white-space character from a text.
pub fn remove_whitespace(s: &str) -> (stripped: String)
    ensures
        stripped@ == without_whitespace(s@),
{
    let mut stripped = String::new();
    proof {
        Seq::<char>::lemma_filter_len(s@.take(0), |c: char| !is_white_space(c));
    }
    for c in chars: s.chars()
        invariant
            chars.seq() == s@,
            stripped@ == without_whitespace(s@.take(chars.index() as int)),
    {
        proof {
            let front = s@.take(chars.index() as int);
            assert(s@.take(chars.index() + 1) =~= front.push(c));
            front.lemma_filter_push(c, |c: char| !is_white_space(c));
        }
        if !is_whitespace(c) {
            stripped.push(c);
        }
    }
    assert(s@.take(s@.len() as int) =~= s@);
    stripped
}

} // verus!
