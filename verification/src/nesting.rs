//! The theory of loop brackets: how deep a position lies inside loops, when a program is
//! well nested, and which `LoopStart` belongs to which `LoopEnd`.

use crate::lexer::Token;
use vstd::prelude::*;

verus! {

/// By how much a token changes the number of open loops.
pub open spec fn nesting_change(token: Token) -> int {
    match token {
        Token::LoopStart => 1,
        Token::LoopEnd => -1,
        _ => 0,
    }
}

/// The number of `LoopStart` tokens minus the number of `LoopEnd` tokens among the first
/// `end` tokens: how many loops are open in front of position `end`.
pub open spec fn depth(tokens: Seq<Token>, end: int) -> int
    decreases end,
{
    if end <= 0 {
        0
    } else {
        depth(tokens, end - 1) + nesting_change(tokens[end - 1])
    }
}

/// Up to position `end`, no `LoopEnd` closes a loop that was never opened.
pub open spec fn never_negative(tokens: Seq<Token>, end: int) -> bool {
    forall|i: int| 0 <= i <= end ==> #[trigger] depth(tokens, i) >= 0
}

/// The brackets are perfectly nested and balanced.
pub open spec fn well_nested(tokens: Seq<Token>) -> bool {
    never_negative(tokens, tokens.len() as int) && depth(tokens, tokens.len() as int) == 0
}

/// `position` holds the first `LoopEnd` that has no loop to close: no loop is open in front
/// of it, and in front of it every `LoopEnd` had one.
pub open spec fn first_unmatched_end(tokens: Seq<Token>, position: int) -> bool {
    &&& 0 <= position < tokens.len()
    &&& tokens[position] == Token::LoopEnd
    &&& depth(tokens, position) == 0
    &&& never_negative(tokens, position)
}

/// The loop that opens at `start` closes at `end`: behind `end` the depth is back to what it
/// was in front of `start`, for the first time.
pub open spec fn matched(tokens: Seq<Token>, start: int, end: int) -> bool {
    &&& 0 <= start < end < tokens.len()
    &&& tokens[start] == Token::LoopStart
    &&& tokens[end] == Token::LoopEnd
    &&& depth(tokens, end + 1) == depth(tokens, start)
    &&& forall|k: int| start < k <= end ==> #[trigger] depth(tokens, k) > depth(tokens, start)
}

/// `position` and `other` are the two ends of one loop.
pub open spec fn paired(tokens: Seq<Token>, position: int, other: int) -> bool {
    matched(tokens, position, other) || matched(tokens, other, position)
}

/// The other end of the loop that `position` is an end of, if it is one.
pub open spec fn partner(tokens: Seq<Token>, position: int) -> Option<int> {
    if exists|other: int| paired(tokens, position, other) {
        Some(choose|other: int| paired(tokens, position, other))
    } else {
        None
    }
}

/// The jump table of a program: every end of a loop is mapped to the other end, and no
/// other position is mapped.
pub open spec fn pairing(tokens: Seq<Token>) -> Map<usize, usize> {
    Map::new(
        |position: usize| partner(tokens, position as int) is Some,
        |position: usize| partner(tokens, position as int).unwrap() as usize,
    )
}

/// Only one position holds the first `LoopEnd` that has no loop to close, and a program with
/// such a position is not well nested.
pub proof fn lemma_first_unmatched_end_unique(tokens: Seq<Token>, first: int, second: int)
    requires
        first_unmatched_end(tokens, first),
        first_unmatched_end(tokens, second),
    ensures
        first == second,
        !never_negative(tokens, tokens.len() as int),
{
    assert(depth(tokens, first + 1) < 0);
    assert(depth(tokens, second + 1) < 0);
}

/// A loop has one end: a `LoopStart` is matched by at most one `LoopEnd`.
pub proof fn lemma_matched_end_unique(tokens: Seq<Token>, start: int, first: int, second: int)
    requires
        matched(tokens, start, first),
        matched(tokens, start, second),
    ensures
        first == second,
{
    if first < second {
        assert(depth(tokens, first + 1) > depth(tokens, start));
    } else if second < first {
        assert(depth(tokens, second + 1) > depth(tokens, start));
    }
}

/// A loop has one start: a `LoopEnd` is matched by at most one `LoopStart`.
pub proof fn lemma_matched_start_unique(tokens: Seq<Token>, first: int, second: int, end: int)
    requires
        matched(tokens, first, end),
        matched(tokens, second, end),
    ensures
        first == second,
{
    if first < second {
        assert(depth(tokens, second) > depth(tokens, first));
    } else if second < first {
        assert(depth(tokens, first) > depth(tokens, second));
    }
}

/// A position is paired with at most one other position.
pub proof fn lemma_paired_unique(tokens: Seq<Token>, position: int, first: int, second: int)
    requires
        paired(tokens, position, first),
        paired(tokens, position, second),
    ensures
        first == second,
{
    if matched(tokens, position, first) && matched(tokens, position, second) {
        lemma_matched_end_unique(tokens, position, first, second);
    } else if matched(tokens, first, position) && matched(tokens, second, position) {
        lemma_matched_start_unique(tokens, first, second, position);
    }
}

/// `partner` names the one position that `position` is paired with.
pub proof fn lemma_partner_is(tokens: Seq<Token>, position: int, other: int)
    requires
        paired(tokens, position, other),
    ensures
        partner(tokens, position) == Some(other),
{
    let chosen = choose|other: int| paired(tokens, position, other);
    lemma_paired_unique(tokens, position, chosen, other);
}

/// From one position to the next the depth changes by what the token between them says.
proof fn lemma_depth_step(tokens: Seq<Token>, end: int)
    requires
        0 <= end,
    ensures
        depth(tokens, end + 1) == depth(tokens, end) + nesting_change(tokens[end]),
{
}

/// A loop that is open at `reached`, in a program that ends with no more loops open than
/// there were in front of `start`, closes somewhere behind `reached`.
proof fn lemma_find_end(tokens: Seq<Token>, start: int, reached: int) -> (end: int)
    requires
        0 <= start < reached <= tokens.len(),
        tokens[start] == Token::LoopStart,
        forall|k: int| start < k <= reached ==> #[trigger] depth(tokens, k) > depth(tokens, start),
        depth(tokens, tokens.len() as int) <= depth(tokens, start),
    ensures
        matched(tokens, start, end),
    decreases tokens.len() - reached,
{
    lemma_depth_step(tokens, reached);
    if depth(tokens, reached + 1) > depth(tokens, start) {
        lemma_find_end(tokens, start, reached + 1)
    } else {
        reached
    }
}

/// The loop that a `LoopEnd` closes was opened somewhere in front of `reached`, if every
/// position from `reached` to the `LoopEnd` lies inside that loop.
proof fn lemma_find_start(tokens: Seq<Token>, reached: int, end: int) -> (start: int)
    requires
        0 <= reached <= end < tokens.len(),
        tokens[end] == Token::LoopEnd,
        forall|k: int| reached <= k <= end ==> #[trigger] depth(tokens, k) > depth(tokens, end + 1),
        depth(tokens, end + 1) >= 0,
    ensures
        matched(tokens, start, end),
    decreases reached,
{
    assert(depth(tokens, reached) > 0);
    lemma_depth_step(tokens, reached - 1);
    if depth(tokens, reached - 1) > depth(tokens, end + 1) {
        lemma_find_start(tokens, reached - 1, end)
    } else {
        reached - 1
    }
}

/// In a well-nested program every `LoopStart` and every `LoopEnd` is an end of a loop.
pub proof fn lemma_every_bracket_is_paired(tokens: Seq<Token>, position: int)
    requires
        well_nested(tokens),
        0 <= position < tokens.len(),
        tokens[position] == Token::LoopStart || tokens[position] == Token::LoopEnd,
    ensures
        partner(tokens, position) is Some,
{
    lemma_depth_step(tokens, position);
    assert(depth(tokens, position) >= 0);
    assert(depth(tokens, position + 1) >= 0);
    if tokens[position] == Token::LoopStart {
        let end = lemma_find_end(tokens, position, position + 1);
        lemma_partner_is(tokens, position, end);
    } else {
        let start = lemma_find_start(tokens, position, position);
        lemma_partner_is(tokens, position, start);
    }
}

/// Only a `LoopStart` and a `LoopEnd` are ends of a loop, and the two ends of a loop are one
/// of each kind.
pub proof fn lemma_paired_are_brackets(tokens: Seq<Token>, position: int, other: int)
    requires
        paired(tokens, position, other),
    ensures
        0 <= position < tokens.len(),
        0 <= other < tokens.len(),
        position != other,
        tokens[position] == Token::LoopStart <==> position < other,
        tokens[position] == Token::LoopEnd <==> other < position,
        tokens[other] == Token::LoopEnd <==> position < other,
        tokens[other] == Token::LoopStart <==> other < position,
{
}

/// The loops of a program, each as the pair of its two ends.
pub open spec fn loops(tokens: Seq<Token>) -> Set<(int, int)> {
    Set::new(|ends: (int, int)| matched(tokens, ends.0, ends.1))
}

/// The loops that close in front of `end`.
spec fn loops_before(tokens: Seq<Token>, end: int) -> Set<(int, int)> {
    Set::new(|ends: (int, int)| matched(tokens, ends.0, ends.1) && ends.1 < end)
}

/// The ends of the loops that close in front of `end`.
spec fn ends_before(tokens: Seq<Token>, end: int) -> Set<usize> {
    Set::new(
        |position: usize|
            exists|other: int|
                paired(tokens, position as int, other) && position < end && other < end,
    )
}

/// In front of every position there are twice as many ends of closed loops as closed loops.
proof fn lemma_count_ends(tokens: Seq<Token>, end: int)
    requires
        0 <= end <= tokens.len() <= usize::MAX,
    ensures
        loops_before(tokens, end).finite(),
        ends_before(tokens, end).finite(),
        ends_before(tokens, end).len() == 2 * loops_before(tokens, end).len(),
    decreases end,
{
    if end == 0 {
        assert(loops_before(tokens, end) =~= Set::empty());
        assert(ends_before(tokens, end) =~= Set::empty());
    } else {
        let last = end - 1;
        lemma_count_ends(tokens, last);
        if exists|start: int| matched(tokens, start, last) {
            let start = choose|start: int| matched(tokens, start, last);
            assert forall|ends: (int, int)| #[trigger]
                loops_before(tokens, end).contains(ends) && ends.1 == last implies ends == (
                start,
                last,
            ) by {
                lemma_matched_start_unique(tokens, ends.0, start, last);
            }
            assert(loops_before(tokens, end) =~= loops_before(tokens, last).insert((start, last)));
            assert forall|position: usize| #[trigger]
                ends_before(tokens, end).contains(position) implies ends_before(
                tokens,
                last,
            ).contains(position) || position == start || position == last by {
                let other = choose|other: int|
                    paired(tokens, position as int, other) && position < end && other < end;
                if position != last && other == last {
                    lemma_matched_start_unique(tokens, position as int, start, last);
                }
            }
            assert(paired(tokens, start, last) && paired(tokens, last, start));
            assert forall|position: usize| #[trigger]
                ends_before(tokens, last).contains(position) implies position != start by {
                let other = choose|other: int|
                    paired(tokens, position as int, other) && position < last && other < last;
                if position == start {
                    lemma_paired_unique(tokens, start, other, last);
                }
            }
            assert(ends_before(tokens, end) =~= ends_before(tokens, last).insert(
                start as usize,
            ).insert(last as usize));
        } else {
            assert(loops_before(tokens, end) =~= loops_before(tokens, last));
            assert forall|position: usize| #[trigger]
                ends_before(tokens, end).contains(position) implies ends_before(
                tokens,
                last,
            ).contains(position) by {
                let other = choose|other: int|
                    paired(tokens, position as int, other) && position < end && other < end;
                assert(matched(tokens, position as int, other) ==> other != last);
                assert(matched(tokens, other, position as int) ==> position != last);
            }
            assert(ends_before(tokens, end) =~= ends_before(tokens, last));
        }
    }
}

/// A program's jump table has two entries for each of its loops.
pub proof fn lemma_pairing_len(tokens: Seq<Token>)
    requires
        tokens.len() <= usize::MAX,
    ensures
        loops(tokens).finite(),
        pairing(tokens).dom().finite(),
        pairing(tokens).dom().len() == 2 * loops(tokens).len(),
{
    lemma_count_ends(tokens, tokens.len() as int);
    assert(loops_before(tokens, tokens.len() as int) =~= loops(tokens));
    assert forall|position: usize| #[trigger]
        pairing(tokens).dom().contains(position) implies ends_before(
        tokens,
        tokens.len() as int,
    ).contains(position) by {
        let other = partner(tokens, position as int).unwrap();
        assert(paired(tokens, position as int, other));
    }
    assert(ends_before(tokens, tokens.len() as int) =~= pairing(tokens).dom());
}

/// An entry of a program's jump table leads from one end of a loop to the other.
pub proof fn lemma_pairing_entry(tokens: Seq<Token>, position: usize)
    requires
        tokens.len() <= usize::MAX,
        pairing(tokens).contains_key(position),
    ensures
        paired(tokens, position as int, pairing(tokens)[position] as int),
{
}

} // verus!
