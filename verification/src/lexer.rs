use crate::nesting::{
    depth, first_unmatched_end, lemma_every_bracket_is_paired, lemma_paired_are_brackets,
    lemma_paired_unique, lemma_pairing_entry, lemma_pairing_len, lemma_partner_is, loops, matched,
    never_negative, paired, pairing, partner, well_nested,
};
use std::collections::HashMap;
use vstd::prelude::*;
use vstd::std_specs::hash::group_hash_axioms;

verus! {

/// One instruction of the language. Every other character of a source text is a comment.
#[derive(Debug, PartialEq, Eq, Clone, Copy, Structural)]
pub enum Token {
    Increment,
    Decrement,
    PointerIncrement,
    PointerDecrement,
    LoopStart,
    LoopEnd,
    Input,
    Output,
}

/// The character stands for an instruction; every other character is a comment.
pub open spec fn is_instruction(character: char) -> bool {
    ||| character == '+'
    ||| character == '-'
    ||| character == '>'
    ||| character == '<'
    ||| character == '['
    ||| character == ']'
    ||| character == ','
    ||| character == '.'
}

/// The instruction that a source character stands for, if it stands for one.
pub open spec fn token_of(character: char) -> Option<Token> {
    if character == '+' {
        Some(Token::Increment)
    } else if character == '-' {
        Some(Token::Decrement)
    } else if character == '>' {
        Some(Token::PointerIncrement)
    } else if character == '<' {
        Some(Token::PointerDecrement)
    } else if character == '[' {
        Some(Token::LoopStart)
    } else if character == ']' {
        Some(Token::LoopEnd)
    } else if character == ',' {
        Some(Token::Input)
    } else if character == '.' {
        Some(Token::Output)
    } else {
        None
    }
}

impl Token {
    /// The token of an instruction character, and `None` for every other character.
    pub fn parse(character: &char) -> (token: Option<Self>)
        ensures
            token == token_of(*character),
            token is Some <==> is_instruction(*character),
    {
        match character {
            '+' => Some(Self::Increment),
            '-' => Some(Self::Decrement),
            '>' => Some(Self::PointerIncrement),
            '<' => Some(Self::PointerDecrement),
            '[' => Some(Self::LoopStart),
            ']' => Some(Self::LoopEnd),
            ',' => Some(Self::Input),
            '.' => Some(Self::Output),
            _ => None,
        }
    }
}

/// The instructions of a source text, in order, with every comment character left out.
pub open spec fn tokens_of(source: Seq<char>) -> Seq<Token>
    decreases source.len(),
{
    if source.len() == 0 {
        Seq::empty()
    } else {
        let before = tokens_of(source.drop_last());
        match token_of(source.last()) {
            Some(token) => before.push(token),
            None => before,
        }
    }
}

/// The tokens of a text in two parts are the tokens of the first part, then those of the
/// second.
pub proof fn lemma_tokens_of_concat(first: Seq<char>, second: Seq<char>)
    ensures
        tokens_of(first + second) == tokens_of(first) + tokens_of(second),
    decreases second.len(),
{
    if second.len() == 0 {
        assert(first + second == first);
        assert(tokens_of(first) + tokens_of(second) == tokens_of(first));
    } else {
        lemma_tokens_of_concat(first, second.drop_last());
        assert((first + second).drop_last() == first + second.drop_last());
        let before = tokens_of(first) + tokens_of(second.drop_last());
        match token_of(second.last()) {
            Some(token) => {
                assert(before.push(token) == tokens_of(first) + tokens_of(second.drop_last()).push(
                    token,
                ));
            },
            None => {},
        }
    }
}

/// A text of comment characters only has no tokens.
pub proof fn lemma_comments_have_no_tokens(source: Seq<char>)
    requires
        forall|i: int| 0 <= i < source.len() ==> !is_instruction(#[trigger] source[i]),
    ensures
        tokens_of(source) == Seq::<Token>::empty(),
    decreases source.len(),
{
    if source.len() > 0 {
        lemma_comments_have_no_tokens(source.drop_last());
    }
}

/// The tokenizer produces no token for a comment character: with or without it, wherever it
/// stands, a text has the same tokens.
pub proof fn lemma_comment_adds_no_token(before: Seq<char>, comment: char, after: Seq<char>)
    requires
        !is_instruction(comment),
    ensures
        tokens_of(before + seq![comment] + after) == tokens_of(before + after),
{
    lemma_comments_have_no_tokens(seq![comment]);
    lemma_tokens_of_concat(before, seq![comment]);
    lemma_tokens_of_concat(before + seq![comment], after);
    lemma_tokens_of_concat(before, after);
    assert(tokens_of(before) + Seq::<Token>::empty() == tokens_of(before));
}

/// The tokens of a text are its instruction characters, each turned into its token.
pub proof fn lemma_tokens_of_instructions(source: Seq<char>)
    ensures
        tokens_of(source) == source.filter(|character: char| is_instruction(character)).map_values(
            |character: char| token_of(character).unwrap(),
        ),
    decreases source.len(),
{
    reveal(Seq::filter);
    let instructions = source.filter(|character: char| is_instruction(character));
    let tokens = instructions.map_values(|character: char| token_of(character).unwrap());
    if source.len() > 0 {
        lemma_tokens_of_instructions(source.drop_last());
    }
    assert(tokens_of(source) =~= tokens);
}

/// The tokens of a source text: each instruction character as its token, in the order of the
/// text, and nothing for any other character.
pub fn tokenize(source: &str) -> (tokens: Vec<Token>)
    ensures
        tokens@ == tokens_of(source@),
{
    let mut tokens: Vec<Token> = Vec::new();
    for character in it: source.chars()
        invariant
            it.seq() == source@,
            tokens@ == tokens_of(source@.take(it.index() as int)),
    {
        assert(source@.take(it.index() + 1).drop_last() == source@.take(it.index() as int));
        match Token::parse(&character) {
            Some(token) => tokens.push(token),
            None => (),
        }
    }
    assert(source@.take(source@.len() as int) == source@);
    tokens
}

/// Why a program has no jump table.
#[derive(Debug, PartialEq, Eq, Clone, Copy, Structural)]
pub enum JumpTableError {
    /// At the end of the program this many loops are still open.
    TooManyLoopStarts(usize),
    /// The `LoopEnd` at this position closes a loop that was never opened.
    NoMatchingLoopEnd(usize),
}

/// For each end of a loop of a program, the position of the other end.
///
/// A table is built once, by [`JumpTable::from`], and never changes. It remembers, for proofs
/// only, which program it was built from.
pub struct JumpTable {
    jumps: HashMap<usize, usize>,
    source: Ghost<Seq<Token>>,
}

impl View for JumpTable {
    type V = Map<usize, usize>;

    closed spec fn view(&self) -> Map<usize, usize> {
        self.jumps@
    }
}

/// The starts in `stack` are the loops that are open in front of `end`, outermost first.
spec fn pending_starts(tokens: Seq<Token>, stack: Seq<usize>, end: int) -> bool {
    forall|k: int|
        0 <= k < stack.len() ==> {
            &&& 0 <= #[trigger] stack[k] < end
            &&& tokens[stack[k] as int] == Token::LoopStart
            &&& depth(tokens, stack[k] as int) == k
            &&& forall|j: int| stack[k] < j <= end ==> #[trigger] depth(tokens, j) > k
        }
}

/// `jumps` holds the loops that close in front of `end`, in both directions, and nothing else.
spec fn pairs_recorded(tokens: Seq<Token>, jumps: Map<usize, usize>, end: int) -> bool {
    &&& forall|position: usize| #[trigger]
        jumps.contains_key(position) ==> position < end && jumps[position] < end && paired(
            tokens,
            position as int,
            jumps[position] as int,
        )
    &&& forall|start: int, close: int| #[trigger]
        matched(tokens, start, close) && close < end ==> {
            &&& jumps.contains_key(start as usize)
            &&& jumps[start as usize] == close
            &&& jumps.contains_key(close as usize)
            &&& jumps[close as usize] == start
        }
}

/// Once every position has been scanned, what was recorded is the program's pairing.
proof fn lemma_recorded_is_pairing(tokens: Seq<Token>, jumps: Map<usize, usize>)
    requires
        tokens.len() <= usize::MAX,
        pairs_recorded(tokens, jumps, tokens.len() as int),
    ensures
        jumps == pairing(tokens),
{
    let expected = pairing(tokens);
    assert forall|position: usize| jumps.contains_key(position) implies expected.contains_key(
        position,
    ) && expected[position] == jumps[position] by {
        lemma_partner_is(tokens, position as int, jumps[position] as int);
    }
    assert forall|position: usize| expected.contains_key(position) implies jumps.contains_key(
        position,
    ) by {
        let other = partner(tokens, position as int).unwrap();
        assert(paired(tokens, position as int, other));
    }
    assert(jumps =~= expected);
}

impl JumpTable {
    /// The program that the table was built from.
    pub closed spec fn source(&self) -> Seq<Token> {
        self.source@
    }

    /// The table is the pairing of a well-nested program.
    pub open spec fn wf(&self) -> bool {
        &&& self.source().len() <= usize::MAX
        &&& well_nested(self.source())
        &&& self@ == pairing(self.source())
    }

    #[verifier::type_invariant]
    spec fn valid(&self) -> bool {
        self.wf()
    }

    /// The jump table of a program, if its loops are perfectly nested and balanced.
    ///
    /// Otherwise the first `LoopEnd` that has no loop to close is reported, and where there
    /// is none, the number of loops that the end of the program leaves open.
    pub fn from(tokens: &[Token]) -> (table: Result<JumpTable, JumpTableError>)
        ensures
            table is Ok <==> well_nested(tokens@),
            (table matches Err(JumpTableError::NoMatchingLoopEnd(_))) <==> !never_negative(
                tokens@,
                tokens@.len() as int,
            ),
            (table matches Err(JumpTableError::TooManyLoopStarts(_))) <==> never_negative(
                tokens@,
                tokens@.len() as int,
            ) && depth(tokens@, tokens@.len() as int) > 0,
            match table {
                Ok(built) => {
                    &&& built.wf()
                    &&& built.source() == tokens@
                    &&& built@ == pairing(tokens@)
                    &&& built@.len() == 2 * loops(tokens@).len()
                },
                Err(JumpTableError::NoMatchingLoopEnd(position)) => first_unmatched_end(
                    tokens@,
                    position as int,
                ),
                Err(JumpTableError::TooManyLoopStarts(count)) => {
                    &&& never_negative(tokens@, tokens@.len() as int)
                    &&& count == depth(tokens@, tokens@.len() as int)
                    &&& count > 0
                },
            },
    {
        broadcast use group_hash_axioms;

        let mut jumps: HashMap<usize, usize> = HashMap::new();
        let mut start_loop_stack: Vec<usize> = Vec::new();

        for position in 0..tokens.len()
            invariant
                never_negative(tokens@, position as int),
                start_loop_stack@.len() == depth(tokens@, position as int),
                pending_starts(tokens@, start_loop_stack@, position as int),
                pairs_recorded(tokens@, jumps@, position as int),
        {
            match tokens[position] {
                Token::LoopStart => {
                    start_loop_stack.push(position);
                },
                Token::LoopEnd => {
                    let start = match start_loop_stack.pop() {
                        Some(x) => x,
                        None => {
                            return Err(JumpTableError::NoMatchingLoopEnd(position));
                        },
                    };
                    proof {
                        assert(matched(tokens@, start as int, position as int));
                        assert forall|close: int|
                            matched(tokens@, start as int, close) implies close == position by {
                            lemma_paired_unique(tokens@, start as int, close, position as int);
                        }
                        assert forall|other: int|
                            matched(tokens@, other, position as int) implies other == start by {
                            lemma_paired_unique(tokens@, position as int, other, start as int);
                        }
                    }
                    jumps.insert(start, position);
                    jumps.insert(position, start);
                },
                _ => (),
            }
        }

        match start_loop_stack.len() {
            0 => {
                proof {
                    lemma_recorded_is_pairing(tokens@, jumps@);
                    lemma_pairing_len(tokens@);
                }
                Ok(Self { jumps, source: Ghost(tokens@) })
            },
            count => Err(JumpTableError::TooManyLoopStarts(count)),
        }
    }

    /// The other end of the loop that `position` is an end of, and `None` for a position
    /// that is no end of a loop.
    pub fn resolve(&self, position: &usize) -> (target: Option<&usize>)
        ensures
            self.wf(),
            match target {
                Some(other) => {
                    &&& self@.contains_key(*position)
                    &&& self@[*position] == *other
                    &&& partner(self.source(), *position as int) == Some(*other as int)
                },
                None => {
                    &&& !self@.contains_key(*position)
                    &&& partner(self.source(), *position as int) is None
                },
            },
    {
        broadcast use group_hash_axioms;

        proof {
            use_type_invariant(self);
            if self@.contains_key(*position) {
                lemma_pairing_entry(self.source(), *position);
                lemma_partner_is(self.source(), *position as int, self@[*position] as int);
            }
        }
        self.jumps.get(position)
    }
}

/// The two ends of every loop of the program resolve to each other.
pub proof fn lemma_table_holds_every_loop(table: JumpTable, start: int, end: int)
    requires
        table.wf(),
        matched(table.source(), start, end),
    ensures
        table@.contains_key(start as usize),
        table@[start as usize] == end,
        table@.contains_key(end as usize),
        table@[end as usize] == start,
{
    lemma_partner_is(table.source(), start, end);
    lemma_partner_is(table.source(), end, start);
}

/// A position that is no end of a loop of the program has no entry.
pub proof fn lemma_table_holds_nothing_else(table: JumpTable, position: usize)
    requires
        table.wf(),
        forall|other: int| !paired(table.source(), position as int, other),
    ensures
        !table@.contains_key(position),
{
}

/// Every entry leads from one end of a loop of the program to its other end: from a
/// `LoopStart` forward to a `LoopEnd`, from a `LoopEnd` back to a `LoopStart`.
pub proof fn lemma_table_entry(table: JumpTable, position: usize)
    requires
        table.wf(),
        table@.contains_key(position),
    ensures
        paired(table.source(), position as int, table@[position] as int),
        position < table.source().len(),
        table@[position] < table.source().len(),
        table.source()[position as int] == Token::LoopStart ==> position < table@[position]
            && table.source()[table@[position] as int] == Token::LoopEnd,
        table.source()[position as int] == Token::LoopEnd ==> table@[position] < position
            && table.source()[table@[position] as int] == Token::LoopStart,
        table.source()[position as int] == Token::LoopStart || table.source()[position as int]
            == Token::LoopEnd,
{
    lemma_pairing_entry(table.source(), position);
    lemma_paired_are_brackets(table.source(), position as int, table@[position] as int);
}

/// Resolving twice leads back: the entry of an entry is the position itself.
pub proof fn lemma_resolve_twice(table: JumpTable, position: usize)
    requires
        table.wf(),
        table@.contains_key(position),
    ensures
        table@.contains_key(table@[position]),
        table@[table@[position]] == position,
{
    lemma_pairing_entry(table.source(), position);
    lemma_partner_is(table.source(), table@[position] as int, position as int);
}

/// Every `LoopStart` and every `LoopEnd` of the program has an entry.
pub proof fn lemma_table_is_complete(table: JumpTable, position: usize)
    requires
        table.wf(),
        position < table.source().len(),
        table.source()[position as int] == Token::LoopStart || table.source()[position as int]
            == Token::LoopEnd,
    ensures
        table@.contains_key(position),
{
    lemma_every_bracket_is_paired(table.source(), position as int);
}

/// The table has two entries for each loop of the program.
pub proof fn lemma_table_len(table: JumpTable)
    requires
        table.wf(),
    ensures
        table@.dom().finite(),
        loops(table.source()).finite(),
        table@.len() == 2 * loops(table.source()).len(),
{
    lemma_pairing_len(table.source());
}

} // verus!
