//! The execution engine: a tape of bytes, a pointer into it and a pointer into the program,
//! moved on by one instruction per step.
//!
//! The engine itself neither reads nor writes a stream. A step that needs the outside hands
//! back an [`Action`], and the caller, who owns the streams, carries it out.

use crate::lexer::{JumpTable, Token};
use crate::nesting::{
    lemma_every_bracket_is_paired, lemma_pairing_entry, lemma_partner_is, matched, pairing,
    well_nested,
};
use std::io::Error;
use vstd::prelude::*;

verus! {

/// `std::io::Error`, the cause of a failed read, declared as an opaque type. The engine hands
/// such a value on and never looks inside: nothing is claimed of it.
#[verifier::external_type_specification]
#[verifier::external_body]
pub struct ExIoError(Error);

/// What the caller has to do after a successful step.
#[derive(Debug, PartialEq, Eq, Clone, Copy, Structural)]
pub enum Action {
    /// Nothing: the instruction is done.
    Proceed,
    /// Write this character to the output stream. The instruction is done.
    Write(char),
    /// Read one byte from the input stream and hand the outcome to
    /// [`State::execute_input`], which completes the instruction.
    Read,
}

/// Why a step did not execute its instruction. The state is then as it was before the step.
#[derive(Debug)]
pub enum ExecutionError {
    /// The instruction pointer is behind the last instruction.
    EndOfInstructions,
    /// The instruction at this position would move the memory pointer below zero.
    PointerUnderflow(usize),
    /// The jump table has no entry for the loop instruction at this position.
    UndefinedJumpTarget(usize),
    /// The read for the `Input` instruction at this position failed, for this reason.
    InputError(usize, Error),
}

/// The machine as a value of mathematics: what a [`State`] stands for.
pub struct Machine {
    pub memory: Seq<u8>,
    pub memory_pointer: nat,
    pub instruction_pointer: nat,
}

/// The machine after a step, and what the step hands back.
pub struct Step {
    pub next: Machine,
    pub result: Result<Action, ExecutionError>,
}

/// The machine after the outcome of a read was handed in, and what comes back to the caller.
pub struct InputStep {
    pub next: Machine,
    pub result: Result<(), ExecutionError>,
}

/// One more, in eight bits: behind 255 comes 0.
pub open spec fn wrapping_increment(cell: u8) -> u8 {
    if cell == 255 {
        0
    } else {
        (cell + 1) as u8
    }
}

/// One less, in eight bits: in front of 0 comes 255.
pub open spec fn wrapping_decrement(cell: u8) -> u8 {
    if cell == 0 {
        255
    } else {
        (cell - 1) as u8
    }
}

impl Machine {
    /// The memory pointer points at a cell of the tape.
    pub open spec fn wf(self) -> bool {
        self.memory_pointer < self.memory.len()
    }

    /// The machine that every run starts from.
    pub open spec fn initial() -> Machine {
        Machine { memory: seq![0u8], memory_pointer: 0, instruction_pointer: 0 }
    }

    /// The machine has an instruction left to execute.
    pub open spec fn can_execute(self, tokens: Seq<Token>) -> bool {
        self.instruction_pointer < tokens.len()
    }

    /// The machine stands at an `Input` instruction.
    pub open spec fn awaits_input(self, tokens: Seq<Token>) -> bool {
        self.can_execute(tokens) && tokens[self.instruction_pointer as int] == Token::Input
    }

    /// The cell under the memory pointer.
    pub open spec fn cell(self) -> u8 {
        self.memory[self.memory_pointer as int]
    }

    /// The same machine with `value` in the cell under the memory pointer.
    pub open spec fn store(self, value: u8) -> Machine {
        Machine { memory: self.memory.update(self.memory_pointer as int, value), ..self }
    }

    /// The same machine at the next instruction.
    pub open spec fn advance(self) -> Machine {
        Machine { instruction_pointer: self.instruction_pointer + 1, ..self }
    }

    /// The same machine at the instruction at `target`.
    pub open spec fn jump(self, target: nat) -> Machine {
        Machine { instruction_pointer: target, ..self }
    }

    /// The memory pointer one cell further up; a tape that ends there gets one more zero cell.
    pub open spec fn move_right(self) -> Machine {
        Machine {
            memory: if self.memory_pointer + 1 == self.memory.len() {
                self.memory.push(0)
            } else {
                self.memory
            },
            memory_pointer: self.memory_pointer + 1,
            ..self
        }
    }

    /// The memory pointer one cell further down.
    pub open spec fn move_left(self) -> Machine {
        Machine { memory_pointer: (self.memory_pointer - 1) as nat, ..self }
    }
}

/// `PointerDecrement`: at cell 0 there is nowhere to go, and the machine stays as it is.
pub open spec fn pointer_decrement(machine: Machine) -> Step {
    if machine.memory_pointer == 0 {
        Step {
            next: machine,
            result: Err(ExecutionError::PointerUnderflow(machine.instruction_pointer as usize)),
        }
    } else {
        Step { next: machine.move_left().advance(), result: Ok(Action::Proceed) }
    }
}

/// `LoopStart`: on a zero cell go on behind the matching `LoopEnd`, else enter the loop.
pub open spec fn loop_start(machine: Machine, jumps: Map<usize, usize>) -> Step {
    let position = machine.instruction_pointer as usize;
    if machine.cell() != 0 {
        Step { next: machine.advance(), result: Ok(Action::Proceed) }
    } else if jumps.contains_key(position) {
        Step { next: machine.jump((jumps[position] + 1) as nat), result: Ok(Action::Proceed) }
    } else {
        Step { next: machine, result: Err(ExecutionError::UndefinedJumpTarget(position)) }
    }
}

/// `LoopEnd`: go back to the matching `LoopStart`, which looks at the cell again.
pub open spec fn loop_end(machine: Machine, jumps: Map<usize, usize>) -> Step {
    let position = machine.instruction_pointer as usize;
    if jumps.contains_key(position) {
        Step { next: machine.jump(jumps[position] as nat), result: Ok(Action::Proceed) }
    } else {
        Step { next: machine, result: Err(ExecutionError::UndefinedJumpTarget(position)) }
    }
}

/// One step of the machine on the program `tokens` with the jump table `jumps`.
pub open spec fn step(machine: Machine, tokens: Seq<Token>, jumps: Map<usize, usize>) -> Step {
    if !machine.can_execute(tokens) {
        Step { next: machine, result: Err(ExecutionError::EndOfInstructions) }
    } else {
        match tokens[machine.instruction_pointer as int] {
            Token::Increment => Step {
                next: machine.store(wrapping_increment(machine.cell())).advance(),
                result: Ok(Action::Proceed),
            },
            Token::Decrement => Step {
                next: machine.store(wrapping_decrement(machine.cell())).advance(),
                result: Ok(Action::Proceed),
            },
            Token::PointerIncrement => Step {
                next: machine.move_right().advance(),
                result: Ok(Action::Proceed),
            },
            Token::PointerDecrement => pointer_decrement(machine),
            Token::LoopStart => loop_start(machine, jumps),
            Token::LoopEnd => loop_end(machine, jumps),
            Token::Input => Step { next: machine, result: Ok(Action::Read) },
            Token::Output => Step {
                next: machine.advance(),
                result: Ok(Action::Write(machine.cell() as char)),
            },
        }
    }
}

/// What the outcome `read` of reading one byte does to the machine. A byte goes into the
/// cell of a machine that stands at an `Input` instruction; a machine that stands at another
/// instruction takes nothing and stays as it is.
pub open spec fn input_step(
    machine: Machine,
    tokens: Seq<Token>,
    read: Result<u8, Error>,
) -> InputStep {
    if !machine.can_execute(tokens) {
        InputStep { next: machine, result: Err(ExecutionError::EndOfInstructions) }
    } else if !machine.awaits_input(tokens) {
        InputStep { next: machine, result: Ok(()) }
    } else {
        match read {
            Ok(byte) => InputStep { next: machine.store(byte).advance(), result: Ok(()) },
            Err(cause) => InputStep {
                next: machine,
                result: Err(
                    ExecutionError::InputError(machine.instruction_pointer as usize, cause),
                ),
            },
        }
    }
}

/// The whole state of a running program.
///
/// `Vec::push` may unwind, so the validity of a state is not a type invariant: it is
/// [`State::wf`], which every constructor establishes and every method keeps.
pub struct State {
    memory: Vec<u8>,
    memory_pointer: usize,
    instruction_pointer: usize,
}

impl View for State {
    type V = Machine;

    closed spec fn view(&self) -> Machine {
        Machine {
            memory: self.memory@,
            memory_pointer: self.memory_pointer as nat,
            instruction_pointer: self.instruction_pointer as nat,
        }
    }
}

impl State {
    /// The memory pointer points at a cell of the tape.
    pub open spec fn wf(&self) -> bool {
        self@.wf()
    }

    /// The state that every run starts from: a tape of one zero cell, and both pointers at 0.
    pub fn new() -> (state: Self)
        ensures
            state.wf(),
            state@ == Machine::initial(),
    {
        let state = Self { memory: vec![0], memory_pointer: 0, instruction_pointer: 0 };
        assert(state@.memory =~= seq![0u8]);
        state
    }

    /// A state with the given tape and pointers, if the memory pointer points at a cell of
    /// the tape.
    pub fn from_parts(
        memory: Vec<u8>,
        memory_pointer: usize,
        instruction_pointer: usize,
    ) -> (state: Option<Self>)
        ensures
            state is Some <==> memory_pointer < memory@.len(),
            state matches Some(built) ==> built.wf() && built@ == (Machine {
                memory: memory@,
                memory_pointer: memory_pointer as nat,
                instruction_pointer: instruction_pointer as nat,
            }),
    {
        if memory_pointer < memory.len() {
            Some(Self { memory, memory_pointer, instruction_pointer })
        } else {
            None
        }
    }

    /// The tape.
    pub fn memory(&self) -> (tape: &[u8])
        ensures
            tape@ == self@.memory,
    {
        self.memory.as_slice()
    }

    /// The index of the cell that the machine works on.
    pub fn memory_pointer(&self) -> (pointer: usize)
        ensures
            pointer == self@.memory_pointer,
    {
        self.memory_pointer
    }

    /// The position of the instruction that the next step executes.
    pub fn instruction_pointer(&self) -> (pointer: usize)
        ensures
            pointer == self@.instruction_pointer,
    {
        self.instruction_pointer
    }

    /// Whether the instruction pointer is still inside the program.
    pub fn can_execute(&self, tokens: &[Token]) -> (within: bool)
        ensures
            within == self@.can_execute(tokens@),
    {
        self.instruction_pointer < tokens.len()
    }

    /// Executes the instruction at the instruction pointer, as [`step`] says.
    ///
    /// The streams are the caller's. For `Output` the step is done and hands back
    /// [`Action::Write`] with the character to write. For `Input` the state stays as it is and
    /// the step hands back [`Action::Read`]: the caller reads one byte, and
    /// [`State::execute_input`] completes the instruction with what came of it.
    pub fn execute_current_instruction(
        &mut self,
        tokens: &[Token],
        jump_table: &JumpTable,
    ) -> (result: Result<Action, ExecutionError>)
        requires
            old(self).wf(),
        ensures
            final(self).wf(),
            final(self)@ == step(old(self)@, tokens@, jump_table@).next,
            result == step(old(self)@, tokens@, jump_table@).result,
    {
        if !self.can_execute(tokens) {
            return Err(ExecutionError::EndOfInstructions);
        }
        match tokens[self.instruction_pointer] {
            Token::Increment => {
                self.execute_increment();
                Ok(Action::Proceed)
            },
            Token::Decrement => {
                self.execute_decrement();
                Ok(Action::Proceed)
            },
            Token::PointerIncrement => {
                self.execute_pointer_increment();
                Ok(Action::Proceed)
            },
            Token::PointerDecrement => self.execute_pointer_decrement(),
            Token::LoopStart => self.execute_loop_start(jump_table),
            Token::LoopEnd => self.execute_loop_end(jump_table),
            Token::Input => Ok(Action::Read),
            Token::Output => Ok(Action::Write(self.execute_output())),
        }
    }

    /// Completes the `Input` instruction at the instruction pointer, as [`input_step`] says:
    /// `read` is the outcome of reading one byte from the input stream. A byte is stored and
    /// the machine moves on; a failed read is reported with its cause, and the machine stays
    /// at the instruction.
    pub fn execute_input(
        &mut self,
        tokens: &[Token],
        read: Result<u8, Error>,
    ) -> (result: Result<(), ExecutionError>)
        requires
            old(self).wf(),
        ensures
            final(self).wf(),
            final(self)@ == input_step(old(self)@, tokens@, read).next,
            result == input_step(old(self)@, tokens@, read).result,
    {
        if !self.can_execute(tokens) {
            return Err(ExecutionError::EndOfInstructions);
        }
        match tokens[self.instruction_pointer] {
            Token::Input => match read {
                Ok(byte) => {
                    self.memory[self.memory_pointer] = byte;
                    self.instruction_pointer += 1;
                    Ok(())
                },
                Err(cause) => Err(ExecutionError::InputError(self.instruction_pointer, cause)),
            },
            _ => Ok(()),
        }
    }

    fn execute_increment(&mut self)
        requires
            old(self).wf(),
            old(self)@.instruction_pointer < usize::MAX,
        ensures
            final(self)@ == old(self)@.store(wrapping_increment(old(self)@.cell())).advance(),
    {
        let value = self.memory[self.memory_pointer].wrapping_add(1);
        self.memory[self.memory_pointer] = value;
        self.instruction_pointer += 1;
    }

    fn execute_decrement(&mut self)
        requires
            old(self).wf(),
            old(self)@.instruction_pointer < usize::MAX,
        ensures
            final(self)@ == old(self)@.store(wrapping_decrement(old(self)@.cell())).advance(),
    {
        let value = self.memory[self.memory_pointer].wrapping_sub(1);
        self.memory[self.memory_pointer] = value;
        self.instruction_pointer += 1;
    }

    fn execute_pointer_increment(&mut self)
        requires
            old(self).wf(),
            old(self)@.instruction_pointer < usize::MAX,
        ensures
            final(self)@ == old(self)@.move_right().advance(),
    {
        proof {
            vstd::std_specs::vec::axiom_spec_len(&self.memory);
        }
        self.memory_pointer += 1;
        if self.memory.len() == self.memory_pointer {
            self.memory.push(0);
        }
        self.instruction_pointer += 1;
    }

    fn execute_pointer_decrement(&mut self) -> (result: Result<Action, ExecutionError>)
        requires
            old(self)@.instruction_pointer < usize::MAX,
        ensures
            final(self)@ == pointer_decrement(old(self)@).next,
            result == pointer_decrement(old(self)@).result,
    {
        if self.memory_pointer == 0 {
            return Err(ExecutionError::PointerUnderflow(self.instruction_pointer));
        }
        self.memory_pointer -= 1;
        self.instruction_pointer += 1;
        Ok(Action::Proceed)
    }

    fn execute_loop_start(
        &mut self,
        jump_table: &JumpTable,
    ) -> (result: Result<Action, ExecutionError>)
        requires
            old(self).wf(),
            old(self)@.instruction_pointer < usize::MAX,
        ensures
            final(self)@ == loop_start(old(self)@, jump_table@).next,
            result == loop_start(old(self)@, jump_table@).result,
    {
        match self.memory[self.memory_pointer] {
            0 => match jump_table.resolve(&self.instruction_pointer) {
                Some(x) => {
                    proof {
                        lemma_pairing_entry(jump_table.source(), self.instruction_pointer);
                    }
                    self.instruction_pointer = *x + 1;
                },
                None => {
                    return Err(ExecutionError::UndefinedJumpTarget(self.instruction_pointer));
                },
            },
            _ => self.instruction_pointer += 1,
        }
        Ok(Action::Proceed)
    }

    fn execute_loop_end(
        &mut self,
        jump_table: &JumpTable,
    ) -> (result: Result<Action, ExecutionError>)
        ensures
            final(self)@ == loop_end(old(self)@, jump_table@).next,
            result == loop_end(old(self)@, jump_table@).result,
    {
        match jump_table.resolve(&self.instruction_pointer) {
            Some(x) => self.instruction_pointer = *x,
            None => {
                return Err(ExecutionError::UndefinedJumpTarget(self.instruction_pointer));
            },
        };
        Ok(Action::Proceed)
    }

    fn execute_output(&mut self) -> (character: char)
        requires
            old(self).wf(),
            old(self)@.instruction_pointer < usize::MAX,
        ensures
            final(self)@ == old(self)@.advance(),
            character == old(self)@.cell() as char,
    {
        let character = self.memory[self.memory_pointer] as char;
        self.instruction_pointer += 1;
        character
    }
}

/// `Increment` adds one to the cell under the memory pointer in eight-bit wraparound
/// arithmetic, so that 255 becomes 0, and moves on by exactly one instruction. Nothing else
/// changes, and the step never fails.
pub proof fn lemma_increment_wraps(machine: Machine, tokens: Seq<Token>, jumps: Map<usize, usize>)
    requires
        machine.wf(),
        machine.can_execute(tokens),
        tokens[machine.instruction_pointer as int] == Token::Increment,
    ensures
        ({
            let Step { next, result } = step(machine, tokens, jumps);
            &&& result == Ok::<Action, ExecutionError>(Action::Proceed)
            &&& next.instruction_pointer == machine.instruction_pointer + 1
            &&& next.memory_pointer == machine.memory_pointer
            &&& next.cell() == (machine.cell() + 1) % 256
            &&& machine.cell() == 255 ==> next.cell() == 0
            &&& next.memory.len() == machine.memory.len()
            &&& forall|i: int|
                0 <= i < machine.memory.len() && i != machine.memory_pointer ==> next.memory[i]
                    == machine.memory[i]
        }),
{
}

/// `Decrement` takes one from the cell under the memory pointer in eight-bit wraparound
/// arithmetic, so that 0 becomes 255, and moves on by exactly one instruction. Nothing else
/// changes, and the step never fails.
pub proof fn lemma_decrement_wraps(machine: Machine, tokens: Seq<Token>, jumps: Map<usize, usize>)
    requires
        machine.wf(),
        machine.can_execute(tokens),
        tokens[machine.instruction_pointer as int] == Token::Decrement,
    ensures
        ({
            let Step { next, result } = step(machine, tokens, jumps);
            &&& result == Ok::<Action, ExecutionError>(Action::Proceed)
            &&& next.instruction_pointer == machine.instruction_pointer + 1
            &&& next.memory_pointer == machine.memory_pointer
            &&& next.cell() == (machine.cell() - 1) % 256
            &&& machine.cell() == 0 ==> next.cell() == 255
            &&& next.memory.len() == machine.memory.len()
            &&& forall|i: int|
                0 <= i < machine.memory.len() && i != machine.memory_pointer ==> next.memory[i]
                    == machine.memory[i]
        }),
{
}

/// `PointerIncrement` from the last cell of the tape appends exactly one zero cell, and the
/// new memory pointer is the old length of the tape; from any other cell the tape stays as it
/// is. The step never fails.
pub proof fn lemma_pointer_increment_grows_at_the_end(
    machine: Machine,
    tokens: Seq<Token>,
    jumps: Map<usize, usize>,
)
    requires
        machine.wf(),
        machine.can_execute(tokens),
        tokens[machine.instruction_pointer as int] == Token::PointerIncrement,
    ensures
        ({
            let Step { next, result } = step(machine, tokens, jumps);
            &&& result == Ok::<Action, ExecutionError>(Action::Proceed)
            &&& next.instruction_pointer == machine.instruction_pointer + 1
            &&& next.memory_pointer == machine.memory_pointer + 1
            &&& machine.memory_pointer == machine.memory.len() - 1 ==> {
                &&& next.memory == machine.memory.push(0)
                &&& next.memory_pointer == machine.memory.len()
            }
            &&& machine.memory_pointer < machine.memory.len() - 1 ==> next.memory
                == machine.memory
        }),
{
}

/// `PointerDecrement` at memory pointer 0 fails with `PointerUnderflow` of the instruction
/// pointer and leaves the machine as it was; elsewhere it moves the memory pointer down by
/// one and moves on by one instruction.
pub proof fn lemma_pointer_decrement_underflow(
    machine: Machine,
    tokens: Seq<Token>,
    jumps: Map<usize, usize>,
)
    requires
        machine.wf(),
        machine.can_execute(tokens),
        tokens[machine.instruction_pointer as int] == Token::PointerDecrement,
    ensures
        ({
            let Step { next, result } = step(machine, tokens, jumps);
            &&& machine.memory_pointer == 0 ==> {
                &&& result == Err::<Action, ExecutionError>(
                    ExecutionError::PointerUnderflow(machine.instruction_pointer as usize),
                )
                &&& next == machine
            }
            &&& machine.memory_pointer > 0 ==> {
                &&& result == Ok::<Action, ExecutionError>(Action::Proceed)
                &&& next.memory_pointer == machine.memory_pointer - 1
                &&& next.instruction_pointer == machine.instruction_pointer + 1
                &&& next.memory == machine.memory
            }
        }),
{
}

/// A step asks the caller to read at an `Input` instruction and nowhere else, and leaves the
/// machine there; it asks the caller to write at an `Output` instruction and nowhere else,
/// hands out the character whose code point is the cell under the memory pointer, and moves
/// on by one instruction.
pub proof fn lemma_actions_follow_the_instruction(
    machine: Machine,
    tokens: Seq<Token>,
    jumps: Map<usize, usize>,
)
    ensures
        ({
            let Step { next, result } = step(machine, tokens, jumps);
            let token = tokens[machine.instruction_pointer as int];
            &&& result == Ok::<Action, ExecutionError>(Action::Read) <==> machine.awaits_input(
                tokens,
            )
            &&& result == Ok::<Action, ExecutionError>(Action::Read) ==> next == machine
            &&& (result matches Ok(Action::Write(_))) <==> machine.can_execute(tokens) && token
                == Token::Output
            &&& result matches Ok(Action::Write(character)) ==> {
                &&& character as int == machine.cell() as int
                &&& next == machine.advance()
            }
        }),
{
}

/// A step behind the last instruction fails with `EndOfInstructions` and changes nothing,
/// and so does an input handed in there.
pub proof fn lemma_end_of_instructions(
    machine: Machine,
    tokens: Seq<Token>,
    jumps: Map<usize, usize>,
    read: Result<u8, Error>,
)
    requires
        !machine.can_execute(tokens),
    ensures
        step(machine, tokens, jumps).result == Err::<Action, ExecutionError>(
            ExecutionError::EndOfInstructions,
        ),
        step(machine, tokens, jumps).next == machine,
        input_step(machine, tokens, read).result == Err::<(), ExecutionError>(
            ExecutionError::EndOfInstructions,
        ),
        input_step(machine, tokens, read).next == machine,
{
}

/// A step that fails leaves the machine as it was.
pub proof fn lemma_failed_step_changes_nothing(
    machine: Machine,
    tokens: Seq<Token>,
    jumps: Map<usize, usize>,
    read: Result<u8, Error>,
)
    ensures
        step(machine, tokens, jumps).result is Err ==> step(machine, tokens, jumps).next == machine,
        input_step(machine, tokens, read).result is Err ==> input_step(machine, tokens, read).next
            == machine,
{
}

/// Every step keeps the memory pointer on the tape. The tape never shrinks and no cell but
/// the one under the memory pointer changes; the tape grows by one zero cell at its high
/// end, and only when `PointerIncrement` leaves its last cell.
pub proof fn lemma_step_keeps_the_tape(
    machine: Machine,
    tokens: Seq<Token>,
    jumps: Map<usize, usize>,
)
    requires
        machine.wf(),
    ensures
        ({
            let next = step(machine, tokens, jumps).next;
            &&& next.wf()
            &&& forall|i: int|
                0 <= i < machine.memory.len() && i != machine.memory_pointer ==> next.memory[i]
                    == machine.memory[i]
            &&& next.memory.len() == machine.memory.len() || {
                &&& next.memory == machine.memory.push(0)
                &&& machine.can_execute(tokens)
                &&& tokens[machine.instruction_pointer as int] == Token::PointerIncrement
                &&& machine.memory_pointer == machine.memory.len() - 1
            }
        }),
{
}

/// An input handed in keeps the memory pointer on the tape and the length of the tape, and
/// changes no cell but the one under the memory pointer.
pub proof fn lemma_input_keeps_the_tape(
    machine: Machine,
    tokens: Seq<Token>,
    read: Result<u8, Error>,
)
    requires
        machine.wf(),
    ensures
        ({
            let next = input_step(machine, tokens, read).next;
            &&& next.wf()
            &&& next.memory.len() == machine.memory.len()
            &&& next.memory_pointer == machine.memory_pointer
            &&& forall|i: int|
                0 <= i < machine.memory.len() && i != machine.memory_pointer ==> next.memory[i]
                    == machine.memory[i]
        }),
{
}

/// With the jump table of the program that it runs, a step never fails with
/// `UndefinedJumpTarget`, and an instruction pointer that is not behind the end of the
/// program stays so.
pub proof fn lemma_own_table_has_every_target(machine: Machine, tokens: Seq<Token>)
    requires
        well_nested(tokens),
        tokens.len() <= usize::MAX,
    ensures
        ({
            let Step { next, result } = step(machine, tokens, pairing(tokens));
            &&& !(result matches Err(ExecutionError::UndefinedJumpTarget(_)))
            &&& machine.instruction_pointer <= tokens.len() ==> next.instruction_pointer
                <= tokens.len()
        }),
{
    let position = machine.instruction_pointer;
    if machine.can_execute(tokens) {
        let token = tokens[position as int];
        if token == Token::LoopStart || token == Token::LoopEnd {
            lemma_every_bracket_is_paired(tokens, position as int);
            lemma_pairing_entry(tokens, position as usize);
        }
    }
}

/// Run with the jump table of its own program, `LoopStart` looks at the cell under the
/// memory pointer: on zero the machine goes on one behind the `LoopEnd` that closes the loop,
/// on anything else it enters the loop. The tape and the memory pointer stay as they are.
pub proof fn lemma_loop_start_tests_the_cell(machine: Machine, tokens: Seq<Token>, end: int)
    requires
        tokens.len() <= usize::MAX,
        matched(tokens, machine.instruction_pointer as int, end),
    ensures
        ({
            let Step { next, result } = step(machine, tokens, pairing(tokens));
            &&& result == Ok::<Action, ExecutionError>(Action::Proceed)
            &&& machine.cell() == 0 ==> next.instruction_pointer == end + 1
            &&& machine.cell() != 0 ==> next.instruction_pointer == machine.instruction_pointer
                + 1
            &&& next.memory == machine.memory
            &&& next.memory_pointer == machine.memory_pointer
        }),
{
    lemma_partner_is(tokens, machine.instruction_pointer as int, end);
}

/// Run with the jump table of its own program, `LoopEnd` goes back to the `LoopStart` that
/// opened the loop, whatever the cell under the memory pointer holds. The tape and the memory
/// pointer stay as they are.
pub proof fn lemma_loop_end_goes_back(machine: Machine, tokens: Seq<Token>, start: int)
    requires
        tokens.len() <= usize::MAX,
        matched(tokens, start, machine.instruction_pointer as int),
    ensures
        ({
            let Step { next, result } = step(machine, tokens, pairing(tokens));
            &&& result == Ok::<Action, ExecutionError>(Action::Proceed)
            &&& next.instruction_pointer == start
            &&& next.memory == machine.memory
            &&& next.memory_pointer == machine.memory_pointer
        }),
{
    lemma_partner_is(tokens, machine.instruction_pointer as int, start);
}

} // verus!
