use brainfudge::lexer::{tokenize, JumpTable, Token};
use brainfudge::runtime::{Action, ExecutionError, State};
use std::io::{Error, ErrorKind};

#[test]
fn can_execute_true_when_tokens_left() {
    let state = State::new();
    assert_eq!(state.can_execute(&[Token::Increment]), true);
}

#[test]
fn can_execute_false_when_no_tokens_left() {
    let state = State::new();
    assert_eq!(state.can_execute(&[]), false);
}

#[test]
fn error_on_execute_finished_program() {
    let mut state = State::new();
    let tokens = [];
    let jump_table = JumpTable::from(&tokens).unwrap();

    let result = state.execute_current_instruction(&tokens, &jump_table);

    assert!(result.is_err());
    match result.unwrap_err() {
        ExecutionError::EndOfInstructions => assert!(true),
        _ => assert!(false),
    };
}

#[test]
fn increments_adds_one_to_current() {
    let mut state = State::new();
    let tokens = [Token::Increment];
    let jump_table = JumpTable::from(&tokens).unwrap();

    let result = state.execute_current_instruction(&tokens, &jump_table);

    assert!(result.is_ok());
    assert_eq!(state.memory()[0], 1);
    assert_eq!(state.instruction_pointer(), 1);
}

#[test]
fn increments_overflows() {
    let mut state = State::from_parts(vec![255], 0, 0).unwrap();
    let tokens = [Token::Increment];
    let jump_table = JumpTable::from(&tokens).unwrap();

    let result = state.execute_current_instruction(&tokens, &jump_table);

    assert!(result.is_ok());
    assert_eq!(state.memory()[0], 0);
    assert_eq!(state.instruction_pointer(), 1);
}

#[test]
fn decrements_subtracts_one_to_current() {
    let mut state = State::from_parts(vec![10], 0, 0).unwrap();
    let tokens = [Token::Decrement];
    let jump_table = JumpTable::from(&tokens).unwrap();

    let result = state.execute_current_instruction(&tokens, &jump_table);

    assert!(result.is_ok());
    assert_eq!(state.memory()[0], 9);
    assert_eq!(state.instruction_pointer(), 1);
}

#[test]
fn decrements_underflows() {
    let mut state = State::new();
    let tokens = [Token::Decrement];
    let jump_table = JumpTable::from(&tokens).unwrap();

    let result = state.execute_current_instruction(&tokens, &jump_table);

    assert!(result.is_ok());
    assert_eq!(state.memory()[0], 255);
    assert_eq!(state.instruction_pointer(), 1);
}

#[test]
fn pointer_increment_advances_memory_pointer() {
    let mut state = State::new();
    let tokens = [Token::PointerIncrement];
    let jump_table = JumpTable::from(&tokens).unwrap();

    let result = state.execute_current_instruction(&tokens, &jump_table);

    assert!(result.is_ok());
    assert_eq!(state.memory_pointer(), 1);
    assert_eq!(state.memory().len(), 2);
    assert_eq!(state.instruction_pointer(), 1);
}

#[test]
fn pointer_decrement_moves_back_memory_pointer() {
    let mut state = State::from_parts(vec![0; 3], 2, 0).unwrap();
    let tokens = [Token::PointerDecrement];
    let jump_table = JumpTable::from(&tokens).unwrap();

    let result = state.execute_current_instruction(&tokens, &jump_table);

    assert!(result.is_ok());
    assert_eq!(state.memory_pointer(), 1);
    assert_eq!(state.memory().len(), 3);
    assert_eq!(state.instruction_pointer(), 1);
}

#[test]
fn pointer_decrement_errors_on_underflow() {
    let mut state = State::new();
    let tokens = [Token::PointerDecrement];
    let jump_table = JumpTable::from(&tokens).unwrap();

    let result = state.execute_current_instruction(&tokens, &jump_table);

    assert!(result.is_err());
    match result.unwrap_err() {
        ExecutionError::PointerUnderflow(x) => assert_eq!(x, 0),
        _ => assert!(false),
    };
}

#[test]
fn loop_start_enters_loop_on_none_zero() {
    let mut state = State::from_parts(vec![1], 0, 0).unwrap();
    let tokens = [
        Token::LoopStart,
        Token::Increment,
        Token::LoopEnd,
        Token::Decrement,
    ];
    let jump_table = JumpTable::from(&tokens).unwrap();

    let result = state.execute_current_instruction(&tokens, &jump_table);

    assert!(result.is_ok());
    assert_eq!(state.instruction_pointer(), 1);
}

#[test]
fn loop_start_jumps_over_loop_on_zero() {
    let mut state = State::new();
    let tokens = [
        Token::LoopStart,
        Token::Increment,
        Token::LoopEnd,
        Token::Decrement,
    ];
    let jump_table = JumpTable::from(&tokens).unwrap();

    let result = state.execute_current_instruction(&tokens, &jump_table);

    assert!(result.is_ok());
    assert_eq!(state.instruction_pointer(), 3);
}

#[test]
fn loop_start_errors_on_invalid_jump_table_on_zero() {
    let mut state = State::new();
    let tokens = [];
    let jump_table = JumpTable::from(&tokens).unwrap();
    let tokens = [
        Token::LoopStart,
        Token::Increment,
        Token::LoopEnd,
        Token::Decrement,
    ];

    let result = state.execute_current_instruction(&tokens, &jump_table);

    assert!(result.is_err());
    match result.unwrap_err() {
        ExecutionError::UndefinedJumpTarget(x) => assert_eq!(x, 0),
        _ => assert!(false),
    };
}

#[test]
fn loop_end_jumps_back_to_start() {
    let mut state = State::from_parts(vec![0], 0, 2).unwrap();
    let tokens = [
        Token::LoopStart,
        Token::Increment,
        Token::LoopEnd,
        Token::Decrement,
    ];
    let jump_table = JumpTable::from(&tokens).unwrap();

    let result = state.execute_current_instruction(&tokens, &jump_table);

    assert!(result.is_ok());
    assert_eq!(state.instruction_pointer(), 0);
}

#[test]
fn loop_end_errors_on_invalid_jump_table() {
    let mut state = State::from_parts(vec![0], 0, 2).unwrap();
    let tokens = [];
    let jump_table = JumpTable::from(&tokens).unwrap();
    let tokens = [
        Token::LoopStart,
        Token::Increment,
        Token::LoopEnd,
        Token::Decrement,
    ];

    let result = state.execute_current_instruction(&tokens, &jump_table);

    assert!(result.is_err());
    match result.unwrap_err() {
        ExecutionError::UndefinedJumpTarget(x) => assert_eq!(x, 2),
        _ => assert!(false),
    };
}

fn run(source: &str, input: &[u8]) -> (State, String) {
    let tokens = tokenize(source);
    let jump_table = JumpTable::from(&tokens).unwrap();
    let mut state = State::new();
    let mut pending = input.iter();
    let mut output = String::new();
    while state.can_execute(&tokens) {
        match state.execute_current_instruction(&tokens, &jump_table).unwrap() {
            Action::Proceed => {}
            Action::Write(character) => output.push(character),
            Action::Read => {
                let read = match pending.next() {
                    Some(byte) => Ok(*byte),
                    None => Err(Error::from(ErrorKind::UnexpectedEof)),
                };
                state.execute_input(&tokens, read).unwrap();
            }
        }
    }
    (state, output)
}

#[test]
fn new_state_is_one_zero_cell() {
    let state = State::new();

    assert_eq!(state.memory(), &[0]);
    assert_eq!(state.memory_pointer(), 0);
    assert_eq!(state.instruction_pointer(), 0);
}

#[test]
fn from_parts_wants_the_pointer_on_the_tape() {
    assert!(State::from_parts(vec![], 0, 0).is_none());
    assert!(State::from_parts(vec![1, 2], 2, 0).is_none());

    let state = State::from_parts(vec![1, 2], 1, 7).unwrap();
    assert_eq!(state.memory(), &[1, 2]);
    assert_eq!(state.memory_pointer(), 1);
    assert_eq!(state.instruction_pointer(), 7);
}

#[test]
fn finished_program_is_left_as_it_is() {
    let tokens = [Token::Increment];
    let jump_table = JumpTable::from(&tokens).unwrap();
    let mut state = State::from_parts(vec![4, 5], 1, 1).unwrap();

    assert!(!state.can_execute(&tokens));
    let result = state.execute_current_instruction(&tokens, &jump_table);

    assert!(matches!(result, Err(ExecutionError::EndOfInstructions)));
    assert_eq!(state.memory(), &[4, 5]);
    assert_eq!(state.memory_pointer(), 1);
    assert_eq!(state.instruction_pointer(), 1);
}

#[test]
fn increment_and_decrement_touch_only_their_cell() {
    let tokens = [Token::Increment, Token::Decrement];
    let jump_table = JumpTable::from(&tokens).unwrap();
    let mut state = State::from_parts(vec![7, 255, 9], 1, 0).unwrap();

    assert!(matches!(
        state.execute_current_instruction(&tokens, &jump_table),
        Ok(Action::Proceed)
    ));
    assert_eq!(state.memory(), &[7, 0, 9]);
    assert_eq!(state.memory_pointer(), 1);
    assert_eq!(state.instruction_pointer(), 1);

    assert!(matches!(
        state.execute_current_instruction(&tokens, &jump_table),
        Ok(Action::Proceed)
    ));
    assert_eq!(state.memory(), &[7, 255, 9]);
    assert_eq!(state.instruction_pointer(), 2);
}

#[test]
fn pointer_increment_grows_the_tape_only_at_its_end() {
    let tokens = [Token::PointerIncrement, Token::PointerIncrement];
    let jump_table = JumpTable::from(&tokens).unwrap();
    let mut state = State::from_parts(vec![3, 4], 0, 0).unwrap();

    state.execute_current_instruction(&tokens, &jump_table).unwrap();
    assert_eq!(state.memory(), &[3, 4]);
    assert_eq!(state.memory_pointer(), 1);

    state.execute_current_instruction(&tokens, &jump_table).unwrap();
    assert_eq!(state.memory(), &[3, 4, 0]);
    assert_eq!(state.memory_pointer(), 2);
    assert_eq!(state.instruction_pointer(), 2);
}

#[test]
fn pointer_underflow_leaves_both_pointers() {
    let tokens = [Token::Increment, Token::PointerDecrement];
    let jump_table = JumpTable::from(&tokens).unwrap();
    let mut state = State::from_parts(vec![8], 0, 1).unwrap();

    let result = state.execute_current_instruction(&tokens, &jump_table);

    assert!(matches!(result, Err(ExecutionError::PointerUnderflow(1))));
    assert_eq!(state.memory(), &[8]);
    assert_eq!(state.memory_pointer(), 0);
    assert_eq!(state.instruction_pointer(), 1);
}

#[test]
fn undefined_jump_target_leaves_the_state() {
    let empty: [Token; 0] = [];
    let jump_table = JumpTable::from(&empty).unwrap();
    let tokens = [Token::LoopStart, Token::LoopEnd];

    let mut state = State::from_parts(vec![0], 0, 0).unwrap();
    let result = state.execute_current_instruction(&tokens, &jump_table);
    assert!(matches!(result, Err(ExecutionError::UndefinedJumpTarget(0))));
    assert_eq!(state.instruction_pointer(), 0);

    let mut state = State::from_parts(vec![5], 0, 0).unwrap();
    let result = state.execute_current_instruction(&tokens, &jump_table);
    assert!(matches!(result, Ok(Action::Proceed)));
    assert_eq!(state.instruction_pointer(), 1);

    let result = state.execute_current_instruction(&tokens, &jump_table);
    assert!(matches!(result, Err(ExecutionError::UndefinedJumpTarget(1))));
    assert_eq!(state.memory(), &[5]);
    assert_eq!(state.instruction_pointer(), 1);
}

#[test]
fn loop_on_zero_cell_is_skipped() {
    let tokens = tokenize("[+]");
    let jump_table = JumpTable::from(&tokens).unwrap();
    let mut state = State::new();

    let result = state.execute_current_instruction(&tokens, &jump_table);

    assert!(matches!(result, Ok(Action::Proceed)));
    assert_eq!(state.instruction_pointer(), 3);
    assert!(!state.can_execute(&tokens));
    assert_eq!(state.memory(), &[0]);
}

#[test]
fn loop_runs_until_the_cell_wraps_to_zero() {
    let tokens = tokenize("[+]");
    let jump_table = JumpTable::from(&tokens).unwrap();
    let mut state = State::from_parts(vec![1], 0, 0).unwrap();

    state.execute_current_instruction(&tokens, &jump_table).unwrap();
    assert_eq!(state.instruction_pointer(), 1);
    state.execute_current_instruction(&tokens, &jump_table).unwrap();
    assert_eq!(state.memory(), &[2]);
    assert_eq!(state.instruction_pointer(), 2);
    state.execute_current_instruction(&tokens, &jump_table).unwrap();
    assert_eq!(state.instruction_pointer(), 0);

    let mut increments = 1;
    while state.can_execute(&tokens) {
        if tokens[state.instruction_pointer()] == Token::Increment {
            increments += 1;
        }
        if tokens[state.instruction_pointer()] == Token::LoopEnd {
            state.execute_current_instruction(&tokens, &jump_table).unwrap();
            assert_eq!(state.instruction_pointer(), 0);
        } else {
            state.execute_current_instruction(&tokens, &jump_table).unwrap();
        }
    }

    assert_eq!(increments, 255);
    assert_eq!(state.memory(), &[0]);
    assert_eq!(state.instruction_pointer(), 3);
}

#[test]
fn output_hands_the_cell_out_as_a_character() {
    let tokens = [Token::Output, Token::Output];
    let jump_table = JumpTable::from(&tokens).unwrap();
    let mut state = State::from_parts(vec![65, 233], 0, 0).unwrap();

    let result = state.execute_current_instruction(&tokens, &jump_table);
    assert!(matches!(result, Ok(Action::Write('A'))));
    assert_eq!(state.instruction_pointer(), 1);
    assert_eq!(state.memory(), &[65, 233]);

    let mut state = State::from_parts(vec![65, 233], 1, 1).unwrap();
    let result = state.execute_current_instruction(&tokens, &jump_table);
    assert!(matches!(result, Ok(Action::Write('\u{e9}'))));
    assert_eq!(state.instruction_pointer(), 2);
}

#[test]
fn input_asks_for_a_byte_and_waits() {
    let tokens = [Token::Input];
    let jump_table = JumpTable::from(&tokens).unwrap();
    let mut state = State::new();

    let result = state.execute_current_instruction(&tokens, &jump_table);

    assert!(matches!(result, Ok(Action::Read)));
    assert_eq!(state.memory(), &[0]);
    assert_eq!(state.instruction_pointer(), 0);
}

#[test]
fn input_stores_the_byte_and_advances() {
    let tokens = [Token::Increment, Token::Input];
    let mut state = State::from_parts(vec![1, 2], 1, 1).unwrap();

    let result = state.execute_input(&tokens, Ok(200));

    assert!(result.is_ok());
    assert_eq!(state.memory(), &[1, 200]);
    assert_eq!(state.memory_pointer(), 1);
    assert_eq!(state.instruction_pointer(), 2);
}

#[test]
fn input_error_names_the_position_and_the_cause() {
    let tokens = [Token::Increment, Token::Input];
    let mut state = State::from_parts(vec![1, 2], 1, 1).unwrap();

    let result = state.execute_input(&tokens, Err(Error::from(ErrorKind::UnexpectedEof)));

    match result.unwrap_err() {
        ExecutionError::InputError(position, cause) => {
            assert_eq!(position, 1);
            assert_eq!(cause.kind(), ErrorKind::UnexpectedEof);
        }
        _ => assert!(false),
    };
    assert_eq!(state.memory(), &[1, 2]);
    assert_eq!(state.instruction_pointer(), 1);
}

#[test]
fn input_is_taken_only_by_an_input_instruction() {
    let tokens = [Token::Increment, Token::Input];
    let mut state = State::from_parts(vec![1, 2], 1, 0).unwrap();

    let result = state.execute_input(&tokens, Ok(200));
    assert!(result.is_ok());
    assert_eq!(state.memory(), &[1, 2]);
    assert_eq!(state.instruction_pointer(), 0);

    let mut state = State::from_parts(vec![1, 2], 1, 2).unwrap();
    let result = state.execute_input(&tokens, Ok(200));
    assert!(matches!(result, Err(ExecutionError::EndOfInstructions)));
    assert_eq!(state.memory(), &[1, 2]);
    assert_eq!(state.instruction_pointer(), 2);
}

#[test]
fn run_prints_a_letter() {
    let (state, output) = run("++++++++[>++++++++<-]>+.", &[]);

    assert_eq!(output, "A");
    assert_eq!(state.memory(), &[0, 65]);
    assert_eq!(state.memory_pointer(), 1);
}

#[test]
fn run_echoes_its_input_until_a_zero() {
    let (state, output) = run(",[.,]", b"hi!\0");

    assert_eq!(output, "hi!");
    assert_eq!(state.memory(), &[0]);
}

#[test]
fn run_moves_a_value_between_cells() {
    let (state, output) = run(",>,<[->+<]>.", &[40, 2]);

    assert_eq!(output, "*");
    assert_eq!(state.memory(), &[0, 42]);
}
