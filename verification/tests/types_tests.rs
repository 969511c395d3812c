use bft::Instruction;
use bft::Program;
use bft::ProgramError;
use bft::RawInstruction;

#[test]
fn test_from_char() {
    assert!(RawInstruction::from_char('o').is_none());
    assert_eq!(
        RawInstruction::from_char('<').unwrap(),
        RawInstruction::MoveLeft
    );
    assert_eq!(
        RawInstruction::from_char('>').unwrap(),
        RawInstruction::MoveRight
    );
    assert_eq!(
        RawInstruction::from_char('+').unwrap(),
        RawInstruction::Increment
    );
    assert_eq!(
        RawInstruction::from_char('-').unwrap(),
        RawInstruction::Decrement
    );
    assert_eq!(
        RawInstruction::from_char('[').unwrap(),
        RawInstruction::BeginLoop
    );
    assert_eq!(
        RawInstruction::from_char(']').unwrap(),
        RawInstruction::EndLoop
    );
    assert_eq!(
        RawInstruction::from_char(',').unwrap(),
        RawInstruction::Input
    );
    assert_eq!(
        RawInstruction::from_char('.').unwrap(),
        RawInstruction::Output
    );
}

#[test]
fn test_extract_instructions() {
    let a_program = "<   >\n[foo]";
    let instructions = Program::extract_instrunctions(a_program.to_owned());
    assert_eq!(
        instructions[0],
        Instruction {
            row: 1,
            column: 1,
            instruction: RawInstruction::MoveLeft
        }
    );
    assert_eq!(
        instructions[1],
        Instruction {
            row: 1,
            column: 5,
            instruction: RawInstruction::MoveRight
        }
    );
    assert_eq!(
        instructions[2],
        Instruction {
            row: 2,
            column: 1,
            instruction: RawInstruction::BeginLoop
        }
    );
    assert_eq!(
        instructions[3],
        Instruction {
            row: 2,
            column: 5,
            instruction: RawInstruction::EndLoop
        }
    );
}

#[test]
fn test_comment_characters_yield_no_instructions() {
    let instructions = Program::extract_instrunctions("a b\nc def?!\n".to_owned());
    assert!(instructions.is_empty());
    let instructions = Program::extract_instrunctions("a+b\n c-".to_owned());
    assert_eq!(instructions.len(), 2);
    assert_eq!(
        instructions[0],
        Instruction {
            row: 1,
            column: 2,
            instruction: RawInstruction::Increment
        }
    );
    assert_eq!(
        instructions[1],
        Instruction {
            row: 2,
            column: 3,
            instruction: RawInstruction::Decrement
        }
    );
}

#[test]
fn test_unclosed_loop_reported_at_row_one_column_one() {
    let mut p = Program::from_source("[".to_owned(), "test.bf".to_owned());
    let err = p.check_syntax().unwrap_err();
    assert_eq!(
        err,
        ProgramError::UnclosedLoop(Instruction {
            row: 1,
            column: 1,
            instruction: RawInstruction::BeginLoop
        })
    );
}

#[test]
fn test_unopened_loop_reported_at_row_one_column_one() {
    let mut p = Program::from_source("]".to_owned(), "test.bf".to_owned());
    let err = p.check_syntax().unwrap_err();
    assert_eq!(
        err,
        ProgramError::UnopenedLoop(Instruction {
            row: 1,
            column: 1,
            instruction: RawInstruction::EndLoop
        })
    );
}

#[test]
fn test_unclosed_loop_reports_innermost_open_bracket() {
    let mut p = Program::from_source("[[]".to_owned(), "test.bf".to_owned());
    let err = p.check_syntax().unwrap_err();
    assert_eq!(
        err,
        ProgramError::UnclosedLoop(Instruction {
            row: 1,
            column: 1,
            instruction: RawInstruction::BeginLoop
        })
    );
    let mut p = Program::from_source("[[".to_owned(), "test.bf".to_owned());
    let err = p.check_syntax().unwrap_err();
    assert_eq!(
        err,
        ProgramError::UnclosedLoop(Instruction {
            row: 1,
            column: 2,
            instruction: RawInstruction::BeginLoop
        })
    );
}

#[test]
fn test_matching_brackets_resolved_as_involution() {
    let mut p = Program::from_source("[[]]".to_owned(), "test.bf".to_owned());
    assert!(p.check_syntax().is_ok());
    assert_eq!(p.get_matching_bracket(0), Some(3));
    assert_eq!(p.get_matching_bracket(1), Some(2));
    assert_eq!(p.get_matching_bracket(2), Some(1));
    assert_eq!(p.get_matching_bracket(3), Some(0));
    for i in 0..4 {
        let j = p.get_matching_bracket(i).unwrap();
        assert_eq!(p.get_matching_bracket(j), Some(i));
    }
}

#[test]
fn test_matching_bracket_none_before_resolution_or_out_of_table() {
    let p = Program::from_source("[]".to_owned(), "test.bf".to_owned());
    assert_eq!(p.get_matching_bracket(0), None);
    let mut p = Program::from_source("[]+".to_owned(), "test.bf".to_owned());
    assert!(p.check_syntax().is_ok());
    assert_eq!(p.get_matching_bracket(2), None);
    assert_eq!(p.get_matching_bracket(99), None);
}

#[test]
fn test_empty_program_is_valid() {
    let mut p = Program::from_source(String::new(), "empty.bf".to_owned());
    assert!(p.instructions().is_empty());
    assert!(p.check_syntax().is_ok());
}

#[test]
fn test_error_messages_carry_positions() {
    let mut p = Program::from_source("\n  [".to_owned(), "test.bf".to_owned());
    let err = p.check_syntax().unwrap_err();
    assert_eq!(err.message(), "Found unclosed bracket at row 2 column 3");
    let mut p = Program::from_source("+]".to_owned(), "test.bf".to_owned());
    let err = p.check_syntax().unwrap_err();
    assert_eq!(
        err.message(),
        "Couldn't find matching opening bracket for bracket at row 1, column 2"
    );
}

#[test]
fn test_filename_kept_for_diagnostics() {
    let p = Program::from_source("+".to_owned(), "hello.bf".to_owned());
    assert_eq!(p.filename().as_str(), "hello.bf");
}
