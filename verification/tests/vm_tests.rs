use bft::InputStream;
use bft::Instruction;
use bft::OutputStream;
use bft::Program;
use bft::RawInstruction;
use bft::RunStatus;
use bft::StreamError;
use bft::VMError;
use bft::VirtualMachine;

fn resolved_program(source: &str) -> Program {
    let mut program = Program::from_source(source.to_owned(), "test.bf".to_owned());
    program.check_syntax().unwrap();
    program
}

fn run_to_end(
    program: &Program,
    input_bytes: Vec<u8>,
    size: Option<usize>,
    elastic: bool,
) -> Result<Vec<u8>, VMError> {
    let mut vm = VirtualMachine::<u8>::new(program, size, elastic);
    let mut input = InputStream::new(input_bytes);
    let mut output = OutputStream::empty();
    match vm.interpret(&mut input, &mut output, 1_000_000) {
        Ok(RunStatus::Halted) => Ok(output.into_inner()),
        Ok(RunStatus::Running) => panic!("step budget exhausted"),
        Err(e) => Err(e),
    }
}

#[test]
fn test_default_tape_sizes() {
    let p = resolved_program("+");
    let vm = VirtualMachine::<u8>::new(&p, None, false);
    assert_eq!(vm.memory_len(), 30000);
    let vm = VirtualMachine::<u8>::new(&p, Some(0), false);
    assert_eq!(vm.memory_len(), 30000);
    let vm = VirtualMachine::<u8>::new(&p, Some(5), false);
    assert_eq!(vm.memory_len(), 5);
    assert_eq!(vm.head_index(), 0);
}

#[test]
fn test_echo_one_byte() {
    let p = resolved_program(",.");
    assert_eq!(run_to_end(&p, vec![65], None, false), Ok(vec![65]));
}

#[test]
fn test_three_increments_output_three() {
    let p = resolved_program("+++.");
    assert_eq!(run_to_end(&p, vec![], Some(1), false), Ok(vec![3]));
    assert_eq!(run_to_end(&p, vec![9, 9, 9], Some(1), false), Ok(vec![3]));
}

#[test]
fn test_move_right_fixed_tape_fails_elastic_grows() {
    let p = resolved_program(">");
    assert_eq!(
        run_to_end(&p, vec![], Some(1), false),
        Err(VMError::HeadOutOfMemory(Instruction {
            row: 1,
            column: 1,
            instruction: RawInstruction::MoveRight
        }))
    );

    let mut vm = VirtualMachine::<u8>::new(&p, Some(1), true);
    let mut input = InputStream::new(vec![]);
    let mut output = OutputStream::empty();
    assert_eq!(
        vm.interpret(&mut input, &mut output, 10),
        Ok(RunStatus::Halted)
    );
    assert_eq!(vm.memory_len(), 2);
    assert_eq!(vm.head_index(), 1);
}

#[test]
fn test_move_left_at_zero_fails() {
    let p = resolved_program("<");
    assert_eq!(
        run_to_end(&p, vec![], None, false),
        Err(VMError::HeadOutOfMemory(Instruction {
            row: 1,
            column: 1,
            instruction: RawInstruction::MoveLeft
        }))
    );
}

#[test]
fn test_clear_loop_drains_cell_to_zero_and_terminates() {
    let p = resolved_program("+++[-].");
    assert_eq!(run_to_end(&p, vec![], Some(1), false), Ok(vec![0]));
}

#[test]
fn test_echo_round_trip_three_bytes() {
    let p = resolved_program(",.,.,.");
    assert_eq!(
        run_to_end(&p, vec![1, 2, 3], None, false),
        Ok(vec![1, 2, 3])
    );
}

#[test]
fn test_wraparound_during_run() {
    // 255 increments, then one more wraps the cell to zero
    let mut source = String::new();
    for _ in 0..256 {
        source.push('+');
    }
    source.push('.');
    let p = resolved_program(&source);
    assert_eq!(run_to_end(&p, vec![], Some(1), false), Ok(vec![0]));

    // one decrement from zero wraps to 255
    let p = resolved_program("-.");
    assert_eq!(run_to_end(&p, vec![], Some(1), false), Ok(vec![255]));
}

#[test]
fn test_input_exhausted_is_io_error() {
    let p = resolved_program(",");
    assert_eq!(
        run_to_end(&p, vec![], None, false),
        Err(VMError::IOError(
            StreamError::EndOfStream,
            Instruction {
                row: 1,
                column: 1,
                instruction: RawInstruction::Input
            }
        ))
    );
}

#[test]
fn test_unresolved_program_fails_with_broken_loop() {
    let p = Program::from_source("[]".to_owned(), "test.bf".to_owned());
    let mut vm = VirtualMachine::<u8>::new(&p, None, false);
    let mut input = InputStream::new(vec![]);
    let mut output = OutputStream::empty();
    assert_eq!(
        vm.interpret(&mut input, &mut output, 10),
        Err(VMError::BrokenLoop(Instruction {
            row: 1,
            column: 1,
            instruction: RawInstruction::BeginLoop
        }))
    );
}

#[test]
fn test_budget_exhaustion_reports_running_and_resumes() {
    let p = resolved_program("+++++.");
    let mut vm = VirtualMachine::<u8>::new(&p, Some(1), false);
    let mut input = InputStream::new(vec![]);
    let mut output = OutputStream::empty();
    assert_eq!(
        vm.interpret(&mut input, &mut output, 2),
        Ok(RunStatus::Running)
    );
    assert_eq!(
        vm.interpret(&mut input, &mut output, 1_000),
        Ok(RunStatus::Halted)
    );
    assert_eq!(output.into_inner(), vec![5]);
}

#[test]
fn test_multiply_loop_runs() {
    // 3 * 2: the loop adds two to the next cell on each of three turns
    let p = resolved_program("+++[>++<-]>.");
    assert_eq!(run_to_end(&p, vec![], Some(2), false), Ok(vec![6]));
}

#[test]
fn test_program_reused_across_machines() {
    let p = resolved_program(",.");
    assert_eq!(run_to_end(&p, vec![7], None, false), Ok(vec![7]));
    assert_eq!(run_to_end(&p, vec![8], Some(1), true), Ok(vec![8]));
}
