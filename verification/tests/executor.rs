use bfk_interpreter::grammar::{Expression, Operators, Token};
use bfk_interpreter::interpreter::{Interpreter, RuntimeFault, Signal, TAPE_CHUNK};
use bfk_interpreter::parser::Parser;

const FUEL: u64 = 1_000_000;

fn op(token: Token, count: u32) -> Expression {
    Expression::Operator(Box::new(Operators { _type_name: token, _count: count }))
}

fn parse(source: &str, optimise: bool) -> Vec<Expression> {
    Parser::new(source.to_string(), optimise).unwrap().generate_ast()
}

/// Drives a run with the given input until it halts, fails or has used its
/// fuel; returns what it wrote and the signal it ended on.
fn drive(interpreter: &mut Interpreter, input: &[Option<u8>]) -> (Vec<u8>, Signal) {
    let mut output = Vec::new();
    let mut fed = 0;
    loop {
        match interpreter.run_code(FUEL) {
            Signal::Output(byte) => output.push(byte),
            Signal::AwaitInput => {
                let event = if fed < input.len() { input[fed] } else { None };
                fed += 1;
                assert!(interpreter.read_char(event));
            }
            signal => return (output, signal),
        }
    }
}

fn output_of(source: &str, optimise: bool, input: &[Option<u8>]) -> Vec<u8> {
    let tree = parse(source, optimise);
    let mut interpreter = Interpreter::new(&tree);
    let (output, signal) = drive(&mut interpreter, input);
    assert_eq!(signal, Signal::Halted);
    output
}

#[test]
fn a_new_tape_is_one_chunk_of_zeros() {
    let tree = parse("", false);
    let interpreter = Interpreter::new(&tree);
    assert_eq!(TAPE_CHUNK, 10);
    assert_eq!(interpreter.memory_cells(), &vec![0u8; 10]);
    assert_eq!(interpreter.cell_ptr(), 0);
}

#[test]
fn an_empty_program_halts_at_once() {
    let tree = parse("", false);
    let mut interpreter = Interpreter::new(&tree);
    assert_eq!(interpreter.execute(), Signal::Halted);
    assert_eq!(interpreter.execute(), Signal::Halted);
    assert_eq!(interpreter.run_code(5), Signal::Halted);
}

#[test]
fn one_step_runs_one_node() {
    let tree = parse("+>", true);
    let mut interpreter = Interpreter::new(&tree);
    assert_eq!(interpreter.execute(), Signal::Continue);
    assert_eq!(interpreter.memory_cells()[0], 1);
    assert_eq!(interpreter.cell_ptr(), 0);
    assert_eq!(interpreter.execute(), Signal::Continue);
    assert_eq!(interpreter.cell_ptr(), 1);
    assert_eq!(interpreter.execute(), Signal::Halted);
}

#[test]
fn increment_wraps_from_255_to_0() {
    let tree = vec![op(Token::Add, 255)];
    let mut interpreter = Interpreter::new(&tree);
    assert_eq!(interpreter.run_code(FUEL), Signal::Halted);
    assert_eq!(interpreter.memory_cells()[0], 255);

    let tree = vec![op(Token::Add, 255), op(Token::Add, 1)];
    let mut interpreter = Interpreter::new(&tree);
    assert_eq!(interpreter.run_code(FUEL), Signal::Halted);
    assert_eq!(interpreter.memory_cells()[0], 0);
}

#[test]
fn decrement_wraps_from_0_to_255() {
    let tree = parse("-", false);
    let mut interpreter = Interpreter::new(&tree);
    assert_eq!(interpreter.run_code(FUEL), Signal::Halted);
    assert_eq!(interpreter.memory_cells()[0], 255);

    let tree = parse("-+", false);
    let mut interpreter = Interpreter::new(&tree);
    assert_eq!(interpreter.run_code(FUEL), Signal::Halted);
    assert_eq!(interpreter.memory_cells()[0], 0);
}

#[test]
fn counts_apply_modulo_256() {
    for (token, count, expected) in [
        (Token::Add, 0, 7u8),
        (Token::Add, 256, 7),
        (Token::Add, 257, 8),
        (Token::Add, 249, 0),
        (Token::Add, u32::MAX, 6),
        (Token::Sub, 0, 7),
        (Token::Sub, 7, 0),
        (Token::Sub, 8, 255),
        (Token::Sub, 256, 7),
        (Token::Sub, 257, 6),
        (Token::Sub, u32::MAX, 8),
    ] {
        let tree = vec![op(Token::Add, 7), op(token, count)];
        let mut interpreter = Interpreter::new(&tree);
        assert_eq!(interpreter.run_code(FUEL), Signal::Halted);
        assert_eq!(interpreter.memory_cells()[0], expected);
    }
}

#[test]
fn moving_to_cell_10_grows_the_tape() {
    let tree = parse("+>++>+++>>>>>>>>", false);
    let mut interpreter = Interpreter::new(&tree);
    assert_eq!(interpreter.run_code(FUEL), Signal::Halted);
    assert_eq!(interpreter.cell_ptr(), 10);
    assert!(interpreter.memory_cells().len() >= 11);
    assert_eq!(interpreter.memory_cells().len(), 20);
    assert_eq!(&interpreter.memory_cells()[..3], &[1, 2, 3]);
    assert!(interpreter.memory_cells()[3..].iter().all(|cell| *cell == 0));
}

#[test]
fn the_tape_does_not_grow_before_its_end() {
    let tree = parse(">>>>>>>>>+", false);
    let mut interpreter = Interpreter::new(&tree);
    assert_eq!(interpreter.run_code(FUEL), Signal::Halted);
    assert_eq!(interpreter.cell_ptr(), 9);
    assert_eq!(interpreter.memory_cells().len(), 10);
    assert_eq!(interpreter.memory_cells()[9], 1);
}

#[test]
fn a_long_move_grows_the_tape_by_whole_chunks() {
    let tree = vec![op(Token::Add, 5), op(Token::MoveForward, 35), op(Token::Add, 2)];
    let mut interpreter = Interpreter::new(&tree);
    assert_eq!(interpreter.run_code(FUEL), Signal::Halted);
    assert_eq!(interpreter.cell_ptr(), 35);
    assert_eq!(interpreter.memory_cells().len(), 40);
    assert_eq!(interpreter.memory_cells()[0], 5);
    assert_eq!(interpreter.memory_cells()[35], 2);

    let tree = vec![op(Token::MoveForward, 40), op(Token::MoveBack, 38)];
    let mut interpreter = Interpreter::new(&tree);
    assert_eq!(interpreter.run_code(FUEL), Signal::Halted);
    assert_eq!(interpreter.cell_ptr(), 2);
    assert_eq!(interpreter.memory_cells().len(), 50);
}

#[test]
fn addition_loop_writes_7() {
    assert_eq!(output_of("++>+++++[<+>-]<.", false, &[]), vec![7]);
    assert_eq!(output_of("++>+++++[<+>-]<.", true, &[]), vec![7]);
}

#[test]
fn nested_loops_multiply() {
    assert_eq!(output_of("++[>++[>++<-]<-]>>.", false, &[]), vec![8]);
    assert_eq!(output_of("++++++++[>+++++++++<-]>.", true, &[]), vec![72]);
}

#[test]
fn a_loop_on_a_zero_cell_is_not_entered() {
    let tree = parse("[+]", false);
    let mut interpreter = Interpreter::new(&tree);
    assert_eq!(interpreter.run_code(FUEL), Signal::Halted);
    assert_eq!(interpreter.memory_cells()[0], 0);
    assert_eq!(output_of("[.]+[-].", false, &[]), vec![0]);
}

#[test]
fn an_empty_loop_on_a_nonzero_cell_never_ends() {
    let tree = parse("+[]", false);
    let mut interpreter = Interpreter::new(&tree);
    assert_eq!(interpreter.run_code(FUEL), Signal::Continue);
    assert_eq!(interpreter.run_code(FUEL), Signal::Continue);
    assert_eq!(interpreter.memory_cells()[0], 1);
    assert_eq!(interpreter.cell_ptr(), 0);
}

#[test]
fn fuel_bounds_the_steps_of_a_run() {
    let tree = parse("+++", false);
    let mut interpreter = Interpreter::new(&tree);
    assert_eq!(interpreter.run_code(0), Signal::Continue);
    assert_eq!(interpreter.memory_cells()[0], 0);
    assert_eq!(interpreter.run_code(2), Signal::Continue);
    assert_eq!(interpreter.memory_cells()[0], 2);
    assert_eq!(interpreter.run_code(1), Signal::Continue);
    assert_eq!(interpreter.memory_cells()[0], 3);
    assert_eq!(interpreter.run_code(1), Signal::Halted);
}

#[test]
fn input_goes_into_the_current_cell() {
    assert_eq!(output_of(",.", false, &[Some(65)]), vec![65]);
    assert_eq!(output_of(",>,<.>.", false, &[Some(1), Some(2)]), vec![1, 2]);
    assert_eq!(output_of(",[.,]", false, &[Some(104), Some(105), Some(0)]), vec![104, 105]);
}

#[test]
fn failed_input_leaves_the_cell() {
    assert_eq!(output_of("+++,.", false, &[None]), vec![3]);
    assert_eq!(output_of(",.,.", false, &[Some(9), None]), vec![9, 9]);
}

#[test]
fn the_program_waits_until_input_is_given() {
    let tree = parse("+,+", false);
    let mut interpreter = Interpreter::new(&tree);
    assert!(!interpreter.read_char(Some(50)));
    assert_eq!(interpreter.memory_cells()[0], 0);
    assert_eq!(interpreter.run_code(FUEL), Signal::AwaitInput);
    assert_eq!(interpreter.run_code(FUEL), Signal::AwaitInput);
    assert_eq!(interpreter.execute(), Signal::AwaitInput);
    assert_eq!(interpreter.memory_cells()[0], 1);
    assert!(interpreter.read_char(Some(50)));
    assert_eq!(interpreter.memory_cells()[0], 50);
    assert!(!interpreter.read_char(Some(60)));
    assert_eq!(interpreter.run_code(FUEL), Signal::Halted);
    assert_eq!(interpreter.memory_cells()[0], 51);
    assert!(!interpreter.read_char(Some(60)));
}

#[test]
fn runs_of_output_and_input_take_one_unit_a_step() {
    let tree = vec![op(Token::Add, 4), op(Token::StdOut, 3), op(Token::StdIn, 2), op(Token::StdOut, 1)];
    let mut interpreter = Interpreter::new(&tree);
    assert_eq!(interpreter.execute(), Signal::Continue);
    assert_eq!(interpreter.execute(), Signal::Output(4));
    assert_eq!(interpreter.execute(), Signal::Output(4));
    assert_eq!(interpreter.execute(), Signal::Output(4));
    assert_eq!(interpreter.execute(), Signal::AwaitInput);
    assert!(interpreter.read_char(Some(8)));
    assert_eq!(interpreter.execute(), Signal::AwaitInput);
    assert!(interpreter.read_char(None));
    assert_eq!(interpreter.execute(), Signal::Output(8));
    assert_eq!(interpreter.execute(), Signal::Halted);

    assert_eq!(output_of("+..,,.", true, &[Some(5), Some(6)]), vec![1, 1, 6]);
}

#[test]
fn empty_runs_do_nothing() {
    let tree = vec![
        op(Token::StdOut, 0),
        op(Token::StdIn, 0),
        op(Token::MoveForward, 0),
        op(Token::MoveBack, 0),
        op(Token::Add, 1),
        op(Token::StdOut, 1),
    ];
    let mut interpreter = Interpreter::new(&tree);
    assert_eq!(drive(&mut interpreter, &[]), (vec![1], Signal::Halted));
    assert_eq!(interpreter.cell_ptr(), 0);
    assert_eq!(interpreter.memory_cells().len(), 10);
}

#[test]
fn a_move_below_the_first_cell_is_a_fault() {
    let tree = parse(">+[<+]", false);
    let mut interpreter = Interpreter::new(&tree);
    assert_eq!(
        interpreter.run_code(FUEL),
        Signal::Fault(RuntimeFault::PointerUnderflow)
    );
    assert_eq!(interpreter.cell_ptr(), 0);
    assert_eq!(
        interpreter.run_code(FUEL),
        Signal::Fault(RuntimeFault::PointerUnderflow)
    );

    let tree = vec![op(Token::MoveForward, 3), op(Token::MoveBack, 4)];
    let mut interpreter = Interpreter::new(&tree);
    assert_eq!(
        interpreter.run_code(FUEL),
        Signal::Fault(RuntimeFault::PointerUnderflow)
    );
    assert_eq!(interpreter.cell_ptr(), 3);
}

#[test]
fn a_run_of_a_bracket_is_a_fault() {
    for token in [Token::LoopStart, Token::LoopEnd] {
        let tree = vec![op(Token::Add, 1), op(token, 1), op(Token::Add, 1)];
        let mut interpreter = Interpreter::new(&tree);
        assert_eq!(
            interpreter.run_code(FUEL),
            Signal::Fault(RuntimeFault::InvariantViolation)
        );
        assert_eq!(interpreter.memory_cells()[0], 1);
        assert!(!interpreter.read_char(Some(1)));
    }
}

#[test]
fn collapsed_programs_behave_as_plain_ones() {
    for source in [
        "++>+++++[<+>-]<.",
        "++++[>++++[>++++<-]<-]>>.+.--.",
        ",..,[->+<]>.",
        "+++[>+++[>+++[>+<-]<-]<-]>>>.",
    ] {
        let input = [Some(3), Some(200)];
        assert_eq!(output_of(source, true, &input), output_of(source, false, &input));
    }
}

#[test]
fn a_run_over_input_gathers_what_is_written() {
    let tree = parse("++>+++++[<+>-]<.", false);
    let mut interpreter = Interpreter::new(&tree);
    assert_eq!(
        interpreter.run_with_input(&[], FUEL),
        (vec![7], 0, Signal::Halted)
    );
    assert_eq!(interpreter.cell_ptr(), 0);
    assert_eq!(interpreter.memory_cells()[0], 7);
    assert_eq!(interpreter.memory_cells()[1], 0);
}

#[test]
fn a_run_over_input_takes_the_inputs_in_order() {
    let tree = parse(",>,<.>.,.", true);
    let mut interpreter = Interpreter::new(&tree);
    assert_eq!(
        interpreter.run_with_input(&[Some(1), Some(2), None, Some(4)], FUEL),
        (vec![1, 2, 2], 3, Signal::Halted)
    );
}

#[test]
fn a_run_over_input_stops_where_input_runs_out() {
    let tree = parse("+.,.,.", false);
    let mut interpreter = Interpreter::new(&tree);
    assert_eq!(
        interpreter.run_with_input(&[Some(9)], FUEL),
        (vec![1, 9], 1, Signal::AwaitInput)
    );
    assert_eq!(
        interpreter.run_with_input(&[], FUEL),
        (vec![], 0, Signal::AwaitInput)
    );
    assert_eq!(
        interpreter.run_with_input(&[Some(3), Some(5)], FUEL),
        (vec![3], 1, Signal::Halted)
    );
}

#[test]
fn a_run_over_input_stops_when_fuel_is_used_up() {
    let tree = parse("+.[.]", false);
    let mut interpreter = Interpreter::new(&tree);
    assert_eq!(
        interpreter.run_with_input(&[], 0),
        (vec![], 0, Signal::Continue)
    );
    // One step for `+`, one for `.`, then two for each turn of the loop.
    assert_eq!(
        interpreter.run_with_input(&[], 8),
        (vec![1, 1, 1, 1], 0, Signal::Continue)
    );
    let tree = parse("+[]", false);
    let mut interpreter = Interpreter::new(&tree);
    assert_eq!(
        interpreter.run_with_input(&[Some(1)], FUEL),
        (vec![], 0, Signal::Continue)
    );
}

#[test]
fn a_run_over_input_stops_at_a_fault() {
    let tree = parse("+.>+[<.+]", false);
    let mut interpreter = Interpreter::new(&tree);
    assert_eq!(
        interpreter.run_with_input(&[], FUEL),
        (vec![1, 1], 0, Signal::Fault(RuntimeFault::PointerUnderflow))
    );
}

#[test]
fn a_greeting_is_written_in_full() {
    let source = "++++++++[>++++[>++>+++>+++>+<<<<-]>+>+>->>+[<]<-]>>.>---.+++++++..+++.>>.<-.<.+++.------.--------.>>+.>++.";
    for optimise in [false, true] {
        let tree = parse(source, optimise);
        let mut interpreter = Interpreter::new(&tree);
        let (output, taken, signal) = interpreter.run_with_input(&[], FUEL);
        assert_eq!(output, b"Hello World!\n".to_vec());
        assert_eq!(taken, 0);
        assert_eq!(signal, Signal::Halted);
    }
}
