use brainfuck::ast::ExecError;
use brainfuck::eval::{execute, Machine};
use brainfuck::parser::parse;

const TAPE_SIZE: usize = 32000;
const FUEL: u64 = 100_000_000;

fn run(src: &[u8], input: &str, tape_len: usize) -> (Machine, Result<(), ExecError>) {
    let program = parse(src).unwrap();
    let mut machine = Machine::new(tape_len, input.chars().collect());
    let (_left, result) = execute(&program, &mut machine, FUEL);
    (machine, result)
}

#[test]
fn hello_world_integration_test() {
    let bf = b"++++++++               //Set Cell #0 to 8
[
    >++++               //Add 4 to Cell #1; this will always set Cell #1 to 4
    [                   //as the cell will be cleared by the loop
        >++             //Add 2 to Cell #2
        >+++            //Add 3 to Cell #3
        >+++            //Add 3 to Cell #4
        >+              //Add 1 to Cell #5
        <<<<-           //Decrement the loop counter in Cell #1
    ]                   //Loop till Cell #1 is zero; number of iterations is 4
    >+                  //Add 1 to Cell #2
    >+                  //Add 1 to Cell #3
    >-                  //Subtract 1 from Cell #4
    >>+                 //Add 1 to Cell #6
    [<]                 //Move back to the first zero cell you find; this will
                        //be Cell #1 which was cleared by the previous loop
    <-                  //Decrement the loop Counter in Cell #0
]

>>.                     //Cell #2 has value 72 which is 'H'
>---.                   //Subtract 3 from Cell #3 to get 101 which is 'e'
+++++++..+++.           //Likewise for 'llo' from Cell #3
>>.                     //Cell #5 is 32 for the space
<-.                     //Subtract 1 from Cell #4 for 87 to give a 'W'
<.                      //Cell #3 was set to 'o' from the end of 'Hello'
+++.------.--------.    //Cell #3 for 'rl' and 'd'
>>+.                    //Add 1 to Cell #5 gives us an exclamation point
>++.                    //And finally a newline from Cell #6
";
    let (machine, result) = run(bf, "", TAPE_SIZE);
    assert!(result.is_ok());
    assert_eq!(machine.output, b"Hello World!\n".to_vec());
}

#[test]
fn multiplication_integration_test() {
    // 7 * 3
    let (machine, result) = run(b"+++++++ [>+++<-]>", "", TAPE_SIZE);
    assert!(result.is_ok());
    assert_eq!(machine.pointer, 1);
    assert_eq!(machine.cells[machine.pointer], 21);
}

#[test]
fn read_input_test() {
    let (machine, result) = run(b",.>,.", "HI", TAPE_SIZE);
    assert!(result.is_ok());
    assert_eq!(machine.pointer, 1);
    assert_eq!(machine.cells[0], 72); // H
    assert_eq!(machine.cells[1], 73); // I
    assert_eq!(machine.output, b"HI".to_vec());
}

#[test]
fn increments_print_their_count_test() {
    // every value a cell can hold prints itself
    for n in 0..=255u32 {
        let mut src: Vec<u8> = vec![b'+'; n as usize];
        src.push(b'.');
        let (machine, result) = run(&src, "", 4);
        assert!(result.is_ok());
        assert_eq!(machine.output, vec![n as u8]);
    }
}

#[test]
fn increment_wraps_to_zero_test() {
    let mut src: Vec<u8> = vec![b'+'; 256];
    src.push(b'.');
    let (machine, result) = run(&src, "", 4);
    assert!(result.is_ok());
    assert_eq!(machine.output, vec![0u8]);
}

#[test]
fn decrement_wraps_to_255_test() {
    let (machine, result) = run(b"-.", "", 4);
    assert!(result.is_ok());
    assert_eq!(machine.output, vec![255u8]);
}

#[test]
fn loop_skipped_on_zero_test() {
    // zero iterations, empty output, no error
    let (machine, result) = run(b"[+]", "", 4);
    assert!(result.is_ok());
    assert_eq!(machine.output, Vec::<u8>::new());
    assert_eq!(machine.cells[0], 0);
}

#[test]
fn loop_resumes_after_nested_test() {
    // the nested loop leaves the outer counter cell non-zero, so the
    // outer loop runs a second pass
    let (machine, result) = run(b"++[>[-]+<-]", "", 4);
    assert!(result.is_ok());
    assert_eq!(machine.pointer, 0);
    assert_eq!(machine.cells[0], 0);
    assert_eq!(machine.cells[1], 1);
}

#[test]
fn tape_overflow_test() {
    // as many pointer moves as the tape has cells: the last one steps
    // off the edge and reports, instead of wrapping or crashing
    let len = 8usize;
    let src: Vec<u8> = vec![b'>'; len];
    let (machine, result) = run(&src, "", len);
    assert_eq!(result, Err(ExecError::TapeOverflow));
    assert_eq!(machine.pointer, len - 1);
}

#[test]
fn tape_underflow_test() {
    let (machine, result) = run(b"<", "", 8);
    assert_eq!(result, Err(ExecError::TapeUnderflow));
    assert_eq!(machine.pointer, 0);
}

#[test]
fn input_exhausted_test() {
    let (_machine, result) = run(b",", "", 4);
    assert_eq!(result, Err(ExecError::InputExhausted));
}

#[test]
fn invalid_input_character_test() {
    // a character above the single-byte range
    let (_machine, result) = run(b",", "\u{20ac}", 4);
    assert_eq!(result, Err(ExecError::InvalidInputCharacter { value: 0x20ac }));
}

#[test]
fn cancelled_on_budget_test() {
    // "+[]" never terminates; the step budget turns that into a
    // distinguishable outcome instead of a hang
    let program = parse(b"+[]").unwrap();
    let mut machine = Machine::new(4, Vec::new());
    let (left, result) = execute(&program, &mut machine, 1000);
    assert_eq!(result, Err(ExecError::Cancelled));
    assert_eq!(left, 0);
}

#[test]
fn output_kept_before_failure_test() {
    // what was emitted before the error stays emitted
    let (machine, result) = run(b"+.<", "", 4);
    assert_eq!(result, Err(ExecError::TapeUnderflow));
    assert_eq!(machine.output, vec![1u8]);
}

#[test]
fn comment_has_no_runtime_effect_test() {
    let (machine, result) = run(b"+ //+++\n+.", "", 4);
    assert!(result.is_ok());
    assert_eq!(machine.output, vec![2u8]);
}
