use brain_fxxker::context::{Context, Step};
use brain_fxxker::program::Program;
use brain_fxxker::Overflow;

fn engine(source: &str, tape_length: usize, overflow: Overflow, as_int: bool) -> Context {
    let p = Program::from(String::from(source)).unwrap();
    Context::new(p, tape_length, overflow, as_int)
}

fn run_to_end(ctx: &mut Context) {
    let mut fuel: u32 = 10_000;
    loop {
        match ctx.step(None) {
            Step::Next => {}
            Step::End => return,
            Step::Error(e) => panic!("unexpected error: {e}"),
        }
        fuel -= 1;
        assert!(fuel > 0, "program did not end");
    }
}

#[test]
fn decrement_wraps_to_255() {
    let mut ctx = engine("-", 4, Overflow::Block, false);
    assert!(matches!(ctx.step(None), Step::Next));
    assert_eq!(ctx.tape().read(0), Some(255));
}

#[test]
fn increment_wraps_255_to_0() {
    let mut ctx = engine("-+", 4, Overflow::Block, false);
    assert!(matches!(ctx.step(None), Step::Next));
    assert_eq!(ctx.tape().read(0), Some(255));
    assert!(matches!(ctx.step(None), Step::Next));
    assert_eq!(ctx.tape().read(0), Some(0));
}

#[test]
fn loop_policy_wraps_both_ways() {
    let mut ctx = engine("<>", 5, Overflow::Loop, false);
    assert!(matches!(ctx.step(None), Step::Next));
    assert_eq!(ctx.virtual_pointer(), 4);
    assert_eq!(ctx.pointer(), 4);
    assert!(matches!(ctx.step(None), Step::Next));
    assert_eq!(ctx.virtual_pointer(), 0);
    assert_eq!(ctx.pointer(), 0);
}

#[test]
fn block_policy_pins_at_zero() {
    let mut ctx = engine("<<<", 4, Overflow::Block, false);
    for _ in 0..3 {
        assert!(matches!(ctx.step(None), Step::Next));
        assert_eq!(ctx.virtual_pointer(), 0);
        assert_eq!(ctx.pointer(), 0);
    }
}

#[test]
fn block_policy_pins_at_right_edge() {
    let mut ctx = engine(">>>", 2, Overflow::Block, false);
    for _ in 0..3 {
        assert!(matches!(ctx.step(None), Step::Next));
    }
    assert_eq!(ctx.virtual_pointer(), 1);
    assert_eq!(ctx.pointer(), 1);
}

#[test]
fn overflow_policy_keeps_virtual_pointer() {
    let mut ctx = engine("<-", 3, Overflow::Overflow, false);
    assert!(matches!(ctx.step(None), Step::Next));
    assert_eq!(ctx.virtual_pointer(), -1);
    assert_eq!(ctx.pointer(), 0);
    // the write lands on the boundary cell
    assert!(matches!(ctx.step(None), Step::Next));
    assert_eq!(ctx.tape().read(0), Some(255));
}

#[test]
fn exit_policy_reports_error_and_does_not_continue() {
    let mut ctx = engine("<+", 4, Overflow::Exit, false);
    match ctx.step(None) {
        Step::Error(e) => assert_eq!(e, "Overflow exit."),
        _ => panic!("expected an error step"),
    }
    // the program counter did not advance and stepping again fails again
    assert_eq!(ctx.program_counter(), 0);
    assert!(matches!(ctx.step(None), Step::Error(_)));
    assert_eq!(ctx.tape().read(0), Some(0));
}

#[test]
fn add_loop_end_to_end() {
    // 2 + 5 computed through a transfer loop; the result is printed
    let mut ctx = engine("++>+++++[<+>-]<.", 4, Overflow::Block, false);
    run_to_end(&mut ctx);
    assert_eq!(ctx.tape().read(0), Some(7));
    assert_eq!(ctx.tape().read(1), Some(0));
    assert_eq!(ctx.output().as_str(), "\u{7}");
}

#[test]
fn input_echo_as_character() {
    let mut ctx = engine(",.", 4, Overflow::Block, false);
    assert!(ctx.needs_input());
    assert!(matches!(ctx.step(Some('A')), Step::Next));
    assert!(!ctx.needs_input());
    assert!(matches!(ctx.step(None), Step::Next));
    assert_eq!(ctx.tape().read(0), Some(65));
    assert_eq!(ctx.input().as_str(), "A");
    assert_eq!(ctx.output().as_str(), "A");
}

#[test]
fn input_echo_as_integer() {
    let mut ctx = engine(",.", 4, Overflow::Block, true);
    assert!(matches!(ctx.step(Some('A')), Step::Next));
    assert!(matches!(ctx.step(None), Step::Next));
    assert_eq!(ctx.output().as_str(), "65 ");
}

#[test]
fn missing_input_is_an_error() {
    let mut ctx = engine(",", 4, Overflow::Block, false);
    match ctx.step(None) {
        Step::Error(e) => assert_eq!(e, "No input event available."),
        _ => panic!("expected an error step"),
    }
}

#[test]
fn empty_loop_program_ends_immediately() {
    let p = Program::from(String::from("[]")).unwrap();
    assert_eq!(p.len(), 0);
    let mut ctx = Context::new(p, 4, Overflow::Block, false);
    assert!(matches!(ctx.step(None), Step::End));
    assert!(matches!(ctx.step(None), Step::End));
    assert_eq!(ctx.steps(), 0);
}

#[test]
fn zero_cell_skips_loop() {
    // the jump lands one past the matching bracket
    let mut ctx = engine("[+]", 4, Overflow::Block, false);
    assert!(matches!(ctx.step(None), Step::Next));
    assert_eq!(ctx.program_counter(), 3);
    assert!(matches!(ctx.step(None), Step::End));
    assert_eq!(ctx.tape().read(0), Some(0));
}

#[test]
fn nonzero_cell_enters_loop() {
    let mut ctx = engine("+[-]", 4, Overflow::Block, false);
    run_to_end(&mut ctx);
    assert_eq!(ctx.tape().read(0), Some(0));
    // '+', '[', '-', ']': the closing jump falls through on the zero cell
    assert_eq!(ctx.steps(), 4);
}

#[test]
fn step_counter_counts_dispatched_instructions() {
    let mut ctx = engine("+++", 4, Overflow::Block, false);
    run_to_end(&mut ctx);
    assert_eq!(ctx.steps(), 3);
}

#[test]
fn integer_output_has_no_leading_zeros() {
    let mut ctx = engine(".-.", 4, Overflow::Block, true);
    run_to_end(&mut ctx);
    assert_eq!(ctx.output().as_str(), "0 255 ");
}

#[test]
fn slice_tape_shows_triples_and_dashes() {
    let mut ctx = engine("+", 3, Overflow::Block, false);
    assert_eq!(ctx.slice_tape(0, 3), "000 000 000");
    assert!(matches!(ctx.step(None), Step::Next));
    assert_eq!(ctx.slice_tape(0, 3), "001 000 000");
    assert_eq!(ctx.slice_tape(-1, 3), "--- 001 000");
    assert_eq!(ctx.slice_tape(2, 2), "000 ---");
    assert_eq!(ctx.slice_tape(0, 0), "");
}

#[test]
fn slice_tape_shows_large_values() {
    let mut ctx = engine("-", 2, Overflow::Block, false);
    assert!(matches!(ctx.step(None), Step::Next));
    assert_eq!(ctx.slice_tape(0, 2), "255 000");
}

#[test]
fn needs_input_only_on_in_key() {
    let ctx = engine("+", 2, Overflow::Block, false);
    assert!(!ctx.needs_input());
    let ctx2 = engine(",", 2, Overflow::Block, false);
    assert!(ctx2.needs_input());
}
