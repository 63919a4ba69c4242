use brain_fxxker::program::{Key, Program};

#[test]
fn empty_source_compiles_to_empty_program() {
    let p = Program::from(String::from("")).unwrap();
    assert_eq!(p.len(), 0);
}

#[test]
fn comments_are_ignored() {
    let p = Program::from(String::from("a b\nc?+x")).unwrap();
    assert_eq!(p.len(), 1);
    assert!(matches!(p.get(0), Some(Key::Add)));
}

#[test]
fn empty_loop_is_elided() {
    let p = Program::from(String::from("[]")).unwrap();
    assert_eq!(p.len(), 0);
}

#[test]
fn nested_empty_loops_are_elided() {
    let p = Program::from(String::from("[[]]")).unwrap();
    assert_eq!(p.len(), 0);
}

#[test]
fn adjacent_empty_loops_are_elided() {
    let p = Program::from(String::from("[][]")).unwrap();
    assert_eq!(p.len(), 0);
}

#[test]
fn empty_loop_between_keys_is_elided() {
    let p = Program::from(String::from("+[]-")).unwrap();
    assert_eq!(p.len(), 2);
    assert!(matches!(p.get(0), Some(Key::Add)));
    assert!(matches!(p.get(1), Some(Key::Sub)));
}

#[test]
fn simple_loop_targets_are_mutual() {
    // positions: 0 '+', 1 '[', 2 '-', 3 ']'
    let p = Program::from(String::from("+[-]")).unwrap();
    assert_eq!(p.len(), 4);
    assert!(matches!(p.get(0), Some(Key::Add)));
    assert!(matches!(p.get(1), Some(Key::If(4))));
    assert!(matches!(p.get(2), Some(Key::Sub)));
    assert!(matches!(p.get(3), Some(Key::Back(2))));
}

#[test]
fn nested_loop_targets_are_mutual() {
    // positions: 0 '[', 1 '+', 2 '[', 3 '-', 4 ']', 5 ']'
    let p = Program::from(String::from("[+[-]]")).unwrap();
    assert_eq!(p.len(), 6);
    assert!(matches!(p.get(0), Some(Key::If(6))));
    assert!(matches!(p.get(2), Some(Key::If(5))));
    assert!(matches!(p.get(4), Some(Key::Back(3))));
    assert!(matches!(p.get(5), Some(Key::Back(1))));
}

#[test]
fn sequential_loops_target_their_own_partners() {
    // positions: 0 '[', 1 '-', 2 ']', 3 '[', 4 '+', 5 ']'
    let p = Program::from(String::from("[-][+]")).unwrap();
    assert_eq!(p.len(), 6);
    assert!(matches!(p.get(0), Some(Key::If(3))));
    assert!(matches!(p.get(2), Some(Key::Back(1))));
    assert!(matches!(p.get(3), Some(Key::If(6))));
    assert!(matches!(p.get(5), Some(Key::Back(4))));
}

#[test]
fn unmatched_open_bracket_fails() {
    let r = Program::from(String::from("[+"));
    assert_eq!(r.err().unwrap(), "Brainfxxk source syntax error!");
}

#[test]
fn unmatched_close_bracket_fails() {
    let r = Program::from(String::from("+]"));
    assert_eq!(r.err().unwrap(), "Brainfxxk source syntax error!");
}

#[test]
fn lone_close_bracket_fails() {
    let r = Program::from(String::from("]"));
    assert_eq!(r.err().unwrap(), "Brainfxxk source syntax error!");
}

#[test]
fn close_before_open_fails() {
    let r = Program::from(String::from("][ "));
    assert_eq!(r.err().unwrap(), "Brainfxxk source syntax error!");
}

#[test]
fn extra_open_after_elision_fails() {
    let r = Program::from(String::from("[[]"));
    assert_eq!(r.err().unwrap(), "Brainfxxk source syntax error!");
}

#[test]
fn slice_string_renders_keys_with_spaces() {
    let p = Program::from(String::from("[-]")).unwrap();
    assert_eq!(p.slice_string(0, 3), "[ - ]");
}

#[test]
fn slice_string_pads_past_the_end() {
    let p = Program::from(String::from("+-")).unwrap();
    assert_eq!(p.slice_string(0, 3), "+ -  ");
    assert_eq!(p.slice_string(1, 2), "-  ");
}

#[test]
fn slice_string_empty_width() {
    let p = Program::from(String::from("+")).unwrap();
    assert_eq!(p.slice_string(0, 0), "");
}
