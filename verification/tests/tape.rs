use brain_fxxker::tape::Tape;

#[test]
fn new_tape_is_zeroed() {
    let t = Tape::new(8);
    assert_eq!(t.len(), 8);
    for i in 0..8 {
        assert_eq!(t.read(i), Some(0));
    }
}

#[test]
fn read_past_the_end_is_none() {
    let t = Tape::new(3);
    assert_eq!(t.read(3), None);
    assert_eq!(t.read(100), None);
}

#[test]
fn write_in_bounds_succeeds() {
    let mut t = Tape::new(3);
    assert_eq!(t.write(1, 42), Ok(()));
    assert_eq!(t.read(0), Some(0));
    assert_eq!(t.read(1), Some(42));
    assert_eq!(t.read(2), Some(0));
}

#[test]
fn write_out_of_bounds_fails_and_changes_nothing() {
    let mut t = Tape::new(3);
    assert_eq!(t.write(3, 42), Err(()));
    for i in 0..3 {
        assert_eq!(t.read(i), Some(0));
    }
}
