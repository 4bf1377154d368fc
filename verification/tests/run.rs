use brainrot::run;

const FUEL: u64 = 1_000_000;

#[test]
fn run_two_increments_writes_two() {
    let output = run(b"++.".to_vec(), "".as_bytes(), FUEL).unwrap().unwrap();
    assert_eq!(vec![2u8], output);
}

#[test]
fn run_increment_then_decrement_cancels() {
    let output = run(b"++--.".to_vec(), "".as_bytes(), FUEL).unwrap().unwrap();
    assert_eq!(vec![0u8], output);
}

#[test]
fn run_echoes_input_byte() {
    let output = run(b",.".to_vec(), "q".as_bytes(), FUEL).unwrap().unwrap();
    assert_eq!(vec![0x71u8], output);
}

#[test]
fn run_loop_on_zero_cell_skips_body() {
    let output = run(b"[+].".to_vec(), "".as_bytes(), FUEL).unwrap().unwrap();
    assert_eq!(vec![0u8], output);
}

#[test]
fn run_copy_loop_adds_cells() {
    let output = run(b"++>++<[->+<]>.".to_vec(), "".as_bytes(), FUEL)
        .unwrap()
        .unwrap();
    assert_eq!(vec![4u8], output);
}

#[test]
fn run_stray_close_is_rejected() {
    let result = run(b"+++]".to_vec(), "".as_bytes(), FUEL);
    assert_eq!("Unexpected ]", result.err().unwrap().description());
}

#[test]
fn run_unclosed_loop_is_rejected() {
    let result = run(b"+[++".to_vec(), "".as_bytes(), FUEL);
    assert_eq!(
        "Unexpected end of input while parsing loop",
        result.err().unwrap().description()
    );
}

#[test]
fn run_endless_loop_exhausts_budget() {
    let result = run(b"+[]".to_vec(), "".as_bytes(), 1000);
    assert_eq!(None, result.unwrap());
}

#[test]
fn run_empty_source_writes_nothing() {
    let output = run(b"".to_vec(), "".as_bytes(), FUEL).unwrap().unwrap();
    assert!(output.is_empty());
}

#[test]
fn run_comment_bytes_are_inert() {
    let output = run(b"+ one more + and out .".to_vec(), "".as_bytes(), FUEL)
        .unwrap()
        .unwrap();
    assert_eq!(vec![2u8], output);
}
