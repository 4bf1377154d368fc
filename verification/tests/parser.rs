use brainrot::parser::parse;
use brainrot::program::Command;
use brainrot::program::Program;

fn parse_code(input: Vec<u8>, output: Vec<Command>) {
    let result = parse(input);
    assert!(result.is_ok());

    let program = result.unwrap();
    assert_eq!(program, Program::new(output));
}

#[test]
fn parse_unknown_commands() {
    parse_code(
        b"+qwerty.".to_vec(),
        vec![Command::Increment, Command::Output],
    );
}

#[test]
fn parse_plus() {
    parse_code(b"++".to_vec(), vec![Command::Increment, Command::Increment]);
}

#[test]
fn parse_minus() {
    parse_code(b"--".to_vec(), vec![Command::Decrement, Command::Decrement]);
}

#[test]
fn parse_comma() {
    parse_code(b",,".to_vec(), vec![Command::Input, Command::Input]);
}

#[test]
fn parse_period() {
    parse_code(b"..".to_vec(), vec![Command::Output, Command::Output]);
}

#[test]
fn parse_loop() {
    let loop_commands = vec![
        Command::Decrement,
        Command::Right,
        Command::Increment,
        Command::Left,
    ];
    let loopp = Command::Loop(Program::new(loop_commands));

    parse_code(
        b"++>++<[->+<]>.".to_vec(),
        vec![
            Command::Increment,
            Command::Increment,
            Command::Right,
            Command::Increment,
            Command::Increment,
            Command::Left,
            loopp,
            Command::Right,
            Command::Output,
        ],
    );
}

#[test]
fn parse_nested_loop() {
    let loop_commands = vec![
        Command::Decrement,
        Command::Right,
        Command::Increment,
        Command::Left,
    ];
    let loopp = vec![Command::Loop(Program::new(loop_commands))];
    let loop2 = Command::Loop(Program::new(loopp));

    parse_code(
        b"++>++<[[->+<]]>.".to_vec(),
        vec![
            Command::Increment,
            Command::Increment,
            Command::Right,
            Command::Increment,
            Command::Increment,
            Command::Left,
            loop2,
            Command::Right,
            Command::Output,
        ],
    );
}

#[test]
fn parse_unexpected_end_loop() {
    let result = parse(b"+++]".to_vec());
    assert!(result.is_err());

    let error = result.err().unwrap();
    assert_eq!("Unexpected ]", error.description());
}

#[test]
fn parse_unexpected_end_of_input() {
    let result = parse(b"+[++".to_vec());
    assert!(result.is_err());

    let error = result.err().unwrap();
    assert_eq!(
        "Unexpected end of input while parsing loop",
        error.description()
    );
}

#[test]
fn parse_empty_source() {
    parse_code(b"".to_vec(), vec![]);
}

#[test]
fn parse_deeply_nested_loops() {
    let innermost = Program::new(vec![Command::Increment]);
    let level3 = Command::Loop(innermost);
    let level2 = Command::Loop(Program::new(vec![level3]));
    let level1 = Command::Loop(Program::new(vec![level2]));

    parse_code(b"[[[+]]]".to_vec(), vec![level1]);
}

#[test]
fn parse_stray_close_after_balanced_loop() {
    let result = parse(b"[]]".to_vec());
    assert!(result.is_err());

    let error = result.err().unwrap();
    assert_eq!("Unexpected ]", error.description());
}

#[test]
fn parse_unclosed_nested_loop() {
    let result = parse(b"[[]".to_vec());
    assert!(result.is_err());

    let error = result.err().unwrap();
    assert_eq!(
        "Unexpected end of input while parsing loop",
        error.description()
    );
}

#[test]
fn parse_comments_only() {
    parse_code(b"hello world!\n".to_vec(), vec![]);
}
