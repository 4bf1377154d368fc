use brainrot::program::Command;
use brainrot::program::Program;

const FUEL: u64 = 1_000_000;

#[test]
fn test_increment() {
    let commands = vec![Command::Increment, Command::Increment, Command::Output];
    let program = Program::new(commands);

    let output = program.run("".as_bytes(), FUEL).unwrap();

    assert_eq!(1, output.len());
    assert_eq!(2, output[0]);
}

#[test]
fn test_decrement() {
    let commands = vec![Command::Increment, Command::Decrement, Command::Output];
    let program = Program::new(commands);

    let output = program.run("".as_bytes(), FUEL).unwrap();

    assert_eq!(1, output.len());
    assert_eq!(0, output[0]);
}

#[test]
fn test_input() {
    let commands = vec![Command::Input, Command::Output];
    let program = Program::new(commands);

    let output = program.run("q".as_bytes(), FUEL).unwrap();

    assert_eq!(1, output.len());
    assert_eq!('q', output[0] as char);
}

#[test]
fn test_left_and_right() {
    let commands = vec![
        Command::Right,
        Command::Increment,
        Command::Right,
        Command::Increment,
        Command::Output,
        Command::Left,
        Command::Increment,
        Command::Output,
        Command::Left,
        Command::Left,
        Command::Output,
    ];
    let program = Program::new(commands);

    let output = program.run("q".as_bytes(), FUEL).unwrap();

    assert_eq!(3, output.len());
    assert_eq!(1, output[0]);
    assert_eq!(2, output[1]);
    assert_eq!(0, output[2]);
}

#[test]
fn test_skip_loop() {
    let loop_commands = vec![Command::Increment];
    let loopp = Command::Loop(Program::new(loop_commands));

    let commands = vec![loopp, Command::Output];
    let program = Program::new(commands);

    let output = program.run("".as_bytes(), FUEL).unwrap();

    assert_eq!(1, output.len());
    assert_eq!(0, output[0]);
}

#[test]
fn test_loop() {
    let loop_commands = vec![
        Command::Decrement,
        Command::Right,
        Command::Increment,
        Command::Left,
    ];
    let loopp = Command::Loop(Program::new(loop_commands));

    // ++>++<[->+<]>.
    let commands = vec![
        Command::Increment,
        Command::Increment,
        Command::Right,
        Command::Increment,
        Command::Increment,
        Command::Left,
        loopp,
        Command::Right,
        Command::Output,
    ];
    let program = Program::new(commands);

    let output = program.run("".as_bytes(), FUEL).unwrap();

    assert_eq!(1, output.len());
    assert_eq!(4, output[0]);
}

#[test]
fn test_decrement_wraps_to_255() {
    let commands = vec![Command::Decrement, Command::Output];
    let program = Program::new(commands);

    let output = program.run("".as_bytes(), FUEL).unwrap();

    assert_eq!(1, output.len());
    assert_eq!(255, output[0]);
}

#[test]
fn test_increment_wraps_to_zero() {
    let mut commands = Vec::new();
    for _ in 0..256 {
        commands.push(Command::Increment);
    }
    commands.push(Command::Output);
    let program = Program::new(commands);

    let output = program.run("".as_bytes(), FUEL).unwrap();

    assert_eq!(1, output.len());
    assert_eq!(0, output[0]);
}

#[test]
fn test_left_at_origin_stays() {
    let commands = vec![Command::Left, Command::Left, Command::Output];
    let program = Program::new(commands);

    let output = program.run("".as_bytes(), FUEL).unwrap();

    assert_eq!(1, output.len());
    assert_eq!(0, output[0]);
}

#[test]
fn test_right_grows_with_zero_cells() {
    let commands = vec![
        Command::Right,
        Command::Right,
        Command::Right,
        Command::Output,
    ];
    let program = Program::new(commands);

    let output = program.run("".as_bytes(), FUEL).unwrap();

    assert_eq!(1, output.len());
    assert_eq!(0, output[0]);
}

#[test]
fn test_input_exhausted_sets_cell_to_zero() {
    let commands = vec![
        Command::Increment,
        Command::Input,
        Command::Output,
    ];
    let program = Program::new(commands);

    let output = program.run("".as_bytes(), FUEL).unwrap();

    assert_eq!(1, output.len());
    assert_eq!(0, output[0]);
}

#[test]
fn test_input_consumed_in_order() {
    let commands = vec![
        Command::Input,
        Command::Output,
        Command::Input,
        Command::Output,
    ];
    let program = Program::new(commands);

    let output = program.run("ab".as_bytes(), FUEL).unwrap();

    assert_eq!(2, output.len());
    assert_eq!(b'a', output[0]);
    assert_eq!(b'b', output[1]);
}

#[test]
fn test_fuel_exhausted_returns_none() {
    // An endless loop: the cell under the cursor never reaches zero.
    let body = Program::new(vec![]);
    let commands = vec![Command::Increment, Command::Loop(body)];
    let program = Program::new(commands);

    assert!(program.run("".as_bytes(), 10).is_none());
}
