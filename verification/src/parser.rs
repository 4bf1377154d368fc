//! The parser: a single forward pass over the source bytes, recursive on
//! loop nesting. The six plain command characters map one to one onto
//! commands, `[` opens a nested program, `]` closes it, and every other byte
//! is an inert comment. The spec parser `parse_from` is the reference the
//! executable parser is proved against.

use vstd::prelude::*;

use crate::BFError;
use crate::program::Command;
use crate::program::Program;
use crate::program::cmd_view;
use crate::program::cmds_view;
use crate::program::lemma_cmds_view_push;
use crate::semantics::Cmd;

verus! {

/// The two structural failures: a `]` with no open `[` enclosing it, and an
/// end of input while a loop body is still open.
pub enum ParseError {
    UnexpectedClose,
    UnexpectedEnd,
}

/// The message each failure carries.
pub open spec fn error_message(k: ParseError) -> Seq<char> {
    match k {
        ParseError::UnexpectedClose => "Unexpected ]"@,
        ParseError::UnexpectedEnd => "Unexpected end of input while parsing loop"@,
    }
}

/// The byte `[`, which opens a loop body.
pub const OPEN_BYTE: u8 = 91;

/// The byte `]`, which closes a loop body.
pub const CLOSE_BYTE: u8 = 93;

/// The byte `+`.
pub const INCREMENT_BYTE: u8 = 43;

/// The byte `-`.
pub const DECREMENT_BYTE: u8 = 45;

/// The byte `,`.
pub const INPUT_BYTE: u8 = 44;

/// The byte `.`.
pub const OUTPUT_BYTE: u8 = 46;

/// The byte `<`.
pub const LEFT_BYTE: u8 = 60;

/// The byte `>`.
pub const RIGHT_BYTE: u8 = 62;

/// The command a plain (non-delimiter) byte stands for, if any.
pub open spec fn flat_cmd(b: u8) -> Option<Cmd> {
    if b == INCREMENT_BYTE {
        Some(Cmd::Increment)
    } else if b == DECREMENT_BYTE {
        Some(Cmd::Decrement)
    } else if b == INPUT_BYTE {
        Some(Cmd::Input)
    } else if b == OUTPUT_BYTE {
        Some(Cmd::Output)
    } else if b == LEFT_BYTE {
        Some(Cmd::Left)
    } else if b == RIGHT_BYTE {
        Some(Cmd::Right)
    } else {
        None
    }
}

/// Parses from position `i` until the end of the input (`in_loop` false) or
/// until the `]` that closes the current loop body (`in_loop` true). On
/// success it yields the commands read and the position just past what was
/// consumed. The position bound on the nested call always holds
/// (`lemma_parse_from_bounds`); it is spelled out so that the recursion
/// visibly consumes input.
pub open spec fn parse_from(code: Seq<u8>, i: int, in_loop: bool) -> Result<(Seq<Cmd>, int), ParseError>
    decreases code.len() - i,
{
    if i < 0 || i >= code.len() {
        if in_loop {
            Err(ParseError::UnexpectedEnd)
        } else {
            Ok((Seq::empty(), code.len() as int))
        }
    } else if flat_cmd(code[i]) is Some {
        with_prefix(seq![flat_cmd(code[i])->Some_0], parse_from(code, i + 1, in_loop))
    } else if code[i] == CLOSE_BYTE {
        if in_loop {
            Ok((Seq::empty(), i + 1))
        } else {
            Err(ParseError::UnexpectedClose)
        }
    } else if code[i] == OPEN_BYTE {
        match parse_from(code, i + 1, true) {
            Ok((body, j)) => if i + 1 < j <= code.len() {
                with_prefix(seq![Cmd::Loop(body)], parse_from(code, j, in_loop))
            } else {
                Err(ParseError::UnexpectedEnd)
            },
            Err(k) => Err(k),
        }
    } else {
        parse_from(code, i + 1, in_loop)
    }
}

/// Prepends commands to the commands of a successful parse.
pub open spec fn with_prefix(cs: Seq<Cmd>, r: Result<(Seq<Cmd>, int), ParseError>) -> Result<(Seq<Cmd>, int), ParseError> {
    match r {
        Ok((cs2, j)) => Ok((cs + cs2, j)),
        Err(k) => Err(k),
    }
}

/// What parsing a whole source yields: the top-level command sequence, or
/// one of the two structural failures.
pub open spec fn spec_parse(code: Seq<u8>) -> Result<Seq<Cmd>, ParseError> {
    match parse_from(code, 0, false) {
        Ok((cs, _)) => Ok(cs),
        Err(k) => Err(k),
    }
}

/// A successful parse consumes at least one byte inside a loop body and
/// consumes everything at the top level.
pub proof fn lemma_parse_from_bounds(code: Seq<u8>, i: int, in_loop: bool)
    requires
        0 <= i,
    ensures
        (parse_from(code, i, in_loop) matches Ok((cs, j)) ==> j <= code.len()),
        in_loop ==> (parse_from(code, i, in_loop) matches Ok((cs, j)) ==> i < j),
        !in_loop ==> (parse_from(code, i, in_loop) matches Ok((cs, j)) ==> j == code.len()),
    decreases code.len() - i,
{
    if i >= code.len() {
    } else if flat_cmd(code[i]) is Some {
        lemma_parse_from_bounds(code, i + 1, in_loop);
    } else if code[i] == CLOSE_BYTE {
    } else if code[i] == OPEN_BYTE {
        lemma_parse_from_bounds(code, i + 1, true);
        match parse_from(code, i + 1, true) {
            Ok((body, j)) => {
                lemma_parse_from_bounds(code, j, in_loop);
            },
            Err(_) => {},
        }
    } else {
        lemma_parse_from_bounds(code, i + 1, in_loop);
    }
}

proof fn lemma_with_prefix_empty(r: Result<(Seq<Cmd>, int), ParseError>)
    ensures
        with_prefix(Seq::empty(), r) == r,
{
    match r {
        Ok((cs, j)) => {
            assert(Seq::<Cmd>::empty() + cs =~= cs);
        },
        Err(_) => {},
    }
}

proof fn lemma_with_prefix_assoc(a: Seq<Cmd>, b: Seq<Cmd>, r: Result<(Seq<Cmd>, int), ParseError>)
    ensures
        with_prefix(a, with_prefix(b, r)) == with_prefix(a + b, r),
{
    match r {
        Ok((cs, j)) => {
            assert(a + (b + cs) =~= (a + b) + cs);
        },
        Err(_) => {},
    }
}

/// The command a byte stands for, or `None` for a delimiter or an inert byte.
pub fn map_common_chars(symbol: Option<u8>) -> (r: Option<Command>)
    ensures
        (match symbol {
            Some(b) => (match r {
                Some(c) => flat_cmd(b) == Some(cmd_view(c)),
                None => flat_cmd(b) is None,
            }),
            None => r is None,
        }),
{
    if let Some(symbol) = symbol {
        if symbol == INCREMENT_BYTE {
            Some(Command::Increment)
        } else if symbol == DECREMENT_BYTE {
            Some(Command::Decrement)
        } else if symbol == INPUT_BYTE {
            Some(Command::Input)
        } else if symbol == OUTPUT_BYTE {
            Some(Command::Output)
        } else if symbol == LEFT_BYTE {
            Some(Command::Left)
        } else if symbol == RIGHT_BYTE {
            Some(Command::Right)
        } else {
            None
        }
    } else {
        None
    }
}

/// Parses a whole source: the six command characters map one to one onto
/// commands, `[` opens a loop parsed by `parse_loop`, a bare `]` is a
/// failure, and every other byte is skipped.
#[verifier::loop_isolation(false)]
pub fn parse(code: Vec<u8>) -> (r: Result<Program, BFError>)
    ensures
        (match spec_parse(code@) {
            Ok(cs) => r matches Ok(p) && p@ == cs,
            Err(k) => r matches Err(e) && e@ == error_message(k),
        }),
{
    let mut commands: Vec<Command> = Vec::new();
    let mut i: usize = 0;
    proof {
        lemma_with_prefix_empty(parse_from(code@, 0, false));
    }
    while i < code.len()
        invariant
            i <= code@.len(),
            parse_from(code@, 0, false) == with_prefix(
                cmds_view(commands@),
                parse_from(code@, i as int, false),
            ),
        decreases code@.len() - i,
    {
        let symbol = code[i];
        let mapped = map_common_chars(Some(symbol));
        if let Some(command) = mapped {
            proof {
                lemma_cmds_view_push(commands@, command);
                lemma_with_prefix_assoc(
                    cmds_view(commands@),
                    seq![cmd_view(command)],
                    parse_from(code@, i as int + 1, false),
                );
            }
            commands.push(command);
            i = i + 1;
        } else if symbol == CLOSE_BYTE {
            return Err(BFError { message: "Unexpected ]".to_string() });
        } else if symbol == OPEN_BYTE {
            match parse_loop(&code, i + 1) {
                Ok((command, end)) => {
                    proof {
                        lemma_parse_from_bounds(code@, i as int + 1, true);
                        lemma_cmds_view_push(commands@, command);
                        lemma_with_prefix_assoc(
                            cmds_view(commands@),
                            seq![cmd_view(command)],
                            parse_from(code@, end as int, false),
                        );
                    }
                    commands.push(command);
                    i = end;
                },
                Err(e) => {
                    return Err(e);
                },
            }
        } else {
            i = i + 1;
        }
    }
    proof {
        assert(cmds_view(commands@) + Seq::<Cmd>::empty() =~= cmds_view(commands@));
    }
    Ok(Program::new(commands))
}

/// Parses a loop body, starting just past its `[`. On success the returned
/// position is just past the `]` that closed the body.
#[verifier::loop_isolation(false)]
fn parse_loop(code: &Vec<u8>, start: usize) -> (r: Result<(Command, usize), BFError>)
    requires
        start <= code@.len(),
    ensures
        (match parse_from(code@, start as int, true) {
            Ok((body, j)) => r matches Ok((c, end)) && c@ == Cmd::Loop(body) && end == j,
            Err(k) => r matches Err(e) && e@ == error_message(k),
        }),
    decreases code@.len() - start,
{
    let mut commands: Vec<Command> = Vec::new();
    let mut i: usize = start;
    proof {
        lemma_with_prefix_empty(parse_from(code@, start as int, true));
    }
    while i < code.len()
        invariant
            start <= i <= code@.len(),
            parse_from(code@, start as int, true) == with_prefix(
                cmds_view(commands@),
                parse_from(code@, i as int, true),
            ),
        decreases code@.len() - i,
    {
        let symbol = code[i];
        let mapped = map_common_chars(Some(symbol));
        if let Some(command) = mapped {
            proof {
                lemma_cmds_view_push(commands@, command);
                lemma_with_prefix_assoc(
                    cmds_view(commands@),
                    seq![cmd_view(command)],
                    parse_from(code@, i as int + 1, true),
                );
            }
            commands.push(command);
            i = i + 1;
        } else if symbol == CLOSE_BYTE {
            proof {
                assert(cmds_view(commands@) + Seq::<Cmd>::empty() =~= cmds_view(commands@));
            }
            return Ok((Command::Loop(Program::new(commands)), i + 1));
        } else if symbol == OPEN_BYTE {
            match parse_loop(code, i + 1) {
                Ok((command, end)) => {
                    proof {
                        lemma_parse_from_bounds(code@, i as int + 1, true);
                        lemma_cmds_view_push(commands@, command);
                        lemma_with_prefix_assoc(
                            cmds_view(commands@),
                            seq![cmd_view(command)],
                            parse_from(code@, end as int, true),
                        );
                    }
                    commands.push(command);
                    i = end;
                },
                Err(e) => {
                    return Err(e);
                },
            }
        } else {
            i = i + 1;
        }
    }
    Err(BFError { message: "Unexpected end of input while parsing loop".to_string() })
}

/// The textual form of one command: its character, with a loop body wrapped
/// in `[` and `]`.
pub open spec fn render_cmd(c: Cmd) -> Seq<u8>
    decreases c,
{
    match c {
        Cmd::Increment => seq![INCREMENT_BYTE],
        Cmd::Decrement => seq![DECREMENT_BYTE],
        Cmd::Input => seq![INPUT_BYTE],
        Cmd::Output => seq![OUTPUT_BYTE],
        Cmd::Left => seq![LEFT_BYTE],
        Cmd::Right => seq![RIGHT_BYTE],
        Cmd::Loop(body) => seq![OPEN_BYTE] + render_cmds(body) + seq![CLOSE_BYTE],
    }
}

/// The textual form of a command sequence.
pub open spec fn render_cmds(cs: Seq<Cmd>) -> Seq<u8>
    decreases cs,
{
    if cs.len() == 0 {
        Seq::empty()
    } else {
        render_cmd(cs[0]) + render_cmds(cs.drop_first())
    }
}

/// Parsing a stretch of source that spells out `cs` consumes exactly that
/// stretch and reads exactly the commands `cs`.
proof fn lemma_parse_render_cmds(code: Seq<u8>, i: int, in_loop: bool, cs: Seq<Cmd>)
    requires
        0 <= i,
        i + render_cmds(cs).len() <= code.len(),
        code.subrange(i, i + render_cmds(cs).len()) == render_cmds(cs),
    ensures
        parse_from(code, i, in_loop) == with_prefix(
            cs,
            parse_from(code, i + render_cmds(cs).len(), in_loop),
        ),
    decreases cs,
{
    if cs.len() == 0 {
        lemma_with_prefix_empty(parse_from(code, i, in_loop));
    } else {
        let c = cs[0];
        let rest = cs.drop_first();
        let lc = render_cmd(c).len() as int;
        let lr = render_cmds(rest).len() as int;
        assert forall|x: int| 0 <= x < lc + lr implies code[i + x]
            == (render_cmd(c) + render_cmds(rest))[x] by {
            assert(code.subrange(i, i + lc + lr)[x] == code[i + x]);
        }
        assert(code.subrange(i, i + lc) =~= render_cmd(c)) by {
            assert(forall|x: int| 0 <= x < lc
                ==> #[trigger] code.subrange(i, i + lc)[x] == code[i + x]);
        }
        assert(code.subrange(i + lc, i + lc + lr) =~= render_cmds(rest)) by {
            assert(forall|x: int| 0 <= x < lr
                ==> #[trigger] code.subrange(i + lc, i + lc + lr)[x] == code[i + lc + x]);
            assert(forall|x: int| 0 <= x < lr
                ==> (render_cmd(c) + render_cmds(rest))[lc + x]
                    == #[trigger] render_cmds(rest)[x]);
        }
        lemma_parse_render_cmd(code, i, in_loop, c);
        lemma_parse_render_cmds(code, i + lc, in_loop, rest);
        lemma_with_prefix_assoc(seq![c], rest, parse_from(code, i + lc + lr, in_loop));
        assert(seq![c] + rest =~= cs);
    }
}

/// Parsing a stretch of source that spells out the one command `c` consumes
/// exactly that stretch and reads exactly `c`.
proof fn lemma_parse_render_cmd(code: Seq<u8>, i: int, in_loop: bool, c: Cmd)
    requires
        0 <= i,
        i + render_cmd(c).len() <= code.len(),
        code.subrange(i, i + render_cmd(c).len()) == render_cmd(c),
    ensures
        parse_from(code, i, in_loop) == with_prefix(
            seq![c],
            parse_from(code, i + render_cmd(c).len(), in_loop),
        ),
    decreases c,
{
    assert(code[i] == render_cmd(c)[0]) by {
        assert(code.subrange(i, i + render_cmd(c).len())[0] == code[i]);
    }
    match c {
        Cmd::Loop(body) => {
            let lb = render_cmds(body).len() as int;
            assert(code[i] == OPEN_BYTE);
            assert(code.subrange(i + 1, i + 1 + lb) =~= render_cmds(body)) by {
                assert(forall|x: int| 0 <= x < lb + 2
                    ==> code[i + x] == #[trigger] render_cmd(c)[x]);
                assert(forall|x: int| 0 <= x < lb ==> render_cmd(c)[x + 1]
                    == #[trigger] render_cmds(body)[x]);
            }
            lemma_parse_render_cmds(code, i + 1, true, body);
            assert(code[i + 1 + lb] == CLOSE_BYTE) by {
                assert(code.subrange(i, i + lb + 2)[lb + 1] == code[i + 1 + lb]);
            }
            assert(parse_from(code, i + 1 + lb, true) == Ok::<(Seq<Cmd>, int), ParseError>((
                Seq::empty(),
                i + lb + 2,
            )));
            assert(body + Seq::<Cmd>::empty() =~= body);
            assert(parse_from(code, i + 1, true) == Ok::<(Seq<Cmd>, int), ParseError>((
                body,
                i + lb + 2,
            )));
        },
        _ => {
            assert(flat_cmd(code[i]) == Some(c));
        },
    }
}

/// Law: parsing the textual form of any command tree gives back exactly that
/// tree. Loops nest to arbitrary depth in the tree and round-trip through
/// their bracketed source form.
pub proof fn lemma_render_round_trip(cs: Seq<Cmd>)
    ensures
        spec_parse(render_cmds(cs)) == Ok::<Seq<Cmd>, ParseError>(cs),
{
    let code = render_cmds(cs);
    assert(code.subrange(0, code.len() as int) =~= code);
    lemma_parse_render_cmds(code, 0, false, cs);
    assert(cs + Seq::<Cmd>::empty() =~= cs);
}

/// The commands of the recognized bytes of a delimiter-free source, in order.
pub open spec fn flat_cmds(code: Seq<u8>) -> Seq<Cmd>
    decreases code,
{
    if code.len() == 0 {
        Seq::empty()
    } else {
        match flat_cmd(code[0]) {
            Some(c) => seq![c] + flat_cmds(code.drop_first()),
            None => flat_cmds(code.drop_first()),
        }
    }
}

proof fn lemma_parse_flat_from(code: Seq<u8>, i: int)
    requires
        0 <= i <= code.len(),
        forall|x: int| 0 <= x < code.len() ==> code[x] != OPEN_BYTE && code[x] != CLOSE_BYTE,
    ensures
        parse_from(code, i, false) == Ok::<(Seq<Cmd>, int), ParseError>((
            flat_cmds(code.skip(i)),
            code.len() as int,
        )),
    decreases code.len() - i,
{
    if i == code.len() {
        assert(code.skip(i) =~= Seq::<u8>::empty());
    } else {
        lemma_parse_flat_from(code, i + 1);
        assert(code.skip(i)[0] == code[i]);
        assert(code.skip(i).drop_first() =~= code.skip(i + 1));
    }
}

/// A flat left-to-right scan of the loop delimiters alone, keeping only the
/// nesting depth: `None` when the delimiters balance, otherwise the failure
/// the source produces.
spec fn scan(code: Seq<u8>, i: int, depth: nat) -> Option<ParseError>
    decreases code.len() - i,
{
    if i < 0 || i >= code.len() {
        if depth == 0 {
            None
        } else {
            Some(ParseError::UnexpectedEnd)
        }
    } else if code[i] == CLOSE_BYTE {
        if depth == 0 {
            Some(ParseError::UnexpectedClose)
        } else {
            scan(code, i + 1, (depth - 1) as nat)
        }
    } else if code[i] == OPEN_BYTE {
        scan(code, i + 1, depth + 1)
    } else {
        scan(code, i + 1, depth)
    }
}

/// The failure of a parse, if any.
spec fn parse_status(r: Result<(Seq<Cmd>, int), ParseError>) -> Option<ParseError> {
    match r {
        Ok(_) => None,
        Err(k) => Some(k),
    }
}

/// The recursive parser agrees with the flat depth scan: inside a loop body
/// it consumes source up to the point where the scan's depth first drops by
/// one, and at the top level its verdict is the scan's verdict.
proof fn lemma_parse_scan(code: Seq<u8>, i: int, in_loop: bool)
    requires
        0 <= i,
    ensures
        in_loop ==> (match parse_from(code, i, true) {
            Ok((cs, m)) => forall|d: nat| d >= 1
                ==> #[trigger] scan(code, i, d) == scan(code, m, (d - 1) as nat),
            Err(k) => k == ParseError::UnexpectedEnd && forall|d: nat| d >= 1
                ==> #[trigger] scan(code, i, d) == Some(ParseError::UnexpectedEnd),
        }),
        !in_loop ==> scan(code, i, 0) == parse_status(parse_from(code, i, false)),
    decreases code.len() - i,
{
    let le = code.len() as int;
    if i >= le {
    } else if flat_cmd(code[i]) is Some {
        lemma_parse_scan(code, i + 1, in_loop);
        assert(forall|d: nat| #[trigger] scan(code, i, d) == scan(code, i + 1, d));
    } else if code[i] == CLOSE_BYTE {
    } else if code[i] == OPEN_BYTE {
        lemma_parse_scan(code, i + 1, true);
        assert(forall|d: nat| #[trigger] scan(code, i, d) == scan(code, i + 1, d + 1));
        match parse_from(code, i + 1, true) {
            Ok((body, j)) => {
                lemma_parse_from_bounds(code, i + 1, true);
                lemma_parse_scan(code, j, in_loop);
                assert(forall|d: nat| #[trigger] scan(code, i, d) == scan(code, j, d)) by {
                    assert(forall|d: nat| #[trigger] scan(code, i + 1, d + 1)
                        == scan(code, j, d));
                }
            },
            Err(k) => {
                assert(forall|d: nat| d >= 1
                    ==> #[trigger] scan(code, i, d) == Some(ParseError::UnexpectedEnd)) by {
                    assert(forall|d: nat| d + 1 >= 1 ==> #[trigger] scan(code, i + 1, d + 1)
                        == Some(ParseError::UnexpectedEnd));
                }
                assert(scan(code, i, 0) == scan(code, i + 1, 1));
            },
        }
    } else {
        lemma_parse_scan(code, i + 1, in_loop);
        assert(forall|d: nat| #[trigger] scan(code, i, d) == scan(code, i + 1, d));
    }
}

/// How often the byte `b` occurs in `s`.
pub open spec fn count_byte(s: Seq<u8>, b: u8) -> int
    decreases s,
{
    if s.len() == 0 {
        0
    } else {
        (if s[0] == b { 1int } else { 0int }) + count_byte(s.drop_first(), b)
    }
}

/// How many more `]` than `[` the bytes `i..j` of the source hold.
pub open spec fn close_excess(code: Seq<u8>, i: int, j: int) -> int {
    count_byte(code.subrange(i, j), CLOSE_BYTE) - count_byte(code.subrange(i, j), OPEN_BYTE)
}

/// Some prefix of the source holds more `]` than `[`: the source has a `]`
/// with no unmatched `[` open before it.
pub open spec fn has_stray_close(code: Seq<u8>) -> bool {
    exists|j: int| 0 < j <= code.len() && close_excess(code, 0, j) > 0
}

proof fn lemma_count_step(code: Seq<u8>, i: int, j: int, b: u8)
    requires
        0 <= i < j <= code.len(),
    ensures
        count_byte(code.subrange(i, j), b) == (if code[i] == b { 1int } else { 0int })
            + count_byte(code.subrange(i + 1, j), b),
{
    assert(code.subrange(i, j)[0] == code[i]);
    assert(code.subrange(i, j).drop_first() =~= code.subrange(i + 1, j));
}

proof fn lemma_excess_empty(code: Seq<u8>, i: int)
    requires
        0 <= i <= code.len(),
    ensures
        close_excess(code, i, i) == 0,
{
    assert(code.subrange(i, i) =~= Seq::<u8>::empty());
}

proof fn lemma_excess_step(code: Seq<u8>, i: int, j: int)
    requires
        0 <= i < j <= code.len(),
    ensures
        close_excess(code, i, j) == (if code[i] == CLOSE_BYTE {
            1int
        } else if code[i] == OPEN_BYTE {
            -1int
        } else {
            0int
        }) + close_excess(code, i + 1, j),
{
    lemma_count_step(code, i, j, CLOSE_BYTE);
    lemma_count_step(code, i, j, OPEN_BYTE);
}

/// The depth scan's verdict, characterized by delimiter counts: a stray `]`
/// means some prefix of the remaining source holds more `]` than `[` can
/// cover at the starting depth, an unclosed `[` means the total excess stays
/// below the starting depth, and balance means it lands exactly on it.
proof fn lemma_scan_counts(code: Seq<u8>, i: int, d: nat)
    requires
        0 <= i <= code.len(),
    ensures
        (scan(code, i, d) == Some(ParseError::UnexpectedClose)) <==> (exists|j: int| i < j
            <= code.len() && close_excess(code, i, j) > d),
        (scan(code, i, d) == Some(ParseError::UnexpectedEnd)) <==> ((forall|j: int| i < j
            <= code.len() ==> close_excess(code, i, j) <= d)
            && close_excess(code, i, code.len() as int) < d),
        (scan(code, i, d) is None) <==> ((forall|j: int| i < j <= code.len()
            ==> close_excess(code, i, j) <= d)
            && close_excess(code, i, code.len() as int) == d),
    decreases code.len() - i,
{
    let le = code.len() as int;
    if i == le {
        lemma_excess_empty(code, i);
    } else if code[i] == CLOSE_BYTE && d == 0 {
        lemma_excess_step(code, i, i + 1);
        lemma_excess_empty(code, i + 1);
        assert(close_excess(code, i, i + 1) > 0);
    } else {
        let delta: int = if code[i] == CLOSE_BYTE {
            1
        } else if code[i] == OPEN_BYTE {
            -1
        } else {
            0
        };
        let d2: nat = (d - delta) as nat;
        lemma_scan_counts(code, i + 1, d2);
        assert forall|j: int| i < j <= le implies close_excess(code, i, j) == delta
            + close_excess(code, i + 1, j) by {
            lemma_excess_step(code, i, j);
            if j == i + 1 {
                lemma_excess_empty(code, i + 1);
            }
        }
        assert((exists|j: int| i < j <= le && close_excess(code, i, j) > d) <==> (exists|j: int|
            i + 1 < j <= le && #[trigger] close_excess(code, i + 1, j) > d2)) by {
            if exists|j: int| i < j <= le && close_excess(code, i, j) > d {
                let j = choose|j: int| i < j <= le && close_excess(code, i, j) > d;
                assert(j != i + 1);
                assert(close_excess(code, i + 1, j) > d2);
            }
            if exists|j: int| i + 1 < j <= le && #[trigger] close_excess(code, i + 1, j) > d2 {
                let j = choose|j: int| i + 1 < j <= le && #[trigger] close_excess(code, i + 1, j) > d2;
                assert(close_excess(code, i, j) > d);
            }
        }
        assert((forall|j: int| i < j <= le ==> close_excess(code, i, j) <= d) <==> (forall|j: int|
            i + 1 < j <= le ==> #[trigger] close_excess(code, i + 1, j) <= d2)) by {
            if forall|j: int| i + 1 < j <= le ==> #[trigger] close_excess(code, i + 1, j) <= d2 {
                assert forall|j: int| i < j <= le implies close_excess(code, i, j) <= d by {
                    if j == i + 1 {
                        lemma_excess_empty(code, i + 1);
                    }
                }
            }
        }
    }
}

/// Law: parsing fails with the "Unexpected ]" error exactly when some prefix
/// of the source holds more `]` than `[` — that is, when a `]` appears with
/// no unmatched `[` open before it.
pub proof fn lemma_stray_close_rejected(code: Seq<u8>)
    ensures
        (spec_parse(code) == Err::<Seq<Cmd>, ParseError>(ParseError::UnexpectedClose))
            <==> has_stray_close(code),
{
    lemma_parse_scan(code, 0, false);
    lemma_scan_counts(code, 0, 0);
}

/// Law: parsing fails with the "Unexpected end of input while parsing loop"
/// error exactly when no prefix holds a stray `]` but the whole source opens
/// more loops than it closes — an unclosed `[`.
pub proof fn lemma_unclosed_loop_rejected(code: Seq<u8>)
    ensures
        (spec_parse(code) == Err::<Seq<Cmd>, ParseError>(ParseError::UnexpectedEnd))
            <==> (!has_stray_close(code)
            && count_byte(code, OPEN_BYTE) > count_byte(code, CLOSE_BYTE)),
{
    lemma_parse_scan(code, 0, false);
    lemma_scan_counts(code, 0, 0);
    assert(code.subrange(0, code.len() as int) =~= code);
}

/// Law: parsing succeeds exactly when the loop delimiters balance — no prefix
/// holds a stray `]`, and `[` and `]` occur equally often.
pub proof fn lemma_balanced_accepted(code: Seq<u8>)
    ensures
        (spec_parse(code) is Ok) <==> (!has_stray_close(code)
            && count_byte(code, OPEN_BYTE) == count_byte(code, CLOSE_BYTE)),
{
    lemma_parse_scan(code, 0, false);
    lemma_scan_counts(code, 0, 0);
    assert(code.subrange(0, code.len() as int) =~= code);
}

/// Law: in a source with no loop delimiters, every occurrence of one of the
/// six command characters maps one to one, in order, onto the corresponding
/// command, every other byte is dropped, and parsing always succeeds.
pub proof fn lemma_parse_no_delimiters(code: Seq<u8>)
    requires
        forall|x: int| 0 <= x < code.len() ==> code[x] != OPEN_BYTE && code[x] != CLOSE_BYTE,
    ensures
        spec_parse(code) == Ok::<Seq<Cmd>, ParseError>(flat_cmds(code)),
{
    lemma_parse_flat_from(code, 0);
    assert(code.skip(0) =~= code);
}

} // verus!
