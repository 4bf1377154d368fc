//! The mathematical semantics of the language: a machine state (tape,
//! cursor, input and output byte sequences) and a step-indexed interpreter
//! over command sequences. The index bounds how often each loop may be
//! re-entered; `None` means the budget ran out before the program finished.

use vstd::prelude::*;

verus! {

/// The mathematical form of one command. A loop carries the command
/// sequence of its body, so a whole program is a `Seq<Cmd>`.
pub enum Cmd {
    Increment,
    Decrement,
    Input,
    Output,
    Left,
    Right,
    Loop(Seq<Cmd>),
}

/// The whole state one execution works on: the tape with its cursor, the
/// input bytes not yet consumed, and the output bytes produced so far.
#[verifier::ext_equal]
pub struct MachineState {
    pub tape: Seq<u8>,
    pub pointer: nat,
    pub input: Seq<u8>,
    pub output: Seq<u8>,
}

/// The cursor always addresses a materialized cell.
pub open spec fn state_wf(st: MachineState) -> bool {
    st.pointer < st.tape.len()
}

/// A fresh machine: one zero cell, cursor at zero, the given input, no output.
pub open spec fn init_state(input: Seq<u8>) -> MachineState {
    MachineState { tape: seq![0u8], pointer: 0, input, output: Seq::empty() }
}

/// The cell under the cursor.
pub open spec fn cell(st: MachineState) -> u8 {
    st.tape[st.pointer as int]
}

/// Eight-bit increment with wraparound.
pub open spec fn wrap_inc(v: u8) -> u8 {
    if v == 255 { 0 } else { (v + 1) as u8 }
}

/// Eight-bit decrement with wraparound.
pub open spec fn wrap_dec(v: u8) -> u8 {
    if v == 0 { 255 } else { (v - 1) as u8 }
}

/// The effect of one non-loop command. Reading from exhausted input sets the
/// current cell to zero. Moving left at cell zero stays at cell zero; moving
/// right past the last materialized cell first appends one zero cell.
pub open spec fn step_flat(c: Cmd, st: MachineState) -> MachineState {
    match c {
        Cmd::Increment => MachineState {
            tape: st.tape.update(st.pointer as int, wrap_inc(cell(st))),
            ..st
        },
        Cmd::Decrement => MachineState {
            tape: st.tape.update(st.pointer as int, wrap_dec(cell(st))),
            ..st
        },
        Cmd::Input => if st.input.len() == 0 {
            MachineState { tape: st.tape.update(st.pointer as int, 0u8), ..st }
        } else {
            MachineState {
                tape: st.tape.update(st.pointer as int, st.input[0]),
                input: st.input.drop_first(),
                ..st
            }
        },
        Cmd::Output => MachineState { output: st.output.push(cell(st)), ..st },
        Cmd::Left => MachineState {
            pointer: if st.pointer == 0 { 0 } else { (st.pointer - 1) as nat },
            ..st
        },
        Cmd::Right => if st.pointer == st.tape.len() - 1 {
            MachineState { tape: st.tape.push(0u8), pointer: st.pointer + 1, ..st }
        } else {
            MachineState { pointer: st.pointer + 1, ..st }
        },
        Cmd::Loop(_) => st,
    }
}

/// Runs a command sequence from the given state. The budget `fuel` limits
/// only loop re-entries; straight-line commands never consume it.
pub open spec fn run_cmds(cmds: Seq<Cmd>, st: MachineState, fuel: nat) -> Option<MachineState>
    decreases fuel, cmds, 0int,
{
    if cmds.len() == 0 {
        Some(st)
    } else {
        match run_cmd(cmds[0], st, fuel) {
            Some(st1) => run_cmds(cmds.drop_first(), st1, fuel),
            None => None,
        }
    }
}

/// Runs one command from the given state.
pub open spec fn run_cmd(c: Cmd, st: MachineState, fuel: nat) -> Option<MachineState>
    decreases fuel, c, 0int,
{
    match c {
        Cmd::Loop(body) => run_loop(body, st, fuel),
        _ => Some(step_flat(c, st)),
    }
}

/// Runs a loop: while the cell under the cursor is non-zero, run the body and
/// re-check. Each re-check of a non-zero cell costs one unit of budget.
pub open spec fn run_loop(body: Seq<Cmd>, st: MachineState, fuel: nat) -> Option<MachineState>
    decreases fuel, body, 1int,
{
    if cell(st) == 0 {
        Some(st)
    } else if fuel == 0 {
        None
    } else {
        match run_cmds(body, st, fuel) {
            Some(st1) => run_loop(body, st1, (fuel - 1) as nat),
            None => None,
        }
    }
}

/// Running a command sequence works through its head command first.
pub proof fn lemma_run_cmds_cons(c: Cmd, rest: Seq<Cmd>, st: MachineState, fuel: nat)
    ensures
        run_cmds(seq![c] + rest, st, fuel) == (match run_cmd(c, st, fuel) {
            Some(st1) => run_cmds(rest, st1, fuel),
            None => None,
        }),
{
    assert((seq![c] + rest)[0] == c);
    assert((seq![c] + rest).drop_first() =~= rest);
}

/// Law: a Left with the cursor at cell zero changes nothing — the tape never
/// grows leftward — so a second Left right after it does no more than the
/// first.
pub proof fn lemma_left_at_origin(st: MachineState, fuel: nat)
    requires
        st.pointer == 0,
    ensures
        run_cmd(Cmd::Left, st, fuel) == Some(st),
        run_cmds(seq![Cmd::Left, Cmd::Left], st, fuel) == run_cmds(seq![Cmd::Left], st, fuel),
{
    assert(step_flat(Cmd::Left, st) =~= st);
    assert(seq![Cmd::Left, Cmd::Left] =~= seq![Cmd::Left] + seq![Cmd::Left]);
    lemma_run_cmds_cons(Cmd::Left, seq![Cmd::Left], st, fuel);
}

/// `n` Right commands in a row.
pub open spec fn rights(n: nat) -> Seq<Cmd>
    decreases n,
{
    if n == 0 {
        Seq::empty()
    } else {
        seq![Cmd::Right] + rights((n - 1) as nat)
    }
}

/// From a state whose cursor sits on the last cell, `n` Rights append exactly
/// `n` fresh zero cells and move the cursor onto the last of them; input and
/// output are untouched, and no budget is spent.
pub proof fn lemma_rights_extend(st: MachineState, n: nat, fuel: nat)
    requires
        state_wf(st),
        st.pointer == st.tape.len() - 1,
    ensures
        (run_cmds(rights(n), st, fuel) matches Some(st2)
            && st2.tape == st.tape + Seq::new(n, |x: int| 0u8)
            && st2.pointer == st.pointer + n
            && st2.input == st.input
            && st2.output == st.output),
    decreases n,
{
    if n == 0 {
        assert(st.tape + Seq::new(0, |x: int| 0u8) =~= st.tape);
    } else {
        let st1 = step_flat(Cmd::Right, st);
        lemma_run_cmds_cons(Cmd::Right, rights((n - 1) as nat), st, fuel);
        lemma_rights_extend(st1, (n - 1) as nat, fuel);
        assert(st1.tape + Seq::new((n - 1) as nat, |x: int| 0u8)
            =~= st.tape + Seq::new(n, |x: int| 0u8));
    }
}

/// Law: on a fresh machine, `n` Rights in a row always succeed and leave a
/// tape of exactly `n + 1` cells, every one of them zero.
pub proof fn lemma_rights_from_fresh(input: Seq<u8>, n: nat, fuel: nat)
    ensures
        (run_cmds(rights(n), init_state(input), fuel) matches Some(st)
            && st.tape.len() == n + 1
            && st.pointer == n
            && (forall|x: int| 0 <= x < st.tape.len() ==> st.tape[x] == 0u8)),
{
    lemma_rights_extend(init_state(input), n, fuel);
}

} // verus!
