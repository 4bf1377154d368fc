//! The instruction tree and its executable interpreter: `Command` and
//! `Program` mirror the spec-level `Cmd` sequences through their views, and
//! `Program::run` is proved to compute exactly what the step-indexed
//! interpreter in `semantics` says.

use vstd::prelude::*;

use crate::semantics::Cmd;
use crate::semantics::MachineState;
use crate::semantics::cell;
use crate::semantics::init_state;
use crate::semantics::lemma_run_cmds_cons;
use crate::semantics::run_cmd;
use crate::semantics::run_cmds;
use crate::semantics::run_loop;
use crate::semantics::step_flat;

verus! {

/// One instruction in the program: arithmetic on the current cell, cursor
/// motion, byte input or output, or a loop that owns its nested program.
#[derive(Debug, PartialEq)]
pub enum Command {
    Increment,
    Decrement,
    Input,
    Output,
    Left,
    Right,
    Loop(Program),
}

/// An ordered sequence of commands, built once by the parser and never
/// mutated afterwards.
#[derive(Debug, PartialEq)]
pub struct Program {
    pub commands: Vec<Command>,
}

/// The spec-level form of one command.
pub open spec fn cmd_view(c: Command) -> Cmd
    decreases c,
{
    match c {
        Command::Increment => Cmd::Increment,
        Command::Decrement => Cmd::Decrement,
        Command::Input => Cmd::Input,
        Command::Output => Cmd::Output,
        Command::Left => Cmd::Left,
        Command::Right => Cmd::Right,
        Command::Loop(p) => Cmd::Loop(cmds_view(p.commands@)),
    }
}

/// The spec-level form of a command sequence.
pub open spec fn cmds_view(cs: Seq<Command>) -> Seq<Cmd>
    decreases cs,
{
    if cs.len() == 0 {
        Seq::empty()
    } else {
        seq![cmd_view(cs[0])] + cmds_view(cs.drop_first())
    }
}

impl View for Command {
    type V = Cmd;

    open spec fn view(&self) -> Cmd {
        cmd_view(*self)
    }
}

impl View for Program {
    type V = Seq<Cmd>;

    open spec fn view(&self) -> Seq<Cmd> {
        cmds_view(self.commands@)
    }
}

pub proof fn lemma_cmds_view_push(cs: Seq<Command>, c: Command)
    ensures
        cmds_view(cs.push(c)) == cmds_view(cs).push(cmd_view(c)),
        cmds_view(cs.push(c)) == cmds_view(cs) + seq![cmd_view(c)],
    decreases cs,
{
    assert(cmds_view(cs).push(cmd_view(c)) =~= cmds_view(cs) + seq![cmd_view(c)]);
    if cs.len() == 0 {
        assert(cs.push(c)[0] == c);
        assert(cs.push(c).drop_first() =~= Seq::<Command>::empty());
        assert(cmds_view(cs.push(c).drop_first()) =~= Seq::<Cmd>::empty());
        assert(cmds_view(cs.push(c)) =~= cmds_view(cs).push(cmd_view(c)));
    } else {
        assert(cs.push(c).drop_first() =~= cs.drop_first().push(c));
        lemma_cmds_view_push(cs.drop_first(), c);
        assert(cmds_view(cs.push(c)) =~= cmds_view(cs).push(cmd_view(c)));
    }
}

/// Reading a command sequence from position `k` reads the command at `k` first.
proof fn lemma_cmds_view_skip(cs: Seq<Command>, k: int)
    requires
        0 <= k < cs.len(),
    ensures
        cmds_view(cs.skip(k)) == seq![cmd_view(cs[k])] + cmds_view(cs.skip(k + 1)),
{
    assert(cs.skip(k)[0] == cs[k]);
    assert(cs.skip(k).drop_first() =~= cs.skip(k + 1));
}

/// The tape: a growable sequence of byte cells and the cursor into it. The
/// sequence starts with one zero cell and grows by one zero cell at the right
/// end whenever the cursor would move past the last materialized cell.
struct Array {
    data: Vec<u8>,
    data_pointer: usize,
}

impl Array {
    /// The cursor always addresses a materialized cell.
    spec fn wf(self) -> bool {
        self.data_pointer < self.data@.len()
    }

    fn new() -> (a: Array)
        ensures
            a.wf(),
            a.data@ == seq![0u8],
            a.data_pointer == 0,
    {
        let mut array = Array { data: Vec::with_capacity(30000), data_pointer: 0 };
        array.data.push(0);
        proof {
            assert(array.data@ =~= seq![0u8]);
        }
        array
    }

    fn right(&mut self)
        requires
            old(self).wf(),
        ensures
            final(self).wf(),
            final(self).data_pointer == old(self).data_pointer + 1,
            final(self).data@ == (if old(self).data_pointer == old(self).data@.len() - 1 {
                old(self).data@.push(0u8)
            } else {
                old(self).data@
            }),
    {
        if self.data_pointer == self.data.len() - 1 {
            self.data.push(0);
        }
        self.data_pointer = self.data_pointer + 1;
    }

    fn left(&mut self)
        requires
            old(self).wf(),
        ensures
            final(self).wf(),
            final(self).data@ == old(self).data@,
            final(self).data_pointer as int == (if old(self).data_pointer == 0 {
                0int
            } else {
                old(self).data_pointer - 1
            }),
    {
        if self.data_pointer != 0 {
            self.data_pointer = self.data_pointer - 1;
        }
    }

    fn get_value(&self) -> (v: u8)
        requires
            self.wf(),
        ensures
            v == self.data@[self.data_pointer as int],
    {
        self.data[self.data_pointer]
    }

    fn set_value(&mut self, value: u8)
        requires
            old(self).wf(),
        ensures
            final(self).wf(),
            final(self).data_pointer == old(self).data_pointer,
            final(self).data@ == old(self).data@.update(old(self).data_pointer as int, value),
    {
        self.data[self.data_pointer] = value;
    }
}

/// The machine state that a tape, an input cursor and an output buffer stand
/// for: the input bytes from `pos` on are the ones not yet consumed.
spec fn state_of(a: Array, input: Seq<u8>, pos: int, output: Seq<u8>) -> MachineState {
    MachineState {
        tape: a.data@,
        pointer: a.data_pointer as nat,
        input: input.skip(pos),
        output,
    }
}

impl Program {
    pub fn new(commands: Vec<Command>) -> (p: Program)
        ensures
            p@ == cmds_view(commands@),
    {
        Program { commands }
    }

    /// Runs the program against the given input bytes under the given loop
    /// budget. Returns the bytes written, or `None` when the budget ran out
    /// before the program finished.
    pub fn run(&self, input: &[u8], fuel: u64) -> (r: Option<Vec<u8>>)
        ensures
            (match run_cmds(self@, init_state(input@), fuel as nat) {
                Some(st) => r matches Some(out) && out@ == st.output,
                None => r is None,
            }),
    {
        let mut array = Array::new();
        let mut in_pos: usize = 0;
        let mut output: Vec<u8> = Vec::new();
        proof {
            assert(state_of(array, input@, 0, output@) =~= init_state(input@));
        }
        if self.run_internal(&mut array, input, &mut in_pos, &mut output, fuel) {
            Some(output)
        } else {
            None
        }
    }

    /// Executes every command in order. Returns false as soon as some loop
    /// exhausts the budget.
    #[verifier::loop_isolation(false)]
    fn run_internal(
        &self,
        array: &mut Array,
        input: &[u8],
        in_pos: &mut usize,
        output: &mut Vec<u8>,
        fuel: u64,
    ) -> (complete: bool)
        requires
            old(array).wf(),
            *old(in_pos) <= input@.len(),
        ensures
            (match run_cmds(
                self@,
                state_of(*old(array), input@, *old(in_pos) as int, old(output)@),
                fuel as nat,
            ) {
                Some(st) => complete && final(array).wf() && *final(in_pos) <= input@.len()
                    && state_of(*final(array), input@, *final(in_pos) as int, final(output)@) == st,
                None => !complete,
            }),
        decreases fuel, self, 0int,
    {
        let ghost st0 = state_of(*array, input@, *in_pos as int, output@);
        proof {
            assert(self.commands@.skip(0) =~= self.commands@);
        }
        let mut k: usize = 0;
        while k < self.commands.len()
            invariant
                k <= self.commands@.len(),
                array.wf(),
                *in_pos <= input@.len(),
                run_cmds(self@, st0, fuel as nat) == run_cmds(
                    cmds_view(self.commands@.skip(k as int)),
                    state_of(*array, input@, *in_pos as int, output@),
                    fuel as nat,
                ),
            decreases self.commands@.len() - k,
        {
            let ghost pre = state_of(*array, input@, *in_pos as int, output@);
            proof {
                lemma_cmds_view_skip(self.commands@, k as int);
                lemma_run_cmds_cons(
                    cmd_view(self.commands@[k as int]),
                    cmds_view(self.commands@.skip(k as int + 1)),
                    pre,
                    fuel as nat,
                );
            }
            let c = &self.commands[k];
            match c {
                Command::Increment => {
                    let v = array.get_value();
                    array.set_value(if v == 255 { 0 } else { v + 1 });
                    proof {
                        assert(state_of(*array, input@, *in_pos as int, output@)
                            =~= step_flat(Cmd::Increment, pre));
                    }
                },
                Command::Decrement => {
                    let v = array.get_value();
                    array.set_value(if v == 0 { 255 } else { v - 1 });
                    proof {
                        assert(state_of(*array, input@, *in_pos as int, output@)
                            =~= step_flat(Cmd::Decrement, pre));
                    }
                },
                Command::Input => {
                    if *in_pos < input.len() {
                        let b = input[*in_pos];
                        *in_pos = *in_pos + 1;
                        array.set_value(b);
                        proof {
                            assert(pre.input[0] == input@[*in_pos - 1]);
                            assert(pre.input.drop_first() =~= input@.skip(*in_pos as int));
                            assert(state_of(*array, input@, *in_pos as int, output@)
                                =~= step_flat(Cmd::Input, pre));
                        }
                    } else {
                        array.set_value(0);
                        proof {
                            assert(pre.input.len() == 0);
                            assert(state_of(*array, input@, *in_pos as int, output@)
                                =~= step_flat(Cmd::Input, pre));
                        }
                    }
                },
                Command::Output => {
                    let v = array.get_value();
                    output.push(v);
                    proof {
                        assert(state_of(*array, input@, *in_pos as int, output@)
                            =~= step_flat(Cmd::Output, pre));
                    }
                },
                Command::Left => {
                    array.left();
                    proof {
                        assert(state_of(*array, input@, *in_pos as int, output@)
                            =~= step_flat(Cmd::Left, pre));
                    }
                },
                Command::Right => {
                    array.right();
                    proof {
                        assert(state_of(*array, input@, *in_pos as int, output@)
                            =~= step_flat(Cmd::Right, pre));
                    }
                },
                Command::Loop(program) => {
                    proof {
                        assert(cmd_view(self.commands@[k as int])
                            == Cmd::Loop(cmds_view(program.commands@)));
                    }
                    if !program.loop_internal(array, input, in_pos, output, fuel) {
                        return false;
                    }
                },
            }
            k = k + 1;
        }
        proof {
            assert(self.commands@.skip(k as int) =~= Seq::<Command>::empty());
        }
        true
    }

    /// Runs this program as a loop body: while the cell under the cursor is
    /// non-zero, run the body and re-check, spending one unit of budget per
    /// re-entry. Returns false as soon as the budget runs out.
    fn loop_internal(
        &self,
        array: &mut Array,
        input: &[u8],
        in_pos: &mut usize,
        output: &mut Vec<u8>,
        fuel: u64,
    ) -> (complete: bool)
        requires
            old(array).wf(),
            *old(in_pos) <= input@.len(),
        ensures
            (match run_loop(
                self@,
                state_of(*old(array), input@, *old(in_pos) as int, old(output)@),
                fuel as nat,
            ) {
                Some(st) => complete && final(array).wf() && *final(in_pos) <= input@.len()
                    && state_of(*final(array), input@, *final(in_pos) as int, final(output)@) == st,
                None => !complete,
            }),
        decreases fuel, self, 1int,
    {
        if array.get_value() == 0 {
            return true;
        }
        if fuel == 0 {
            return false;
        }
        if !self.run_internal(array, input, in_pos, output, fuel) {
            return false;
        }
        self.loop_internal(array, input, in_pos, output, fuel - 1)
    }
}

} // verus!
