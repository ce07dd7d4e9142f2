//! The interpreter and the semantics agree: what the interpreter has left
//! to do is a program, and no step changes how that program ends.

use vstd::prelude::*;
use crate::execution::interpreter::{Config, Position, Progress};
use crate::semantics::{
    lemma_run_concat, lemma_run_monotonic, run, run_loop, Halt, Machine, Outcome,
};
use crate::syntax::Instr;

verus! {

/// The instructions that a stack of frames has left to run: what is left of
/// the last frame, then what is left of the frame below it, loop included,
/// and so on.
pub open spec fn rest(frames: Seq<Position>) -> Seq<Instr>
    decreases frames.len(),
{
    if frames.len() == 0 {
        Seq::empty()
    } else {
        frames.last().nodes.skip(frames.last().index as int) + rest(frames.drop_last())
    }
}

impl Config {
    /// How the run ends, by the semantics. `None` when `fuel` is not enough.
    pub open spec fn result(self, fuel: nat) -> Option<Halt> {
        match self.outcome {
            Some(outcome) => Some(Halt { machine: self.machine, outcome }),
            None => run(rest(self.frames), self.machine, fuel),
        }
    }
}

/// The body followed by the loop runs like the loop, on one more unit of
/// fuel.
proof fn lemma_unroll_backward(body: Seq<Instr>, tail: Seq<Instr>, machine: Machine, fuel: nat)
    requires
        machine.cell() != 0,
        run(body + (seq![Instr::Loop(body)] + tail), machine, fuel) is Some,
    ensures
        run(seq![Instr::Loop(body)] + tail, machine, fuel + 1) == run(
            body + (seq![Instr::Loop(body)] + tail),
            machine,
            fuel,
        ),
{
    let whole = seq![Instr::Loop(body)] + tail;
    assert(whole[0] == Instr::Loop(body));
    lemma_run_concat(body, whole, machine, fuel);
    assert(run(body, machine, fuel) is Some);
    let first = run(body, machine, fuel)->0;
    let more = fuel + 1;
    assert(run(body, machine, (more - 1) as nat) == Some(first));
    if first.outcome == Outcome::Completed {
        assert(run(whole, first.machine, fuel) is Some);
        assert(run_loop(body, first.machine, fuel) is Some);
        let second = run_loop(body, first.machine, fuel)->0;
        assert(run_loop(body, machine, more) == Some(second));
        if second.outcome == Outcome::Completed {
            assert(run(whole.skip(1), second.machine, fuel) is Some);
            lemma_run_monotonic(whole.skip(1), second.machine, fuel, more);
        }
    } else {
        assert(run_loop(body, machine, more) == Some(first));
    }
}

/// What is left after the last frame has moved past its instruction.
proof fn lemma_rest_past(config: Config)
    requires
        config.frames.len() > 0,
        config.frames.last().index < config.frames.last().nodes.len(),
    ensures
        rest(config.frames)[0] == config.frames.last().nodes[config.frames.last().index as int],
        rest(config.frames).len() > 0,
        rest(config.past()) == rest(config.frames).skip(1),
{
    let top = config.frames.last();
    assert(config.past().drop_last() =~= config.frames.drop_last());
    assert(rest(config.past()) =~= rest(config.frames).skip(1));
}

impl Config {
    /// A step keeps the configuration well-formed.
    pub proof fn lemma_advance_wf(self)
        requires
            self.wf(),
        ensures
            self.advance().wf(),
    {
    }

    /// A step keeps how the run ends: what the run after the step ends in,
    /// the run before it ends in, on one more unit of fuel.
    pub proof fn lemma_advance_backward(self, fuel: nat)
        requires
            self.wf(),
            self.advance().result(fuel) is Some,
        ensures
            self.result(fuel + 1) == self.advance().result(fuel),
    {
        if self.outcome is None && self.frames.len() == 0 {
            assert(rest(self.frames) =~= Seq::<Instr>::empty());
        } else if self.outcome is None {
            let top = self.frames.last();
            if top.index >= top.nodes.len() {
                assert(top.nodes.skip(top.index as int) =~= Seq::<Instr>::empty());
                assert(rest(self.frames) =~= rest(self.frames.drop_last()));
                if self.frames.len() == 1 {
                    assert(rest(self.frames.drop_last()) =~= Seq::<Instr>::empty());
                } else {
                    lemma_run_monotonic(rest(self.frames), self.machine, fuel, fuel + 1);
                }
            } else {
                lemma_rest_past(self);
                let whole = rest(self.frames);
                match top.nodes[top.index as int] {
                    Instr::Loop(body) => {
                        if self.machine.cell() != 0 {
                            let grown = self.frames.push(Position { nodes: body, index: 0 });
                            assert(grown.drop_last() =~= self.frames);
                            assert(body.skip(0) =~= body);
                            assert(whole =~= seq![Instr::Loop(body)] + whole.skip(1));
                            assert(rest(grown) == body + whole);
                            lemma_unroll_backward(body, whole.skip(1), self.machine, fuel);
                        } else {
                            assert(run_loop(body, self.machine, fuel + 1) == Some(
                                Halt { machine: self.machine, outcome: Outcome::Completed },
                            ));
                            lemma_run_monotonic(whole.skip(1), self.machine, fuel, fuel + 1);
                        }
                    },
                    Instr::MovePointer(delta) => {
                        if self.machine.can_move(delta) {
                            lemma_run_monotonic(
                                whole.skip(1),
                                self.machine.step(Instr::MovePointer(delta)).machine,
                                fuel,
                                fuel + 1,
                            );
                        }
                    },
                    Instr::Read => {
                        if self.starved() {
                            lemma_run_monotonic(whole, self.machine, fuel, fuel + 1);
                        } else {
                            lemma_run_monotonic(
                                whole.skip(1),
                                self.machine.step(Instr::Read).machine,
                                fuel,
                                fuel + 1,
                            );
                        }
                    },
                    other => {
                        lemma_run_monotonic(
                            whole.skip(1),
                            self.machine.step(other).machine,
                            fuel,
                            fuel + 1,
                        );
                    },
                }
            }
        }
    }

    /// A number of steps keeps the configuration well-formed.
    pub proof fn lemma_advance_by_wf(self, budget: nat)
        requires
            self.wf(),
        ensures
            self.advance_by(budget).wf(),
        decreases budget,
    {
        if budget > 0 && self.progress() == Progress::Running {
            self.lemma_advance_wf();
            self.advance().lemma_advance_by_wf((budget - 1) as nat);
        }
    }

    /// A number of steps keeps how the run ends: what the run after the steps
    /// ends in, the run before them ends in, on one more unit of fuel for
    /// each step.
    pub proof fn lemma_advance_by_backward(self, budget: nat, fuel: nat)
        requires
            self.wf(),
            self.advance_by(budget).result(fuel) is Some,
        ensures
            self.result(fuel + budget) == self.advance_by(budget).result(fuel),
        decreases budget,
    {
        if budget > 0 && self.progress() == Progress::Running {
            self.lemma_advance_wf();
            self.advance().lemma_advance_by_backward((budget - 1) as nat, fuel);
            self.lemma_advance_backward((fuel + budget - 1) as nat);
        } else {
            match self.outcome {
                Some(_) => {},
                None => lemma_run_monotonic(rest(self.frames), self.machine, fuel, fuel + budget),
            }
        }
    }
}

/// Where the interpreter ends a run, the program ends in the same way by the
/// semantics: with the same outcome, tape, pointer, input left and output.
pub proof fn lemma_interpreter_sound(
    program: Seq<Instr>,
    machine: Machine,
    input_closed: bool,
    budget: nat,
)
    requires
        machine.wf(),
    ensures
        Config::start(program, machine, input_closed).advance_by(budget).outcome matches Some(
            outcome,
        ) ==> run(program, machine, budget) == Some(
            Halt {
                machine: Config::start(program, machine, input_closed).advance_by(budget).machine,
                outcome,
            },
        ),
{
    let start = Config::start(program, machine, input_closed);
    assert(start.frames.drop_last() =~= Seq::<Position>::empty());
    assert(rest(start.frames) =~= program) by {
        assert(program.skip(0) =~= program);
        assert(rest(start.frames.drop_last()) =~= Seq::<Instr>::empty());
    }
    if start.advance_by(budget).outcome is Some {
        start.lemma_advance_by_backward(budget, 0);
    }
}

impl Config {
    /// The configuration with the last frame at its end, on another machine.
    pub open spec fn at_end(self, machine: Machine) -> Config {
        Config {
            frames: self.frames.update(
                self.frames.len() - 1,
                Position { index: self.frames.last().nodes.len(), ..self.frames.last() },
            ),
            machine,
            ..self
        }
    }

    /// The configuration with the last frame past its instruction, on another
    /// machine.
    pub open spec fn moved_on(self, machine: Machine) -> Config {
        Config { frames: self.past(), machine, ..self }
    }

    /// Whether a number of steps brings the run to where the semantics says
    /// it stops: to `completed` where the halt is a completion, to the end
    /// of the run where it is a fault.
    pub open spec fn arrives(self, steps: nat, halt: Halt, completed: Config) -> bool {
        if halt.outcome == Outcome::Completed {
            self.advance_by(steps) == completed
        } else {
            self.advance_by(steps).outcome == Some(halt.outcome) && self.advance_by(steps).machine
                == halt.machine
        }
    }

    /// Steps add up.
    pub proof fn lemma_advance_by_add(self, first: nat, second: nat)
        ensures
            self.advance_by(first + second) == self.advance_by(first).advance_by(second),
        decreases first,
    {
        if first > 0 && self.progress() == Progress::Running {
            self.advance().lemma_advance_by_add((first - 1) as nat, second);
        }
    }

    /// With its input closed, the interpreter walks the rest of the last
    /// frame as the semantics runs it.
    proof fn lemma_reaches(self, fuel: nat) -> (steps: nat)
        requires
            self.wf(),
            self.input_closed,
            self.outcome is None,
            self.frames.len() > 0,
            run(
                self.frames.last().nodes.skip(self.frames.last().index as int),
                self.machine,
                fuel,
            ) is Some,
        ensures
            ({
                let halt = run(
                    self.frames.last().nodes.skip(self.frames.last().index as int),
                    self.machine,
                    fuel,
                )->0;
                self.arrives(steps, halt, self.at_end(halt.machine))
            }),
        decreases fuel, self.frames.last().nodes.len() - self.frames.last().index + 1,
    {
        let top = self.frames.last();
        let left = top.nodes.skip(top.index as int);
        let halt = run(left, self.machine, fuel)->0;
        if top.index >= top.nodes.len() {
            assert(self.at_end(halt.machine).frames =~= self.frames);
            0
        } else {
            let instr = top.nodes[top.index as int];
            assert(left[0] == instr);
            assert(left.skip(1) =~= top.nodes.skip(top.index as int + 1));
            assert(self.progress() == Progress::Running);
            self.lemma_advance_wf();
            match instr {
                Instr::Loop(body) => {
                    let through = self.lemma_reaches_loop(fuel);
                    let after = run_loop(body, self.machine, fuel)->0;
                    if after.outcome == Outcome::Completed {
                        let next = self.moved_on(after.machine);
                        self.lemma_advance_by_wf(through);
                        let onward = next.lemma_reaches(fuel);
                        self.lemma_advance_by_add(through, onward);
                        assert(next.at_end(halt.machine).frames =~= self.at_end(
                            halt.machine,
                        ).frames);
                        through + onward
                    } else {
                        through
                    }
                },
                other => {
                    let stepped = self.machine.step(other);
                    if stepped.outcome == Outcome::Completed {
                        let next = self.advance();
                        assert(next == self.moved_on(stepped.machine));
                        let onward = next.lemma_reaches(fuel);
                        assert(next.at_end(halt.machine).frames =~= self.at_end(
                            halt.machine,
                        ).frames);
                        assert(self.advance_by(onward + 1) == next.advance_by(onward));
                        onward + 1
                    } else {
                        assert(self.advance_by(1) == self.advance().advance_by(0));
                        1
                    }
                },
            }
        }
    }

    /// With its input closed, the interpreter walks a loop as the semantics
    /// runs it.
    proof fn lemma_reaches_loop(self, fuel: nat) -> (steps: nat)
        requires
            self.wf(),
            self.input_closed,
            self.outcome is None,
            self.frames.len() > 0,
            self.frames.last().index < self.frames.last().nodes.len(),
            self.frames.last().nodes[self.frames.last().index as int] is Loop,
            run_loop(
                self.frames.last().nodes[self.frames.last().index as int]->Loop_0,
                self.machine,
                fuel,
            ) is Some,
        ensures
            ({
                let halt = run_loop(
                    self.frames.last().nodes[self.frames.last().index as int]->Loop_0,
                    self.machine,
                    fuel,
                )->0;
                self.arrives(steps, halt, self.moved_on(halt.machine))
            }),
        decreases fuel, 0nat,
    {
        let top = self.frames.last();
        let body = top.nodes[top.index as int]->Loop_0;
        assert(self.progress() == Progress::Running);
        self.lemma_advance_wf();
        if self.machine.cell() == 0 {
            assert(self.advance_by(1) == self.advance().advance_by(0));
            1
        } else {
            let less = (fuel - 1) as nat;
            let inside = self.advance();
            assert(inside.frames.last() == Position { nodes: body, index: 0 });
            assert(body.skip(0) =~= body);
            let within = inside.lemma_reaches(less);
            let first = run(body, self.machine, less)->0;
            assert(self.advance_by(within + 1) == inside.advance_by(within));
            if first.outcome == Outcome::Completed {
                let done = inside.at_end(first.machine);
                inside.lemma_advance_by_wf(within);
                let again = done.advance();
                assert(done.frames.drop_last() =~= self.frames);
                assert(again == Config { machine: first.machine, ..self });
                assert(done.progress() == Progress::Running);
                done.lemma_advance_wf();
                let onward = again.lemma_reaches_loop(less);
                assert(done.advance_by(onward + 1) == again.advance_by(onward));
                inside.lemma_advance_by_add(within, onward + 1);
                assert(self.advance_by(within + (onward + 1) + 1) == inside.advance_by(
                    within + (onward + 1),
                ));
                within + (onward + 1) + 1
            } else {
                within + 1
            }
        }
    }
}

/// Where the program ends by the semantics, the interpreter, given the whole
/// input and the number of steps that is returned, ends the run in the same
/// way: with the same outcome, tape, pointer, input left and output.
pub proof fn lemma_interpreter_complete(program: Seq<Instr>, machine: Machine, fuel: nat) -> (budget:
    nat)
    requires
        machine.wf(),
        run(program, machine, fuel) is Some,
    ensures
        Config::start(program, machine, true).advance_by(budget).outcome == Some(
            run(program, machine, fuel)->0.outcome,
        ),
        Config::start(program, machine, true).advance_by(budget).machine == run(
            program,
            machine,
            fuel,
        )->0.machine,
{
    let start = Config::start(program, machine, true);
    let halt = run(program, machine, fuel)->0;
    assert(program.skip(0) =~= program);
    let steps = start.lemma_reaches(fuel);
    if halt.outcome == Outcome::Completed {
        let walked = start.at_end(halt.machine);
        assert(walked.progress() == Progress::Running);
        assert(walked.advance_by(1) == walked.advance().advance_by(0));
        start.lemma_advance_by_add(steps, 1);
        steps + 1
    } else {
        steps
    }
}

} // verus!
