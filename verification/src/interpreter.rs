//! The executor: a program tree run over a growable tape of bytes.
//!
//! The executor never touches the outside world. It runs until the program
//! has a byte to write or needs one to read, and says so; whoever drives it
//! does the writing and reading and lets it run on.
use vstd::prelude::*;
use crate::grammar::{
    lemma_loop_view, nodes, well_formed, well_formed_node, Expression, Node, Operators, Token,
};

verus! {

/// By how many cells the tape grows at a time, and how many it has at first.
pub const TAPE_CHUNK: usize = 10;

/// Why a run cannot go on.
#[derive(Debug, Copy, Clone, PartialEq, Eq, Structural)]
pub enum RuntimeFault {
    /// A move to the left of the first cell.
    PointerUnderflow,
    /// A move to the right of the last cell that the machine can address.
    PointerOverflow,
    /// A run of a bracket, which no well-formed program holds.
    InvariantViolation,
}

/// What the executor says when it stops.
#[derive(Debug, Copy, Clone, PartialEq, Eq, Structural)]
pub enum Signal {
    /// Nothing is asked of the outside; the run can go on.
    Continue,
    /// This byte is to be written to the output; then the run can go on.
    Output(u8),
    /// The program waits for a byte of input.
    AwaitInput,
    /// The program has come to its end.
    Halted,
    /// The run has failed, and stays where it is.
    Fault(RuntimeFault),
}

/// The state of a run.
pub struct Machine {
    /// The cells of the tape.
    pub tape: Seq<u8>,
    /// The cell that the program works on.
    pub cursor: nat,
    /// What is left to run, the next node first.
    pub rest: Seq<Node>,
}

/// `n` cells of value 0.
pub open spec fn zeros(n: nat) -> Seq<u8> {
    Seq::new(n, |i: int| 0u8)
}

/// How long a tape of `len` cells is once it has grown, chunk by chunk, to
/// hold the cell at `cursor`.
pub open spec fn grown_len(len: nat, cursor: nat) -> nat {
    if cursor < len {
        len
    } else {
        len + TAPE_CHUNK as nat * ((cursor - len) / TAPE_CHUNK as int + 1) as nat
    }
}

/// The tape once it has grown to hold the cell at `cursor`: the cells that
/// it had, and zeros behind them.
pub open spec fn grown(tape: Seq<u8>, cursor: nat) -> Seq<u8> {
    tape + zeros((grown_len(tape.len(), cursor) - tape.len()) as nat)
}

/// A cell after `count` increments.
pub open spec fn add_wrapped(cell: u8, count: nat) -> u8 {
    ((cell + count) % 256) as u8
}

/// A cell after `count` decrements.
pub open spec fn sub_wrapped(cell: u8, count: nat) -> u8 {
    ((cell + 256 - (count % 256)) % 256) as u8
}

/// What is left to run once one unit of the first node, a run of output or
/// of input, is done.
pub open spec fn after_unit(rest: Seq<Node>) -> Seq<Node> {
    match rest[0] {
        Node::Op(t, c) => if c > 1 {
            rest.update(0, Node::Op(t, (c - 1) as nat))
        } else {
            rest.drop_first()
        },
        Node::Loop(_) => rest,
    }
}

/// The cursor stands on a cell of the tape.
pub open spec fn in_bounds(m: Machine) -> bool {
    m.cursor < m.tape.len()
}

/// One step of a run: the state that follows `m`, and what the step asks of
/// the outside.
///
/// A loop whose cell is zero is dropped; one whose cell is not is entered,
/// and stays in place behind its body to be tested again. A run of moves,
/// increments or decrements takes effect at once. A run of output gives one
/// byte for each step, and a run of input waits for its byte.
pub open spec fn step(m: Machine) -> (Machine, Signal) {
    if m.rest.len() == 0 {
        (m, Signal::Halted)
    } else {
        let tail = m.rest.drop_first();
        let cell = m.tape[m.cursor as int];
        match m.rest[0] {
            Node::Loop(body) => if cell == 0 {
                (Machine { rest: tail, ..m }, Signal::Continue)
            } else {
                (Machine { rest: body + m.rest, ..m }, Signal::Continue)
            },
            Node::Op(Token::MoveForward, c) => if m.cursor + c > usize::MAX {
                (m, Signal::Fault(RuntimeFault::PointerOverflow))
            } else {
                (
                    Machine { tape: grown(m.tape, m.cursor + c), cursor: m.cursor + c, rest: tail },
                    Signal::Continue,
                )
            },
            Node::Op(Token::MoveBack, c) => if c > m.cursor {
                (m, Signal::Fault(RuntimeFault::PointerUnderflow))
            } else {
                (Machine { cursor: (m.cursor - c) as nat, rest: tail, ..m }, Signal::Continue)
            },
            Node::Op(Token::Add, c) => (
                Machine { tape: m.tape.update(m.cursor as int, add_wrapped(cell, c)), rest: tail, ..m },
                Signal::Continue,
            ),
            Node::Op(Token::Sub, c) => (
                Machine { tape: m.tape.update(m.cursor as int, sub_wrapped(cell, c)), rest: tail, ..m },
                Signal::Continue,
            ),
            Node::Op(Token::StdOut, c) => if c == 0 {
                (Machine { rest: tail, ..m }, Signal::Continue)
            } else {
                (Machine { rest: after_unit(m.rest), ..m }, Signal::Output(cell))
            },
            Node::Op(Token::StdIn, c) => if c == 0 {
                (Machine { rest: tail, ..m }, Signal::Continue)
            } else {
                (m, Signal::AwaitInput)
            },
            Node::Op(_, _) => (m, Signal::Fault(RuntimeFault::InvariantViolation)),
        }
    }
}

/// The program waits for a byte of input.
pub open spec fn awaiting(m: Machine) -> bool {
    &&& m.rest.len() > 0
    &&& m.rest[0] matches Node::Op(t, c)
    &&& t == Token::StdIn
    &&& c > 0
}

/// The state after the input that `m` waits for has come: with a byte, the
/// byte is in the cell under the cursor; with none, the cell is as it was.
/// Either way the run goes on behind that one read.
pub open spec fn supply(m: Machine, input: Option<u8>) -> Machine {
    Machine {
        tape: match input {
            Some(byte) => m.tape.update(m.cursor as int, byte),
            None => m.tape,
        },
        cursor: m.cursor,
        rest: after_unit(m.rest),
    }
}

/// A run of at most `fuel` steps that stops at the first step that asks
/// something of the outside, halts or fails.
pub open spec fn run(m: Machine, fuel: nat) -> (Machine, Signal)
    decreases fuel,
{
    if fuel == 0 {
        (m, Signal::Continue)
    } else {
        let (next, signal) = step(m);
        if signal == Signal::Continue {
            run(next, (fuel - 1) as nat)
        } else {
            (next, signal)
        }
    }
}

/// What a run over given input has come to: the state it stands in, the
/// bytes it has written, how many inputs it has taken, and the signal it
/// stopped on.
pub struct Course {
    /// The state that the run stands in.
    pub state: Machine,
    /// The bytes that the program has written, in order.
    pub output: Seq<u8>,
    /// How many inputs the program has taken.
    pub taken: nat,
    /// The signal that the run stopped on.
    pub end: Signal,
}

/// A run of at most `fuel` steps over the inputs `input`, which are taken
/// in order, one for each read: a byte, or `None` for a read that fails.
/// What the program writes is gathered. The run stops when the program
/// halts or fails, when it waits for input and none is left, or when the
/// fuel is used up, which `Signal::Continue` stands for.
pub open spec fn drive(m: Machine, input: Seq<Option<u8>>, fuel: nat) -> Course
    decreases fuel,
{
    if fuel == 0 {
        Course { state: m, output: Seq::empty(), taken: 0, end: Signal::Continue }
    } else {
        let (next, signal) = step(m);
        match signal {
            Signal::Continue => drive(next, input, (fuel - 1) as nat),
            Signal::Output(byte) => {
                let then = drive(next, input, (fuel - 1) as nat);
                Course { output: seq![byte] + then.output, ..then }
            },
            Signal::AwaitInput => if input.len() == 0 {
                Course { state: m, output: Seq::empty(), taken: 0, end: Signal::AwaitInput }
            } else {
                let then = drive(supply(m, input[0]), input.drop_first(), (fuel - 1) as nat);
                Course { taken: then.taken + 1, ..then }
            },
            _ => Course { state: next, output: Seq::empty(), taken: 0, end: signal },
        }
    }
}

/// A course that follows on `output` written and `taken` inputs read.
pub open spec fn after(output: Seq<u8>, taken: nat, then: Course) -> Course {
    Course { output: output + then.output, taken: taken + then.taken, ..then }
}

/// A step leaves the cursor on a cell of the tape, and every cell that the
/// tape had stays a cell of the tape.
pub proof fn lemma_step_in_bounds(m: Machine)
    requires
        in_bounds(m),
    ensures
        in_bounds(step(m).0),
        step(m).0.tape.len() >= m.tape.len(),
{
}

/// A tape that grows keeps the cells that it had, has zeros in its new
/// cells, holds the cell that it grew for, and grows by whole chunks.
pub proof fn lemma_grown(tape: Seq<u8>, cursor: nat)
    ensures
        grown(tape, cursor).len() > cursor,
        grown(tape, cursor).len() >= tape.len(),
        (grown(tape, cursor).len() - tape.len()) % TAPE_CHUNK as int == 0,
        cursor < tape.len() ==> grown(tape, cursor) == tape,
        forall|i: int| 0 <= i < tape.len() ==> grown(tape, cursor)[i] == tape[i],
        forall|i: int| tape.len() <= i < grown(tape, cursor).len() ==> grown(tape, cursor)[i] == 0,
{
    if cursor < tape.len() {
        assert(grown(tape, cursor) =~= tape);
    }
}

/// A move to the right changes no cell that the tape had.
pub proof fn lemma_move_right_keeps_cells(m: Machine, c: nat)
    requires
        in_bounds(m),
        m.rest.len() > 0,
        m.rest[0] == Node::Op(Token::MoveForward, c),
        m.cursor + c <= usize::MAX,
    ensures
        step(m).0.cursor == m.cursor + c,
        step(m).0.tape.len() > m.cursor + c,
        forall|i: int| 0 <= i < m.tape.len() ==> step(m).0.tape[i] == m.tape[i],
{
    lemma_grown(m.tape, m.cursor + c);
}

/// A run of a well-formed program never fails for a run of a bracket,
/// and what is left of the program after a step is well formed.
pub proof fn lemma_step_well_formed(m: Machine)
    requires
        well_formed(m.rest),
    ensures
        step(m).1 != Signal::Fault(RuntimeFault::InvariantViolation),
        well_formed(step(m).0.rest),
{
    if m.rest.len() > 0 {
        let tail = m.rest.drop_first();
        assert(well_formed_node(m.rest[0]));
        assert forall|i: int| 0 <= i < tail.len() implies well_formed_node(#[trigger] tail[i]) by {
            assert(well_formed_node(m.rest[i + 1]));
        }
        lemma_after_unit_well_formed(m.rest);
        match m.rest[0] {
            Node::Loop(body) => {
                let entered = body + m.rest;
                assert forall|i: int| 0 <= i < entered.len() implies well_formed_node(
                    #[trigger] entered[i],
                ) by {
                    if i < body.len() {
                        assert(well_formed_node(body[i]));
                    } else {
                        assert(well_formed_node(m.rest[i - body.len()]));
                    }
                }
            },
            Node::Op(_, _) => {},
        }
    }
}

/// What is left of a well-formed program after one unit of output or input
/// is well formed.
pub proof fn lemma_after_unit_well_formed(rest: Seq<Node>)
    requires
        well_formed(rest),
        rest.len() > 0,
    ensures
        well_formed(after_unit(rest)),
{
    let after = after_unit(rest);
    assert(well_formed_node(rest[0]));
    assert forall|i: int| 0 <= i < after.len() implies well_formed_node(#[trigger] after[i]) by {
        match rest[0] {
            Node::Op(t, c) => {
                if c > 1 {
                    if i > 0 {
                        assert(well_formed_node(rest[i]));
                    }
                } else {
                    assert(well_formed_node(rest[i + 1]));
                }
            },
            Node::Loop(_) => {
                assert(well_formed_node(rest[i]));
            },
        }
    }
}

/// An empty loop on a cell that is not zero never ends: however many steps
/// a run takes, it stands where it stood.
pub proof fn lemma_empty_loop_spins(m: Machine, fuel: nat)
    requires
        m.rest.len() > 0,
        m.rest[0] == Node::Loop(Seq::<Node>::empty()),
        m.tape[m.cursor as int] != 0,
    ensures
        run(m, fuel) == (m, Signal::Continue),
    decreases fuel,
{
    if fuel > 0 {
        assert(Seq::<Node>::empty() + m.rest =~= m.rest);
        lemma_empty_loop_spins(m, (fuel - 1) as nat);
    }
}

/// A loop on a cell that is zero is left out, whatever its body.
pub proof fn lemma_zero_loop_skipped(m: Machine, body: Seq<Node>)
    requires
        m.rest.len() > 0,
        m.rest[0] == Node::Loop(body),
        m.tape[m.cursor as int] == 0,
    ensures
        step(m) == (Machine { rest: m.rest.drop_first(), ..m }, Signal::Continue),
{
}

/// A step looks at the first node only: with more to run behind it, a
/// program takes the same step, and has that much more left. So the nodes of
/// a sequence run one after the other, each in its turn.
pub proof fn lemma_step_frame(m: Machine, behind: Seq<Node>)
    requires
        m.rest.len() > 0,
    ensures
        step(Machine { rest: m.rest + behind, ..m }) == (
            Machine { rest: step(m).0.rest + behind, ..step(m).0 },
            step(m).1,
        ),
{
    let longer = Machine { rest: m.rest + behind, ..m };
    assert(longer.rest[0] == m.rest[0]);
    assert(longer.rest.drop_first() =~= m.rest.drop_first() + behind);
    assert(after_unit(longer.rest) =~= after_unit(m.rest) + behind);
    match m.rest[0] {
        Node::Loop(body) => {
            assert(body + longer.rest =~= (body + m.rest) + behind);
        },
        Node::Op(_, _) => {},
    }
}

/// A run that has stopped for the outside, halted or failed stops at the
/// same place however much more fuel it is given.
pub proof fn lemma_run_more_fuel(m: Machine, fuel: nat, more: nat)
    requires
        run(m, fuel).1 != Signal::Continue,
        fuel <= more,
    ensures
        run(m, more) == run(m, fuel),
    decreases fuel,
{
    if fuel > 0 && step(m).1 == Signal::Continue {
        lemma_run_more_fuel(step(m).0, (fuel - 1) as nat, (more - 1) as nat);
    }
}

/// A tape that has grown for one cell and grows for a cell further on is
/// the tape grown for the further cell at once.
pub proof fn lemma_grown_twice(tape: Seq<u8>, near: nat, far: nat)
    requires
        near <= far,
    ensures
        grown(grown(tape, near), far) == grown(tape, far),
{
    assert(grown_len(grown_len(tape.len(), near), far) == grown_len(tape.len(), far));
    assert(grown(grown(tape, near), far) =~= grown(tape, far));
}

/// Increments add up.
pub proof fn lemma_add_wrapped_twice(cell: u8, a: nat, b: nat)
    ensures
        add_wrapped(add_wrapped(cell, a), b) == add_wrapped(cell, a + b),
{
    let x = cell as int;
    assert(((x + a) % 256 + b) % 256 == (x + (a + b)) % 256) by (nonlinear_arith)
        requires
            0 <= x < 256,
            0 <= a,
            0 <= b,
    ;
}

/// Decrements add up.
pub proof fn lemma_sub_wrapped_twice(cell: u8, a: nat, b: nat)
    ensures
        sub_wrapped(sub_wrapped(cell, a), b) == sub_wrapped(cell, a + b),
{
    let x = cell as int;
    assert(((x + 256 - a % 256) % 256 + 256 - b % 256) % 256 == (x + 256 - (a + b) % 256) % 256)
        by (nonlinear_arith)
        requires
            0 <= x < 256,
            0 <= a,
            0 <= b,
    ;
}

/// The two runs of `lemma_runs_add_up`, and the run of both counts.
spec fn two_runs(m: Machine, t: Token, a: nat, b: nat, behind: Seq<Node>) -> (Machine, Machine) {
    (
        Machine { rest: seq![Node::Op(t, a), Node::Op(t, b)] + behind, ..m },
        Machine { rest: seq![Node::Op(t, a + b)] + behind, ..m },
    )
}

/// What is left of the two runs and of the one: after the first of the
/// two, the second; after the second, or the one, what is behind.
proof fn lemma_two_runs_rest(m: Machine, t: Token, a: nat, b: nat, behind: Seq<Node>)
    ensures
        two_runs(m, t, a, b, behind).0.rest[0] == Node::Op(t, a),
        two_runs(m, t, a, b, behind).0.rest.drop_first() == seq![Node::Op(t, b)] + behind,
        (seq![Node::Op(t, b)] + behind)[0] == Node::Op(t, b),
        (seq![Node::Op(t, b)] + behind).drop_first() == behind,
        two_runs(m, t, a, b, behind).1.rest[0] == Node::Op(t, a + b),
        two_runs(m, t, a, b, behind).1.rest.drop_first() == behind,
        two_runs(m, t, a, b, behind).0.rest.len() > 0,
        two_runs(m, t, a, b, behind).1.rest.len() > 0,
        (seq![Node::Op(t, b)] + behind).len() > 0,
{
    let (two, one) = two_runs(m, t, a, b, behind);
    assert(two.rest.drop_first() =~= seq![Node::Op(t, b)] + behind);
    assert((seq![Node::Op(t, b)] + behind).drop_first() =~= behind);
    assert(one.rest.drop_first() =~= behind);
}

/// Two runs of moves to the left add up.
proof fn lemma_move_back_twice(m: Machine, a: nat, b: nat, behind: Seq<Node>)
    requires
        a + b <= m.cursor,
    ensures
        step(two_runs(m, Token::MoveBack, a, b, behind).0).1 == Signal::Continue,
        step(step(two_runs(m, Token::MoveBack, a, b, behind).0).0) == step(
            two_runs(m, Token::MoveBack, a, b, behind).1,
        ),
{
    let t = Token::MoveBack;
    let (two, one) = two_runs(m, t, a, b, behind);
    lemma_two_runs_rest(m, t, a, b, behind);
    let between = seq![Node::Op(t, b)] + behind;
    let first = Machine { cursor: (m.cursor - a) as nat, rest: between, ..m };
    let last = Machine { cursor: (m.cursor - a - b) as nat, rest: behind, ..m };
    assert(step(one) == (last, Signal::Continue));
    assert(step(two) == (first, Signal::Continue));
    assert(step(first) == (last, Signal::Continue));
}

/// Two runs of moves to the right add up.
proof fn lemma_move_forward_twice(m: Machine, a: nat, b: nat, behind: Seq<Node>)
    requires
        m.cursor + a + b <= usize::MAX,
    ensures
        step(two_runs(m, Token::MoveForward, a, b, behind).0).1 == Signal::Continue,
        step(step(two_runs(m, Token::MoveForward, a, b, behind).0).0) == step(
            two_runs(m, Token::MoveForward, a, b, behind).1,
        ),
{
    let t = Token::MoveForward;
    let (two, one) = two_runs(m, t, a, b, behind);
    lemma_two_runs_rest(m, t, a, b, behind);
    let between = seq![Node::Op(t, b)] + behind;
    let first = Machine { tape: grown(m.tape, m.cursor + a), cursor: m.cursor + a, rest: between };
    let last = Machine {
        tape: grown(m.tape, m.cursor + a + b),
        cursor: m.cursor + a + b,
        rest: behind,
    };
    lemma_grown_twice(m.tape, m.cursor + a, m.cursor + a + b);
    assert(step(one) == (last, Signal::Continue));
    assert(step(two) == (first, Signal::Continue));
    assert(step(first) == (last, Signal::Continue));
}

/// Two runs of increments add up.
proof fn lemma_add_twice(m: Machine, a: nat, b: nat, behind: Seq<Node>)
    requires
        in_bounds(m),
    ensures
        step(two_runs(m, Token::Add, a, b, behind).0).1 == Signal::Continue,
        step(step(two_runs(m, Token::Add, a, b, behind).0).0) == step(
            two_runs(m, Token::Add, a, b, behind).1,
        ),
{
    let t = Token::Add;
    let (two, one) = two_runs(m, t, a, b, behind);
    lemma_two_runs_rest(m, t, a, b, behind);
    let cell = m.tape[m.cursor as int];
    let between = seq![Node::Op(t, b)] + behind;
    let first = Machine {
        tape: m.tape.update(m.cursor as int, add_wrapped(cell, a)),
        rest: between,
        ..m
    };
    let last = Machine {
        tape: m.tape.update(m.cursor as int, add_wrapped(cell, a + b)),
        rest: behind,
        ..m
    };
    lemma_add_wrapped_twice(cell, a, b);
    assert(first.tape.update(m.cursor as int, add_wrapped(cell, a + b)) =~= last.tape);
    assert(step(one) == (last, Signal::Continue));
    assert(step(two) == (first, Signal::Continue));
    assert(step(first) == (last, Signal::Continue));
}

/// Two runs of decrements add up.
proof fn lemma_sub_twice(m: Machine, a: nat, b: nat, behind: Seq<Node>)
    requires
        in_bounds(m),
    ensures
        step(two_runs(m, Token::Sub, a, b, behind).0).1 == Signal::Continue,
        step(step(two_runs(m, Token::Sub, a, b, behind).0).0) == step(
            two_runs(m, Token::Sub, a, b, behind).1,
        ),
{
    let t = Token::Sub;
    let (two, one) = two_runs(m, t, a, b, behind);
    lemma_two_runs_rest(m, t, a, b, behind);
    let cell = m.tape[m.cursor as int];
    let between = seq![Node::Op(t, b)] + behind;
    let first = Machine {
        tape: m.tape.update(m.cursor as int, sub_wrapped(cell, a)),
        rest: between,
        ..m
    };
    let last = Machine {
        tape: m.tape.update(m.cursor as int, sub_wrapped(cell, a + b)),
        rest: behind,
        ..m
    };
    lemma_sub_wrapped_twice(cell, a, b);
    assert(first.tape.update(m.cursor as int, sub_wrapped(cell, a + b)) =~= last.tape);
    assert(step(one) == (last, Signal::Continue));
    assert(step(two) == (first, Signal::Continue));
    assert(step(first) == (last, Signal::Continue));
}

/// Two runs of moves, increments or decrements of one symbol, one after
/// the other, do what one run with the sum of their counts does, where that
/// run does not fail.
pub proof fn lemma_runs_add_up(m: Machine, t: Token, a: nat, b: nat, behind: Seq<Node>)
    requires
        in_bounds(m),
        t.works_on_tape(),
        m.rest == seq![Node::Op(t, a), Node::Op(t, b)] + behind,
        step(Machine { rest: seq![Node::Op(t, a + b)] + behind, ..m }).1 == Signal::Continue,
    ensures
        step(m).1 == Signal::Continue,
        step(step(m).0) == step(Machine { rest: seq![Node::Op(t, a + b)] + behind, ..m }),
{
    assert(two_runs(m, t, a, b, behind).0 == m);
    lemma_two_runs_rest(m, t, a, b, behind);
    match t {
        Token::MoveBack => {
            lemma_move_back_twice(m, a, b, behind);
        },
        Token::MoveForward => {
            lemma_move_forward_twice(m, a, b, behind);
        },
        Token::Add => {
            lemma_add_twice(m, a, b, behind);
        },
        Token::Sub => {
            lemma_sub_twice(m, a, b, behind);
        },
        _ => {},
    }
}

/// Where two runs of moves, increments or decrements of one symbol go
/// through one after the other, the one run with the sum of their counts
/// goes through.
pub proof fn lemma_runs_go_through(m: Machine, t: Token, a: nat, b: nat, behind: Seq<Node>)
    requires
        t.works_on_tape(),
        m.rest == seq![Node::Op(t, a), Node::Op(t, b)] + behind,
        step(m).1 == Signal::Continue,
        step(step(m).0).1 == Signal::Continue,
    ensures
        step(Machine { rest: seq![Node::Op(t, a + b)] + behind, ..m }).1 == Signal::Continue,
{
    assert(two_runs(m, t, a, b, behind).0 == m);
    lemma_two_runs_rest(m, t, a, b, behind);
    let between = seq![Node::Op(t, b)] + behind;
    match t {
        Token::MoveBack => {
            let first = Machine { cursor: (m.cursor - a) as nat, rest: between, ..m };
            assert(step(m) == (first, Signal::Continue));
        },
        Token::MoveForward => {
            let first = Machine {
                tape: grown(m.tape, m.cursor + a),
                cursor: m.cursor + a,
                rest: between,
            };
            assert(step(m) == (first, Signal::Continue));
        },
        _ => {},
    }
}

/// A loop that is open, or the program itself, and how far the run has come
/// in it.
#[derive(Debug, Copy, Clone)]
struct Frame<'a> {
    body: &'a [Expression],
    next: usize,
}

/// What is left of a frame.
spec fn frame_rest(f: Frame) -> Seq<Node> {
    nodes(f.body@).skip(f.next as int)
}

/// What is left of all frames, the innermost loop first.
spec fn below(frames: Seq<Frame>) -> Seq<Node>
    decreases frames.len(),
{
    if frames.len() == 0 {
        Seq::empty()
    } else {
        frame_rest(frames.last()) + below(frames.drop_last())
    }
}

/// The node that the run has reached.
spec fn head(frames: Seq<Frame>) -> Node {
    nodes(frames.last().body@)[frames.last().next as int]
}

/// What is left to run when `units` units of the node reached are done.
spec fn rest_of(frames: Seq<Frame>, units: nat) -> Seq<Node> {
    if units == 0 {
        below(frames)
    } else {
        below(frames).update(0, Node::Op(head(frames)->Op_0, (head(frames)->Op_1 - units) as nat))
    }
}

/// Every frame has a node left, each but the innermost stands at the loop
/// that the next frame is the body of, and units are counted only of a run
/// of output or input that has more of them.
spec fn frames_wf(frames: Seq<Frame>, units: nat) -> bool {
    &&& forall|i: int|
        0 <= i < frames.len() ==> (#[trigger] frames[i]).next < frames[i].body@.len()
    &&& forall|i: int|
        0 <= i < frames.len() - 1 ==> nodes((#[trigger] frames[i]).body@)[frames[i].next as int]
            == Node::Loop(nodes(frames[i + 1].body@))
    &&& units > 0 ==> {
        &&& frames.len() > 0
        &&& head(frames) matches Node::Op(t, c)
        &&& (t == Token::StdOut || t == Token::StdIn)
        &&& units < c
    }
}

/// The first node left is the node reached.
proof fn lemma_below_head(frames: Seq<Frame>)
    requires
        frames.len() > 0,
        frames.last().next < frames.last().body@.len(),
    ensures
        below(frames).len() > 0,
        below(frames)[0] == head(frames),
        head(frames) == frames.last().body@[frames.last().next as int]@,
        below(frames).drop_first() == nodes(frames.last().body@).skip(frames.last().next + 1)
            + below(frames.drop_last()),
{
    let top = frames.last();
    assert(below(frames).drop_first() =~= nodes(top.body@).skip(top.next + 1) + below(
        frames.drop_last(),
    ));
}

/// The executor of one program.
#[derive(Debug)]
pub struct Interpreter<'a> {
    /// The memory that the program uses.
    memory_cells: Vec<u8>,
    /// The index of the cell that the program works on.
    cell_ptr: usize,
    /// The program and the loops that are open in it, the outermost first.
    frames: Vec<Frame<'a>>,
    /// How many units of the run that is being executed are done.
    units_done: u32,
}

impl<'a> View for Interpreter<'a> {
    type V = Machine;

    closed spec fn view(&self) -> Machine {
        Machine {
            tape: self.memory_cells@,
            cursor: self.cell_ptr as nat,
            rest: rest_of(self.frames@, self.units_done as nat),
        }
    }
}

impl<'a> Interpreter<'a> {
    /// The executor is in order: above all, the cursor stands on a cell.
    pub closed spec fn wf(&self) -> bool {
        &&& self.cell_ptr < self.memory_cells.len()
        &&& frames_wf(self.frames@, self.units_done as nat)
    }

    /// An executor at the start of `syntax_tree`, with a tape of one chunk
    /// of zeros and the cursor on its first cell.
    pub fn new(syntax_tree: &'a [Expression]) -> (interpreter: Self)
        ensures
            interpreter.wf(),
            interpreter@ == (Machine {
                tape: zeros(TAPE_CHUNK as nat),
                cursor: 0,
                rest: nodes(syntax_tree@),
            }),
    {
        let mut memory_cells: Vec<u8> = Vec::new();
        Self::push_chunk(&mut memory_cells);
        let mut frames: Vec<Frame<'a>> = Vec::new();
        if syntax_tree.len() > 0 {
            frames.push(Frame { body: syntax_tree, next: 0 });
        }
        proof {
            assert(memory_cells@ =~= zeros(TAPE_CHUNK as nat));
            if frames@.len() > 0 {
                assert(frames@.drop_last() =~= Seq::<Frame>::empty());
                assert(below(frames@.drop_last()) =~= Seq::<Node>::empty());
                assert(frame_rest(frames@.last()) =~= nodes(syntax_tree@));
            }
            assert(below(frames@) =~= nodes(syntax_tree@));
        }
        Interpreter { memory_cells, cell_ptr: 0, frames, units_done: 0 }
    }

    /// An executor that is in order has its cursor on a cell of its tape.
    pub proof fn lemma_wf_in_bounds(&self)
        requires
            self.wf(),
        ensures
            in_bounds(self@),
    {
    }

    /// The cells of the tape.
    pub fn memory_cells(&self) -> (cells: &Vec<u8>)
        ensures
            cells@ == self@.tape,
    {
        &self.memory_cells
    }

    /// The index of the cell under the cursor.
    pub fn cell_ptr(&self) -> (index: usize)
        ensures
            index == self@.cursor,
    {
        self.cell_ptr
    }

    /// Puts one chunk of zeros at the end of `cells`.
    fn push_chunk(cells: &mut Vec<u8>)
        ensures
            final(cells)@ == old(cells)@ + zeros(TAPE_CHUNK as nat),
    {
        let mut pushed: usize = 0;
        while pushed < TAPE_CHUNK
            invariant
                pushed <= TAPE_CHUNK,
                cells@ == old(cells)@ + zeros(pushed as nat),
            decreases TAPE_CHUNK - pushed,
        {
            cells.push(0);
            pushed += 1;
            assert(cells@ =~= old(cells)@ + zeros(pushed as nat));
        }
    }

    /// The value of the cell under the cursor.
    fn read_curr_cell(&self) -> (value: u8)
        requires
            self.cell_ptr < self.memory_cells.len(),
        ensures
            value == self.memory_cells@[self.cell_ptr as int],
    {
        self.memory_cells[self.cell_ptr]
    }

    /// Puts `num` into the cell under the cursor.
    fn write_to_cell(&mut self, num: u8)
        requires
            old(self).cell_ptr < old(self).memory_cells.len(),
        ensures
            final(self).memory_cells@ == old(self).memory_cells@.update(
                old(self).cell_ptr as int,
                num,
            ),
            final(self).cell_ptr == old(self).cell_ptr,
            final(self).frames == old(self).frames,
            final(self).units_done == old(self).units_done,
    {
        self.memory_cells.set(self.cell_ptr, num);
    }

    /// Lets the tape grow, chunk by chunk, until it holds the cell under the
    /// cursor.
    fn grow_cell_memory(&mut self)
        ensures
            final(self).memory_cells@ == grown(
                old(self).memory_cells@,
                old(self).cell_ptr as nat,
            ),
            final(self).cell_ptr < final(self).memory_cells.len(),
            final(self).cell_ptr == old(self).cell_ptr,
            final(self).frames == old(self).frames,
            final(self).units_done == old(self).units_done,
    {
        let ghost chunks: nat = 0;
        while self.memory_cells.len() <= self.cell_ptr
            invariant
                self.cell_ptr == old(self).cell_ptr,
                self.frames == old(self).frames,
                self.units_done == old(self).units_done,
                self.memory_cells@ == old(self).memory_cells@ + zeros(chunks * TAPE_CHUNK as nat),
                chunks > 0 ==> old(self).memory_cells.len() + (chunks - 1) * TAPE_CHUNK
                    <= self.cell_ptr,
            decreases self.cell_ptr + TAPE_CHUNK - self.memory_cells.len(),
        {
            let ghost before = self.memory_cells@;
            Self::push_chunk(&mut self.memory_cells);
            proof {
                chunks = chunks + 1;
                assert(self.memory_cells@ =~= old(self).memory_cells@ + zeros(
                    chunks * TAPE_CHUNK as nat,
                ));
            }
        }
        proof {
            if chunks == 0 {
                assert(self.memory_cells@ =~= old(self).memory_cells@ + zeros(0));
            }
        }
    }

    /// Leaves the node reached behind: the run stands at the node after it,
    /// or, at the end of a loop's body, at the loop again.
    fn advance(&mut self)
        requires
            old(self).frames.len() > 0,
            frames_wf(old(self).frames@, old(self).units_done as nat),
        ensures
            frames_wf(final(self).frames@, 0),
            final(self).units_done == 0,
            below(final(self).frames@) == below(old(self).frames@).drop_first(),
            final(self).memory_cells == old(self).memory_cells,
            final(self).cell_ptr == old(self).cell_ptr,
    {
        let ghost before = self.frames@;
        proof {
            lemma_below_head(before);
        }
        self.units_done = 0;
        match self.frames.pop() {
            Some(top) => {
                let len: usize = top.body.len();
                assert(top == before[before.len() - 1]);
                if top.next + 1 < len {
                    let moved = Frame { body: top.body, next: top.next + 1 };
                    self.frames.push(moved);
                    proof {
                        let after = self.frames@;
                        assert(after.drop_last() =~= before.drop_last());
                        assert(after.last() == moved);
                        assert forall|i: int| 0 <= i < after.len() - 1 implies nodes(
                            (#[trigger] after[i]).body@,
                        )[after[i].next as int] == Node::Loop(nodes(after[i + 1].body@)) by {
                            assert(after[i] == before[i]);
                            assert(after[i + 1].body == before[i + 1].body);
                        }
                    }
                } else {
                    proof {
                        assert(nodes(top.body@).skip(top.next + 1) =~= Seq::<Node>::empty());
                        assert(below(before).drop_first() =~= below(before.drop_last()));
                    }
                }
            },
            None => {},
        }
    }

    /// Counts one unit of the run of output or input that the run has
    /// reached, and leaves the run behind once all `count` of them are done.
    fn finish_unit(&mut self, count: u32)
        requires
            old(self).frames.len() > 0,
            frames_wf(old(self).frames@, old(self).units_done as nat),
            head(old(self).frames@) matches Node::Op(t, c) && c == count && (t == Token::StdOut || t
                == Token::StdIn),
            old(self).units_done < count,
        ensures
            frames_wf(final(self).frames@, final(self).units_done as nat),
            rest_of(final(self).frames@, final(self).units_done as nat) == after_unit(
                rest_of(old(self).frames@, old(self).units_done as nat),
            ),
            final(self).memory_cells == old(self).memory_cells,
            final(self).cell_ptr == old(self).cell_ptr,
    {
        let ghost frames = self.frames@;
        let ghost done = self.units_done as nat;
        let ghost old_rest = rest_of(frames, done);
        proof {
            lemma_below_head(frames);
        }
        if count - self.units_done > 1 {
            self.units_done += 1;
            proof {
                assert(rest_of(frames, done + 1) =~= after_unit(old_rest));
            }
        } else {
            self.advance();
            proof {
                assert(below(frames).drop_first() =~= after_unit(old_rest));
            }
        }
    }

    /// Applies the run `operator`, which the run has reached, to the tape.
    fn modify_curr_cell(&mut self, operator: &Operators) -> (signal: Signal)
        requires
            old(self).wf(),
            old(self).frames.len() > 0,
            head(old(self).frames@) == Node::Op(operator._type_name, operator._count as nat),
        ensures
            final(self).wf(),
            final(self)@ == step(old(self)@).0,
            signal == step(old(self)@).1,
    {
        let ghost frames = self.frames@;
        let ghost m = self@;
        proof {
            lemma_below_head(frames);
        }
        let count: u32 = operator._count;
        match operator._type_name {
            Token::MoveBack => {
                if count as usize > self.cell_ptr {
                    Signal::Fault(RuntimeFault::PointerUnderflow)
                } else {
                    self.cell_ptr -= count as usize;
                    self.advance();
                    Signal::Continue
                }
            },
            Token::MoveForward => {
                match self.cell_ptr.checked_add(count as usize) {
                    Some(moved) => {
                        self.cell_ptr = moved;
                        self.grow_cell_memory();
                        self.advance();
                        Signal::Continue
                    },
                    None => Signal::Fault(RuntimeFault::PointerOverflow),
                }
            },
            Token::Add => {
                let sum: u64 = self.read_curr_cell() as u64 + count as u64;
                self.write_to_cell((sum % 256) as u8);
                self.advance();
                Signal::Continue
            },
            Token::Sub => {
                let back: u32 = 256 - count % 256;
                let sum: u32 = self.read_curr_cell() as u32 + back;
                self.write_to_cell((sum % 256) as u8);
                self.advance();
                Signal::Continue
            },
            Token::StdOut => {
                if count == 0 {
                    self.advance();
                    Signal::Continue
                } else {
                    let value = self.read_curr_cell();
                    self.finish_unit(count);
                    Signal::Output(value)
                }
            },
            Token::StdIn => {
                if count == 0 {
                    self.advance();
                    Signal::Continue
                } else {
                    Signal::AwaitInput
                }
            },
            _ => Signal::Fault(RuntimeFault::InvariantViolation),
        }
    }

    /// Takes one step of the run.
    pub fn execute(&mut self) -> (signal: Signal)
        requires
            old(self).wf(),
        ensures
            final(self).wf(),
            final(self)@ == step(old(self)@).0,
            signal == step(old(self)@).1,
    {
        let depth: usize = self.frames.len();
        if depth == 0 {
            return Signal::Halted;
        }
        let ghost frames = self.frames@;
        let body: &'a [Expression] = self.frames[depth - 1].body;
        let next: usize = self.frames[depth - 1].next;
        proof {
            lemma_below_head(frames);
        }
        match &body[next] {
            Expression::Loop(inner) => {
                proof {
                    lemma_loop_view(*inner);
                }
                if self.read_curr_cell() == 0 {
                    self.advance();
                } else if inner.len() > 0 {
                    let entered = Frame { body: inner.as_slice(), next: 0 };
                    self.frames.push(entered);
                    proof {
                        let after = self.frames@;
                        assert(after.drop_last() =~= frames);
                        assert(frame_rest(entered) =~= nodes(inner@));
                        assert forall|i: int| 0 <= i < after.len() - 1 implies nodes(
                            (#[trigger] after[i]).body@,
                        )[after[i].next as int] == Node::Loop(nodes(after[i + 1].body@)) by {
                            if i < frames.len() - 1 {
                                assert(after[i] == frames[i]);
                                assert(after[i + 1] == frames[i + 1]);
                            }
                        }
                    }
                } else {
                    proof {
                        assert(nodes(inner@) + below(frames) =~= below(frames));
                    }
                }
                Signal::Continue
            },
            Expression::Operator(op) => self.modify_curr_cell(op),
        }
    }

    /// Takes the input that the program waits for: `Some` byte goes into
    /// the cell under the cursor, and with `None`, where no byte could be
    /// had, the cell stays as it is. Says whether the program was waiting;
    /// if it was not, nothing changes.
    pub fn read_char(&mut self, input: Option<u8>) -> (taken: bool)
        requires
            old(self).wf(),
        ensures
            final(self).wf(),
            taken == awaiting(old(self)@),
            final(self)@ == if taken {
                supply(old(self)@, input)
            } else {
                old(self)@
            },
    {
        let depth: usize = self.frames.len();
        if depth == 0 {
            return false;
        }
        let ghost frames = self.frames@;
        let body: &'a [Expression] = self.frames[depth - 1].body;
        let next: usize = self.frames[depth - 1].next;
        proof {
            lemma_below_head(frames);
        }
        match &body[next] {
            Expression::Loop(_) => false,
            Expression::Operator(op) => match op._type_name {
                Token::StdIn => {
                    if op._count == 0 {
                        false
                    } else {
                        match input {
                            Some(byte) => {
                                self.write_to_cell(byte);
                            },
                            None => {},
                        }
                        self.finish_unit(op._count);
                        true
                    }
                },
                _ => false,
            },
        }
    }

    /// Runs the program for at most `fuel` steps, and stops before that at
    /// the first step that asks something of the outside, halts or fails.
    /// `Signal::Continue` says that the steps are used up and the program
    /// has more to do.
    pub fn run_code(&mut self, fuel: u64) -> (signal: Signal)
        requires
            old(self).wf(),
        ensures
            final(self).wf(),
            final(self)@ == run(old(self)@, fuel as nat).0,
            signal == run(old(self)@, fuel as nat).1,
    {
        let mut left: u64 = fuel;
        while left > 0
            invariant
                self.wf(),
                run(self@, left as nat) == run(old(self)@, fuel as nat),
            decreases left,
        {
            let signal = self.execute();
            match signal {
                Signal::Continue => {},
                _ => {
                    return signal;
                },
            }
            left -= 1;
        }
        Signal::Continue
    }

    /// Runs the program for at most `fuel` steps over the inputs `input`,
    /// which it takes in order, one for each read: a byte, or `None` for a
    /// read that fails. Returns what the program wrote, how many inputs it
    /// took, and the signal that the run stopped on: `Signal::AwaitInput`
    /// where the program waits and no input is left, `Signal::Continue`
    /// where the fuel is used up.
    pub fn run_with_input(&mut self, input: &[Option<u8>], fuel: u64) -> (result: (
        Vec<u8>,
        usize,
        Signal,
    ))
        requires
            old(self).wf(),
        ensures
            final(self).wf(),
            final(self)@ == drive(old(self)@, input@, fuel as nat).state,
            result.0@ == drive(old(self)@, input@, fuel as nat).output,
            result.1 == drive(old(self)@, input@, fuel as nat).taken,
            result.2 == drive(old(self)@, input@, fuel as nat).end,
    {
        let mut output: Vec<u8> = Vec::new();
        let mut taken: usize = 0;
        let mut left: u64 = fuel;
        proof {
            assert(input@.skip(0) =~= input@);
            assert(Seq::<u8>::empty() + drive(self@, input@, fuel as nat).output =~= drive(
                self@,
                input@,
                fuel as nat,
            ).output);
        }
        while left > 0
            invariant
                self.wf(),
                taken <= input.len(),
                drive(old(self)@, input@, fuel as nat) == after(
                    output@,
                    taken as nat,
                    drive(self@, input@.skip(taken as int), left as nat),
                ),
            decreases left,
        {
            let ghost before = self@;
            let ghost written = output@;
            let ghost pending = input@.skip(taken as int);
            let signal = self.execute();
            match signal {
                Signal::Continue => {},
                Signal::Output(byte) => {
                    output.push(byte);
                    proof {
                        let then = drive(self@, pending, (left - 1) as nat);
                        assert(written + (seq![byte] + then.output) =~= written.push(byte)
                            + then.output);
                    }
                },
                Signal::AwaitInput => {
                    if taken < input.len() {
                        self.read_char(input[taken]);
                        taken += 1;
                        proof {
                            assert(pending[0] == input@[taken - 1]);
                            assert(pending.drop_first() =~= input@.skip(taken as int));
                        }
                    } else {
                        proof {
                            assert(written + Seq::<u8>::empty() =~= written);
                        }
                        return (output, taken, signal);
                    }
                },
                _ => {
                    proof {
                        assert(written + Seq::<u8>::empty() =~= written);
                    }
                    return (output, taken, signal);
                },
            }
            left -= 1;
        }
        proof {
            assert(output@ + Seq::<u8>::empty() =~= output@);
        }
        (output, taken, Signal::Continue)
    }
}

} // verus!
