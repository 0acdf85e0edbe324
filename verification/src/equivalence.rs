//! Collapsing keeps what a program does.
//!
//! A program and the same program with its runs collapsed write the same
//! bytes, take the same inputs and leave the same tape, whenever either of
//! them halts. The proof goes by way of a third program, in which every run
//! is written out as single symbols: both stand for that program, and a
//! program does what its written-out form does.
use vstd::prelude::*;
use crate::grammar::{well_formed, well_formed_node, Node, Token};
use crate::interpreter::{
    after_unit, drive, in_bounds, lemma_after_unit_well_formed,
    lemma_runs_add_up, lemma_runs_go_through, lemma_step_frame, lemma_step_in_bounds,
    lemma_step_well_formed, step, supply, Course, Machine, Signal,
};
use crate::parser::{collapse, collapse_node, lemma_collapse_well_formed, mergeable, merged};

verus! {

/// `c` runs of the one symbol `t`, each of count 1.
pub open spec fn units(t: Token, c: nat) -> Seq<Node> {
    Seq::new(c, |i: int| Node::Op(t, 1))
}

/// A node written out: every run below it as single symbols.
pub open spec fn expand_node(n: Node) -> Seq<Node>
    decreases n,
{
    match n {
        Node::Loop(body) => seq![Node::Loop(expand(body))],
        Node::Op(t, c) => units(t, c),
    }
}

/// A program written out: every run as single symbols.
pub open spec fn expand(s: Seq<Node>) -> Seq<Node>
    decreases s,
{
    if s.len() == 0 {
        Seq::empty()
    } else {
        expand(s.drop_last()) + expand_node(s.last())
    }
}

/// Two runs of single symbols, one after the other, are one such run.
pub proof fn lemma_units_concat(t: Token, a: nat, b: nat)
    ensures
        units(t, a) + units(t, b) == units(t, a + b),
{
    assert(units(t, a) + units(t, b) =~= units(t, a + b));
}

/// A program with one more node, written out.
pub proof fn lemma_expand_push(s: Seq<Node>, n: Node)
    ensures
        expand(s.push(n)) == expand(s) + expand_node(n),
{
    assert(s.push(n).drop_last() =~= s);
}

/// Two programs, one after the other, written out.
pub proof fn lemma_expand_concat(a: Seq<Node>, b: Seq<Node>)
    ensures
        expand(a + b) == expand(a) + expand(b),
    decreases b.len(),
{
    if b.len() == 0 {
        assert(a + b =~= a);
        assert(expand(a) + expand(b) =~= expand(a));
    } else {
        assert(a + b =~= (a + b.drop_last()).push(b.last()));
        lemma_expand_push(a + b.drop_last(), b.last());
        lemma_expand_concat(a, b.drop_last());
        assert(b =~= b.drop_last().push(b.last()));
        lemma_expand_push(b.drop_last(), b.last());
        assert((expand(a) + expand(b.drop_last())) + expand_node(b.last()) =~= expand(a) + (
        expand(b.drop_last()) + expand_node(b.last())));
    }
}

/// A program written out begins with its first node written out.
pub proof fn lemma_expand_first(s: Seq<Node>)
    requires
        s.len() > 0,
    ensures
        expand(s) == expand_node(s[0]) + expand(s.drop_first()),
{
    let first = seq![s[0]];
    assert(s =~= first + s.drop_first());
    lemma_expand_concat(first, s.drop_first());
    assert(first =~= Seq::<Node>::empty().push(s[0]));
    lemma_expand_push(Seq::<Node>::empty(), s[0]);
    assert(expand(Seq::<Node>::empty()) + expand_node(s[0]) =~= expand_node(s[0]));
}

/// A collapsed node, written out, is the node written out.
pub proof fn lemma_expand_collapse_node(n: Node)
    ensures
        expand_node(collapse_node(n)) == expand_node(n),
    decreases n,
{
    match n {
        Node::Loop(body) => {
            lemma_expand_collapse(body);
        },
        Node::Op(_, _) => {},
    }
}

/// A collapsed program, written out, is the program written out.
pub proof fn lemma_expand_collapse(s: Seq<Node>)
    ensures
        expand(collapse(s)) == expand(s),
    decreases s,
{
    if s.len() > 0 {
        let acc = collapse(s.drop_last());
        let n = collapse_node(s.last());
        lemma_expand_collapse(s.drop_last());
        lemma_expand_collapse_node(s.last());
        if acc.len() > 0 && mergeable(acc.last(), n) {
            let kept = acc.drop_last();
            assert(acc =~= kept.push(acc.last()));
            lemma_expand_push(kept, acc.last());
            lemma_expand_push(kept, merged(acc.last(), n));
            lemma_units_concat(acc.last()->Op_0, acc.last()->Op_1, n->Op_1);
            assert(expand(kept) + expand_node(acc.last()) + expand_node(n) =~= expand(kept) + (
            expand_node(acc.last()) + expand_node(n)));
        } else {
            lemma_expand_push(acc, n);
        }
    }
}

/// The machine with `rest` left to run.
pub open spec fn with_rest(m: Machine, rest: Seq<Node>) -> Machine {
    Machine { rest, ..m }
}

/// The first of `c` single runs, where `c` is not 0: it does what the
/// first of the two runs of 1 and of `c - 1` does.
proof fn lemma_first_unit(m: Machine, t: Token, c: nat, behind: Seq<Node>)
    requires
        c > 0,
        m.rest == units(t, c) + behind,
    ensures
        step(m).1 == step(
            with_rest(m, seq![Node::Op(t, 1), Node::Op(t, (c - 1) as nat)] + behind),
        ).1,
        step(m).0 == with_rest(
            step(with_rest(m, seq![Node::Op(t, 1), Node::Op(t, (c - 1) as nat)] + behind)).0,
            units(t, (c - 1) as nat) + behind,
        ) || step(m).1 != Signal::Continue,
        step(m).1 == Signal::Continue ==> step(
            with_rest(m, seq![Node::Op(t, 1), Node::Op(t, (c - 1) as nat)] + behind),
        ).0 == with_rest(step(m).0, seq![Node::Op(t, (c - 1) as nat)] + behind),
        step(m).1 == Signal::Continue ==> step(m).0.rest == units(t, (c - 1) as nat) + behind,
{
    let base = with_rest(m, seq![Node::Op(t, 1)]);
    let rest1 = units(t, (c - 1) as nat) + behind;
    let rest2 = seq![Node::Op(t, (c - 1) as nat)] + behind;
    assert(base.rest + rest1 =~= m.rest);
    assert(base.rest + rest2 =~= seq![Node::Op(t, 1), Node::Op(t, (c - 1) as nat)] + behind);
    lemma_step_frame(base, rest1);
    lemma_step_frame(base, rest2);
    assert(with_rest(base, base.rest + rest1) == m);
    assert(base.rest.drop_first() =~= Seq::<Node>::empty());
    if step(m).1 == Signal::Continue {
        assert(step(base).0.rest =~= Seq::<Node>::empty());
        assert(step(base).0.rest + rest1 =~= rest1);
        assert(step(base).0.rest + rest2 =~= rest2);
    }
}

/// Single runs of a symbol that works on the tape do, step by step, what
/// the one run of their number does in one step, where that run goes
/// through.
pub proof fn lemma_units_run(
    m: Machine,
    t: Token,
    c: nat,
    behind: Seq<Node>,
    input: Seq<Option<u8>>,
    fuel: nat,
)
    requires
        t.works_on_tape(),
        in_bounds(m),
        c >= 1,
        m.rest == units(t, c) + behind,
        step(with_rest(m, seq![Node::Op(t, c)] + behind)).1 == Signal::Continue,
    ensures
        drive(m, input, fuel + c) == drive(
            step(with_rest(m, seq![Node::Op(t, c)] + behind)).0,
            input,
            fuel,
        ),
    decreases c,
{
    let one = with_rest(m, seq![Node::Op(t, c)] + behind);
    if c == 1 {
        assert(units(t, 1) =~= seq![Node::Op(t, 1)]);
        assert(one == m);
    } else {
        let two = with_rest(m, seq![Node::Op(t, 1), Node::Op(t, (c - 1) as nat)] + behind);
        lemma_first_unit(m, t, c, behind);
        lemma_runs_add_up(two, t, 1, (c - 1) as nat, behind);
        let m1 = step(m).0;
        lemma_step_in_bounds(m);
        lemma_units_run(m1, t, (c - 1) as nat, behind, input, fuel);
        assert(drive(m, input, fuel + c) == drive(m1, input, (fuel + c - 1) as nat));
    }
}

/// Where single runs of a symbol that works on the tape are part of a
/// run that halts, the one run of their number goes through, and does in
/// one step what they do step by step.
pub proof fn lemma_units_halt(
    m: Machine,
    t: Token,
    c: nat,
    behind: Seq<Node>,
    input: Seq<Option<u8>>,
    fuel: nat,
)
    requires
        t.works_on_tape(),
        in_bounds(m),
        c >= 1,
        m.rest == units(t, c) + behind,
        drive(m, input, fuel).end == Signal::Halted,
    ensures
        fuel >= c,
        step(with_rest(m, seq![Node::Op(t, c)] + behind)).1 == Signal::Continue,
        drive(m, input, fuel) == drive(
            step(with_rest(m, seq![Node::Op(t, c)] + behind)).0,
            input,
            (fuel - c) as nat,
        ),
    decreases c,
{
    let one = with_rest(m, seq![Node::Op(t, c)] + behind);
    if c == 1 {
        assert(units(t, 1) =~= seq![Node::Op(t, 1)]);
        assert(one == m);
        assert(m.rest[0] == Node::Op(t, 1));
    } else {
        let two = with_rest(m, seq![Node::Op(t, 1), Node::Op(t, (c - 1) as nat)] + behind);
        lemma_first_unit(m, t, c, behind);
        lemma_unit_signal(two, t, (c - 1) as nat, behind);
        let m1 = step(m).0;
        lemma_step_in_bounds(m);
        assert(drive(m, input, fuel) == drive(m1, input, (fuel - 1) as nat));
        lemma_units_halt(m1, t, (c - 1) as nat, behind, input, (fuel - 1) as nat);
        lemma_runs_go_through(two, t, 1, (c - 1) as nat, behind);
        lemma_runs_add_up(two, t, 1, (c - 1) as nat, behind);
    }
}

/// A run of a symbol that works on the tape goes through or fails: it
/// writes nothing and waits for nothing.
proof fn lemma_unit_signal(m: Machine, t: Token, b: nat, behind: Seq<Node>)
    requires
        t.works_on_tape(),
        m.rest == seq![Node::Op(t, 1), Node::Op(t, b)] + behind,
    ensures
        step(m).1 == Signal::Continue || step(m).1 is Fault,
{
    assert(m.rest[0] == Node::Op(t, 1));
}

/// Two courses come to the same: they have written the same bytes, taken
/// as many inputs, stopped on the same signal, and left the same tape with
/// the cursor on the same cell.
pub open spec fn same_outcome(a: Course, b: Course) -> bool {
    &&& a.output == b.output
    &&& a.taken == b.taken
    &&& a.end == b.end
    &&& a.state.tape == b.state.tape
    &&& a.state.cursor == b.state.cursor
}

/// The machine with its program written out.
pub open spec fn expanded(m: Machine) -> Machine {
    with_rest(m, expand(m.rest))
}

/// A step at a loop is the same step in the program written out.
proof fn lemma_loop_step_expands(m: Machine)
    requires
        m.rest.len() > 0,
        m.rest[0] is Loop,
    ensures
        step(m).1 == Signal::Continue,
        step(expanded(m)) == (expanded(step(m).0), Signal::Continue),
{
    let tail = m.rest.drop_first();
    let body = m.rest[0]->Loop_0;
    lemma_expand_first(m.rest);
    let me = expanded(m);
    assert(me.rest[0] == Node::Loop(expand(body)));
    assert(me.rest.drop_first() =~= expand(tail));
    if m.tape[m.cursor as int] != 0 {
        lemma_expand_concat(body, m.rest);
    }
}

/// A step that writes a byte is the same step in the program written out.
proof fn lemma_output_step_expands(m: Machine)
    requires
        m.rest.len() > 0,
        m.rest[0] matches Node::Op(t, c) && t == Token::StdOut && c >= 1,
    ensures
        step(m).1 is Output,
        step(expanded(m)) == (expanded(step(m).0), step(m).1),
{
    lemma_unit_done_expands(m.rest);
    let me = expanded(m);
    lemma_expand_first(m.rest);
    assert(me.rest[0] == Node::Op(Token::StdOut, 1));
}

/// One unit of a run of output or input done, in the program and in the
/// program written out.
proof fn lemma_unit_done_expands(rest: Seq<Node>)
    requires
        rest.len() > 0,
        rest[0] matches Node::Op(t, c) && c >= 1,
    ensures
        expand(rest).len() > 0,
        expand(rest)[0] == Node::Op(rest[0]->Op_0, 1),
        after_unit(expand(rest)) == expand(after_unit(rest)),
{
    let t = rest[0]->Op_0;
    let c = rest[0]->Op_1;
    let tail = rest.drop_first();
    lemma_expand_first(rest);
    assert(expand(rest)[0] == Node::Op(t, 1));
    assert(expand(rest).drop_first() =~= units(t, (c - 1) as nat) + expand(tail));
    if c > 1 {
        let less = rest.update(0, Node::Op(t, (c - 1) as nat));
        lemma_expand_first(less);
        assert(less.drop_first() =~= tail);
    } else {
        assert(units(t, 0) + expand(tail) =~= expand(tail));
    }
}

/// A program that waits for input waits for it when written out, and goes
/// on in the same way once the input has come.
proof fn lemma_input_expands(m: Machine, input: Option<u8>)
    requires
        m.rest.len() > 0,
        m.rest[0] matches Node::Op(t, c) && t == Token::StdIn && c >= 1,
    ensures
        step(m) == (m, Signal::AwaitInput),
        step(expanded(m)) == (expanded(m), Signal::AwaitInput),
        supply(expanded(m), input) == expanded(supply(m, input)),
{
    lemma_unit_done_expands(m.rest);
}

/// A run of a symbol that works on the tape, in a program: the same run
/// with the rest of the program written out does the same.
proof fn lemma_tape_step_expands(m: Machine)
    requires
        m.rest.len() > 0,
        m.rest[0] matches Node::Op(t, c) && t.works_on_tape() && c >= 1,
    ensures
        expanded(m).rest == units(m.rest[0]->Op_0, m.rest[0]->Op_1) + expand(m.rest.drop_first()),
        step(m).1 == Signal::Continue || step(m).1 is Fault,
        step(with_rest(m, seq![m.rest[0]] + expand(m.rest.drop_first()))).1 == step(m).1,
        step(m).1 == Signal::Continue ==> step(
            with_rest(m, seq![m.rest[0]] + expand(m.rest.drop_first())),
        ).0 == expanded(step(m).0),
{
    let tail = m.rest.drop_first();
    let base = with_rest(m, seq![m.rest[0]]);
    lemma_expand_first(m.rest);
    assert(base.rest + tail =~= m.rest);
    assert(with_rest(base, base.rest + tail) == m);
    lemma_step_frame(base, tail);
    lemma_step_frame(base, expand(tail));
    assert(base.rest[0] == m.rest[0]);
    assert(base.rest.drop_first() =~= Seq::<Node>::empty());
    if step(m).1 == Signal::Continue {
        assert(step(base).0.rest =~= Seq::<Node>::empty());
        assert(step(base).0.rest + tail =~= tail);
        assert(step(base).0.rest + expand(tail) =~= expand(tail));
    }
}

/// What a program does until it halts, its written-out form does.
pub proof fn lemma_expand_forward(m: Machine, input: Seq<Option<u8>>, fuel: nat) -> (fuel2: nat)
    requires
        in_bounds(m),
        well_formed(m.rest),
        drive(m, input, fuel).end == Signal::Halted,
    ensures
        same_outcome(drive(expanded(m), input, fuel2), drive(m, input, fuel)),
    decreases fuel,
{
    if m.rest.len() == 0 {
        assert(expand(m.rest) =~= m.rest);
        fuel
    } else {
        let tail = m.rest.drop_first();
        lemma_step_well_formed(m);
        lemma_step_in_bounds(m);
        assert(well_formed_node(m.rest[0]));
        match m.rest[0] {
            Node::Loop(body) => {
                lemma_loop_step_expands(m);
                let f = lemma_expand_forward(step(m).0, input, (fuel - 1) as nat);
                (f + 1) as nat
            },
            Node::Op(t, c) => {
                if t.works_on_tape() {
                    lemma_tape_step_expands(m);
                    let f = lemma_expand_forward(step(m).0, input, (fuel - 1) as nat);
                    lemma_units_run(expanded(m), t, c, expand(tail), input, f);
                    f + c
                } else if t == Token::StdOut {
                    lemma_output_step_expands(m);
                    let f = lemma_expand_forward(step(m).0, input, (fuel - 1) as nat);
                    (f + 1) as nat
                } else {
                    lemma_input_expands(m, input[0]);
                    lemma_after_unit_well_formed(m.rest);
                    let f = lemma_expand_forward(
                        supply(m, input[0]),
                        input.drop_first(),
                        (fuel - 1) as nat,
                    );
                    (f + 1) as nat
                }
            },
        }
    }
}

/// What the written-out form of a program does until it halts, the program
/// does.
pub proof fn lemma_expand_backward(m: Machine, input: Seq<Option<u8>>, fuel2: nat) -> (fuel: nat)
    requires
        in_bounds(m),
        well_formed(m.rest),
        drive(expanded(m), input, fuel2).end == Signal::Halted,
    ensures
        same_outcome(drive(m, input, fuel), drive(expanded(m), input, fuel2)),
    decreases fuel2,
{
    if m.rest.len() == 0 {
        assert(expand(m.rest) =~= m.rest);
        fuel2
    } else {
        let tail = m.rest.drop_first();
        lemma_step_well_formed(m);
        lemma_step_in_bounds(m);
        assert(well_formed_node(m.rest[0]));
        match m.rest[0] {
            Node::Loop(body) => {
                lemma_loop_step_expands(m);
                let f = lemma_expand_backward(step(m).0, input, (fuel2 - 1) as nat);
                (f + 1) as nat
            },
            Node::Op(t, c) => {
                if t.works_on_tape() {
                    lemma_tape_step_expands(m);
                    lemma_units_halt(expanded(m), t, c, expand(tail), input, fuel2);
                    let f = lemma_expand_backward(step(m).0, input, (fuel2 - c) as nat);
                    (f + 1) as nat
                } else if t == Token::StdOut {
                    lemma_output_step_expands(m);
                    let f = lemma_expand_backward(step(m).0, input, (fuel2 - 1) as nat);
                    (f + 1) as nat
                } else {
                    lemma_input_expands(m, input[0]);
                    lemma_after_unit_well_formed(m.rest);
                    let f = lemma_expand_backward(
                        supply(m, input[0]),
                        input.drop_first(),
                        (fuel2 - 1) as nat,
                    );
                    (f + 1) as nat
                }
            },
        }
    }
}

/// Where a program halts, the program with its runs collapsed halts too,
/// and has then written the same bytes, taken the same inputs, and left the
/// same tape with the cursor on the same cell.
pub proof fn lemma_collapsed_does_the_same(m: Machine, input: Seq<Option<u8>>, fuel: nat) -> (fuel2:
    nat)
    requires
        in_bounds(m),
        well_formed(m.rest),
        drive(m, input, fuel).end == Signal::Halted,
    ensures
        same_outcome(drive(with_rest(m, collapse(m.rest)), input, fuel2), drive(m, input, fuel)),
{
    let collapsed = with_rest(m, collapse(m.rest));
    let between = lemma_expand_forward(m, input, fuel);
    lemma_expand_collapse(m.rest);
    lemma_collapse_well_formed(m.rest);
    assert(expanded(collapsed) == expanded(m));
    lemma_expand_backward(collapsed, input, between)
}

/// Where a program with its runs collapsed halts, the program halts too,
/// and has then written the same bytes, taken the same inputs, and left the
/// same tape with the cursor on the same cell.
pub proof fn lemma_collapsed_does_no_more(m: Machine, input: Seq<Option<u8>>, fuel2: nat) -> (fuel:
    nat)
    requires
        in_bounds(m),
        well_formed(m.rest),
        drive(with_rest(m, collapse(m.rest)), input, fuel2).end == Signal::Halted,
    ensures
        same_outcome(drive(m, input, fuel), drive(with_rest(m, collapse(m.rest)), input, fuel2)),
{
    let collapsed = with_rest(m, collapse(m.rest));
    lemma_expand_collapse(m.rest);
    lemma_collapse_well_formed(m.rest);
    assert(expanded(collapsed) == expanded(m));
    let between = lemma_expand_forward(collapsed, input, fuel2);
    lemma_expand_backward(m, input, between)
}

} // verus!
