//! The symbols of the language, the program tree, and their mathematical model.
use vstd::prelude::*;

verus! {

/// One lexical unit of the language.
#[derive(Debug, Copy, Clone, PartialEq, Eq, Structural)]
pub enum Token {
    /// `<`: move the cursor one cell to the left.
    MoveBack,
    /// `>`: move the cursor one cell to the right.
    MoveForward,
    /// `+`: add one to the current cell.
    Add,
    /// `-`: subtract one from the current cell.
    Sub,
    /// `.`: write the current cell to the output.
    StdOut,
    /// `,`: read one byte of input into the current cell.
    StdIn,
    /// `[`: open a loop.
    LoopStart,
    /// `]`: close a loop.
    LoopEnd,
}

impl Token {
    /// The character that stands for this token in source text.
    pub open spec fn symbol(self) -> char {
        match self {
            Token::MoveBack => '<',
            Token::MoveForward => '>',
            Token::Add => '+',
            Token::Sub => '-',
            Token::StdOut => '.',
            Token::StdIn => ',',
            Token::LoopStart => '[',
            Token::LoopEnd => ']',
        }
    }

    /// Whether this token is one of the two brackets.
    pub open spec fn is_bracket(self) -> bool {
        self == Token::LoopStart || self == Token::LoopEnd
    }

    /// Whether this token is one of the four that work on the tape and the
    /// cursor: the two moves, the increment and the decrement.
    pub open spec fn works_on_tape(self) -> bool {
        self == Token::MoveBack || self == Token::MoveForward || self == Token::Add || self
            == Token::Sub
    }
}

/// A non-bracket symbol together with the number of times it applies.
#[derive(Debug, Copy, Clone, PartialEq, Eq)]
pub struct Operators {
    /// The symbol of the run.
    pub _type_name: Token,
    /// How many times the symbol applies.
    pub _count: u32,
}

/// One node of a program tree.
#[derive(Debug, PartialEq, Eq)]
pub enum Expression {
    /// A loop and its body.
    Loop(Vec<Expression>),
    /// A run of one symbol.
    Operator(Box<Operators>),
}

/// The mathematical form of a program node.
pub enum Node {
    Loop(Seq<Node>),
    Op(Token, nat),
}

/// The mathematical form of one program node.
pub open spec fn node_of(e: Expression) -> Node
    decreases e,
{
    match e {
        Expression::Loop(body) => Node::Loop(
            Seq::new(
                body@.len(),
                |i: int|
                    if 0 <= i < body@.len() {
                        node_of(body@[i])
                    } else {
                        arbitrary()
                    },
            ),
        ),
        Expression::Operator(op) => Node::Op(op._type_name, op._count as nat),
    }
}

impl View for Expression {
    type V = Node;

    open spec fn view(&self) -> Node {
        node_of(*self)
    }
}

/// The mathematical form of a sequence of program nodes.
pub open spec fn nodes(s: Seq<Expression>) -> Seq<Node> {
    Seq::new(s.len(), |i: int| s[i]@)
}

/// `n` times the token `t`.
pub open spec fn repeat(t: Token, n: nat) -> Seq<Token> {
    Seq::new(n, |i: int| t)
}

/// The tokens that a node stands for: a run stands for its symbol as often
/// as it counts, a loop for its body between two brackets.
pub open spec fn flatten_node(n: Node) -> Seq<Token>
    decreases n,
{
    match n {
        Node::Loop(body) => seq![Token::LoopStart] + flatten(body) + seq![Token::LoopEnd],
        Node::Op(t, c) => repeat(t, c),
    }
}

/// The tokens that a program stands for, node after node.
pub open spec fn flatten(s: Seq<Node>) -> Seq<Token>
    decreases s,
{
    if s.len() == 0 {
        Seq::empty()
    } else {
        flatten(s.drop_last()) + flatten_node(s.last())
    }
}

/// No run of the node, nor of any loop below it, is of a bracket or empty.
pub open spec fn well_formed_node(n: Node) -> bool
    decreases n,
{
    match n {
        Node::Loop(body) => forall|i: int|
            0 <= i < body.len() ==> well_formed_node(#[trigger] body[i]),
        Node::Op(t, c) => !t.is_bracket() && c >= 1,
    }
}

/// Every node of the program is well formed.
pub open spec fn well_formed(s: Seq<Node>) -> bool {
    forall|i: int| 0 <= i < s.len() ==> well_formed_node(#[trigger] s[i])
}

/// Every run of the node, and of any loop below it, is one symbol that is
/// no bracket.
pub open spec fn plain_node(n: Node) -> bool
    decreases n,
{
    match n {
        Node::Loop(body) => forall|i: int| 0 <= i < body.len() ==> plain_node(#[trigger] body[i]),
        Node::Op(t, c) => !t.is_bracket() && c == 1,
    }
}

/// Every node of the program is plain.
pub open spec fn plain(s: Seq<Node>) -> bool {
    forall|i: int| 0 <= i < s.len() ==> plain_node(#[trigger] s[i])
}

/// How often `a` occurs in `s`.
pub open spec fn count_of<A>(s: Seq<A>, a: A) -> nat
    decreases s.len(),
{
    if s.len() == 0 {
        0
    } else {
        count_of(s.drop_last(), a) + if s.last() == a {
            1nat
        } else {
            0nat
        }
    }
}

/// Nothing occurs more often than the sequence is long.
pub proof fn lemma_count_of_bound<A>(s: Seq<A>, a: A)
    ensures
        count_of(s, a) <= s.len(),
    decreases s.len(),
{
    if s.len() > 0 {
        lemma_count_of_bound(s.drop_last(), a);
    }
}

/// One more element at the end counts once if it is `a`.
pub proof fn lemma_count_of_push<A>(s: Seq<A>, last: A, a: A)
    ensures
        count_of(s.push(last), a) == count_of(s, a) + if last == a {
            1nat
        } else {
            0nat
        },
{
    assert(s.push(last).drop_last() =~= s);
}

/// Occurrences add up over two sequences, one after the other.
pub proof fn lemma_count_of_concat<A>(s: Seq<A>, t: Seq<A>, a: A)
    ensures
        count_of(s + t, a) == count_of(s, a) + count_of(t, a),
    decreases t.len(),
{
    if t.len() == 0 {
        assert(s + t =~= s);
    } else {
        assert((s + t).drop_last() =~= s + t.drop_last());
        lemma_count_of_concat(s, t.drop_last(), a);
    }
}

/// Two runs of one symbol, one after the other, are one run.
pub proof fn lemma_repeat_concat(t: Token, m: nat, n: nat)
    ensures
        repeat(t, m) + repeat(t, n) == repeat(t, m + n),
{
    assert(repeat(t, m) + repeat(t, n) =~= repeat(t, m + n));
}

/// The view of a loop node is a loop over the views of its body.
pub proof fn lemma_loop_view(body: Vec<Expression>)
    ensures
        Expression::Loop(body)@ == Node::Loop(nodes(body@)),
{
    let e = Expression::Loop(body);
    match e@ {
        Node::Loop(inner) => {
            assert(inner =~= nodes(body@));
        },
        Node::Op(_, _) => {},
    }
}

/// The view of a sequence with one more node.
pub proof fn lemma_nodes_push(s: Seq<Expression>, e: Expression)
    ensures
        nodes(s.push(e)) == nodes(s).push(e@),
{
    assert(nodes(s.push(e)) =~= nodes(s).push(e@));
}

/// A program with one more node stands for the tokens of both.
pub proof fn lemma_flatten_push(s: Seq<Node>, n: Node)
    ensures
        flatten(s.push(n)) == flatten(s) + flatten_node(n),
{
    assert(s.push(n).drop_last() =~= s);
}

} // verus!
