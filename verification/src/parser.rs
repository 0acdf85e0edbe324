//! The tree builder: from a validated stream of tokens to a program tree.
use vstd::prelude::*;
use crate::grammar::{
    count_of, flatten, flatten_node, lemma_count_of_concat, lemma_count_of_push,
    lemma_flatten_push, lemma_loop_view, lemma_nodes_push,
    lemma_repeat_concat, nodes, plain, plain_node, repeat, well_formed, well_formed_node,
    Expression, Node, Operators, Token,
};
use crate::lexer::{accepted, balanced, nesting, tokens_of, Diagnostic, Lexer};

verus! {

/// `tree` is the program that the tokens `t` spell out, symbol by symbol.
pub open spec fn spells(tree: Seq<Node>, t: Seq<Token>) -> bool {
    plain(tree) && flatten(tree) == t
}

/// The program that the tokens `t` spell out.
pub open spec fn syntax_tree(t: Seq<Token>) -> Seq<Node> {
    choose|tree: Seq<Node>| spells(tree, t)
}

/// Two nodes that collapse into one: runs of the same symbol whose counts
/// together are still a count.
pub open spec fn mergeable(a: Node, b: Node) -> bool {
    &&& a matches Node::Op(ta, ca)
    &&& b matches Node::Op(tb, cb)
    &&& ta == tb
    &&& ca + cb <= u32::MAX
}

/// The run that two mergeable runs collapse into.
pub open spec fn merged(a: Node, b: Node) -> Node {
    Node::Op(a->Op_0, a->Op_1 + b->Op_1)
}

/// A collapsed program followed by one more collapsed node: the node merges
/// into the last one where it can, and follows it where it cannot.
pub open spec fn absorb(acc: Seq<Node>, n: Node) -> Seq<Node> {
    if acc.len() > 0 && mergeable(acc.last(), n) {
        acc.drop_last().push(merged(acc.last(), n))
    } else {
        acc.push(n)
    }
}

/// A node with the runs of every loop below it collapsed.
pub open spec fn collapse_node(n: Node) -> Node
    decreases n,
{
    match n {
        Node::Loop(body) => Node::Loop(collapse(body)),
        Node::Op(t, c) => n,
    }
}

/// A program with its runs collapsed: neighbouring runs of one symbol
/// become one run that counts as much as they did together, on each level
/// of nesting by itself. No node changes its place, and no run reaches
/// across a loop.
pub open spec fn collapse(s: Seq<Node>) -> Seq<Node>
    decreases s,
{
    if s.len() == 0 {
        Seq::empty()
    } else {
        absorb(collapse(s.drop_last()), collapse_node(s.last()))
    }
}

/// No two neighbours in `s` can merge.
pub open spec fn no_neighbours_merge(s: Seq<Node>) -> bool {
    forall|i: int| 0 <= i < s.len() - 1 ==> !mergeable(#[trigger] s[i], s[i + 1])
}

/// Nothing is left to collapse in the loops of this node.
pub open spec fn settled_node(n: Node) -> bool
    decreases n,
{
    match n {
        Node::Loop(body) => no_neighbours_merge(body) && forall|i: int|
            0 <= i < body.len() ==> settled_node(#[trigger] body[i]),
        Node::Op(t, c) => true,
    }
}

/// Nothing is left to collapse in this program.
pub open spec fn settled(s: Seq<Node>) -> bool {
    no_neighbours_merge(s) && forall|i: int| 0 <= i < s.len() ==> settled_node(#[trigger] s[i])
}

/// How many nodes a node is, with those of the loops below it.
pub open spec fn node_size(n: Node) -> nat
    decreases n,
{
    match n {
        Node::Loop(body) => 1 + size(body),
        Node::Op(_, _) => 1,
    }
}

/// How many nodes a program has, with those of its loops.
pub open spec fn size(s: Seq<Node>) -> nat
    decreases s,
{
    if s.len() == 0 {
        0
    } else {
        size(s.drop_last()) + node_size(s.last())
    }
}

/// No part of `t` from some token to its end opens more loops than it
/// closes.
pub open spec fn closes_behind(t: Seq<Token>) -> bool {
    forall|k: int| 0 <= k <= t.len() ==> #[trigger] nesting(t.skip(k)) <= 0
}

/// The tree builder and the tokens that it reads.
#[derive(Debug)]
pub struct Parser {
    /// The tokens of the program.
    tokens_: Vec<Token>,
    /// How many of them have been built into a tree.
    parser_index_: usize,
    /// Whether runs of one symbol are to be collapsed.
    should_optimise_: bool,
}

impl Parser {
    /// The tokens are those of an accepted text, and either none or all of
    /// them have been built into a tree.
    #[verifier::type_invariant]
    spec fn inv(self) -> bool {
        &&& balanced(self.tokens_@)
        &&& self.parser_index_ == 0 || self.parser_index_ == self.tokens_.len()
    }

    /// The tokens that have not been built into a tree yet.
    pub closed spec fn remaining(&self) -> Seq<Token> {
        self.tokens_@.skip(self.parser_index_ as int)
    }

    /// Whether the trees that this builder hands out are collapsed.
    pub closed spec fn optimises(&self) -> bool {
        self.should_optimise_
    }

    /// Scans `program` and keeps its tokens for building. A text that the
    /// scanner rejects comes back with the scanner's report.
    pub fn new(program: String, optimise: bool) -> (result: Result<Parser, Diagnostic>)
        requires
            program@.len() < u32::MAX,
        ensures
            result is Ok <==> accepted(program@),
            result matches Ok(parser) ==> parser.remaining() == tokens_of(program@)
                && parser.optimises() == optimise,
            result matches Err(d) ==> d.reports(program@),
    {
        match Lexer::new(program) {
            Ok(lexer) => {
                let tokens = lexer.tokens();
                proof {
                    assert(tokens@.skip(0) =~= tokens@);
                }
                Ok(Parser { tokens_: tokens, parser_index_: 0, should_optimise_: optimise })
            },
            Err(d) => Err(d),
        }
    }

    /// Builds the program tree of the tokens that are left, and leaves
    /// none. Without collapsing, the tree is the one plain program that the
    /// tokens spell out; with it, that program collapsed. Either way it
    /// stands for the tokens, in their order.
    pub fn generate_ast(&mut self) -> (ast: Vec<Expression>)
        ensures
            final(self).remaining() == Seq::<Token>::empty(),
            final(self).optimises() == old(self).optimises(),
            spells(syntax_tree(old(self).remaining()), old(self).remaining()),
            nodes(ast@) == if old(self).optimises() {
                collapse(syntax_tree(old(self).remaining()))
            } else {
                syntax_tree(old(self).remaining())
            },
            flatten(nodes(ast@)) == old(self).remaining(),
            well_formed(nodes(ast@)),
    {
        proof {
            use_type_invariant(&*self);
        }
        let ghost left = self.remaining();
        proof {
            assert(self.tokens_@.take(0) =~= Seq::<Token>::empty());
            assert(self.tokens_@.take(self.tokens_@.len() as int) =~= self.tokens_@);
            assert(count_of(Seq::<Token>::empty(), Token::LoopStart) == 0);
            assert(count_of(Seq::<Token>::empty(), Token::LoopEnd) == 0);
        }
        let (ast, end) = Self::parse_to_ast(&self.tokens_, self.parser_index_);
        proof {
            assert(self.tokens_@.subrange(self.parser_index_ as int, end as int) =~= left);
            assert(self.tokens_@.skip(end as int) =~= Seq::<Token>::empty());
            lemma_syntax_tree(nodes(ast@), left);
            lemma_plain_well_formed(nodes(ast@));
        }
        self.parser_index_ = end;
        if self.should_optimise_ {
            proof {
                lemma_collapse_flatten(nodes(ast@));
                lemma_collapse_well_formed(nodes(ast@));
            }
            Self::optimise(&ast)
        } else {
            ast
        }
    }

    /// Collapses the runs of a program: neighbouring runs of one symbol
    /// become one run with the sum of their counts, unless the sum is more
    /// than a count can hold. Loops are collapsed each within itself.
    pub fn optimise(ast: &Vec<Expression>) -> (result: Vec<Expression>)
        ensures
            nodes(result@) == collapse(nodes(ast@)),
        decreases ast,
    {
        let mut out: Vec<Expression> = Vec::new();
        let mut i: usize = 0;
        proof {
            assert(nodes(ast@).take(0) =~= Seq::<Node>::empty());
            assert(nodes(out@) =~= Seq::<Node>::empty());
        }
        while i < ast.len()
            invariant
                i <= ast.len(),
                nodes(out@) == collapse(nodes(ast@).take(i as int)),
            decreases ast.len() - i,
        {
            let ghost acc = nodes(out@);
            let ghost before = out@;
            proof {
                assert(nodes(ast@).take(i + 1).drop_last() =~= nodes(ast@).take(i as int));
                assert(nodes(ast@).take(i + 1).last() == ast[i as int]@);
            }
            match &ast[i] {
                Expression::Loop(body) => {
                    let inner = Self::optimise(body);
                    let node = Expression::Loop(inner);
                    proof {
                        lemma_loop_view(*body);
                        lemma_loop_view(inner);
                        lemma_nodes_push(before, node);
                        assert(node@ == collapse_node(ast[i as int]@));
                        assert(absorb(acc, node@) == acc.push(node@));
                    }
                    out.push(node);
                },
                Expression::Operator(op) => {
                    let sum: Option<u32> = match Self::last_run(&out) {
                        Some(prev) => if prev._type_name == op._type_name {
                            prev._count.checked_add(op._count)
                        } else {
                            None
                        },
                        None => None,
                    };
                    match sum {
                        Some(count) => {
                            let node = Expression::Operator(
                                Box::new(Operators { _type_name: op._type_name, _count: count }),
                            );
                            out.pop();
                            proof {
                                assert(out@ =~= before.drop_last());
                                assert(nodes(before.drop_last()) =~= acc.drop_last());
                                lemma_nodes_push(before.drop_last(), node);
                                assert(ast[i as int]@ == collapse_node(ast[i as int]@));
                                assert(mergeable(acc.last(), ast[i as int]@));
                                assert(node@ == merged(acc.last(), ast[i as int]@));
                            }
                            out.push(node);
                        },
                        None => {
                            let node = Expression::Operator(
                                Box::new(
                                    Operators { _type_name: op._type_name, _count: op._count },
                                ),
                            );
                            proof {
                                lemma_nodes_push(before, node);
                                assert(node@ == collapse_node(ast[i as int]@));
                                assert(acc.len() > 0 ==> !mergeable(acc.last(), node@));
                            }
                            out.push(node);
                        },
                    }
                },
            }
            i += 1;
        }
        proof {
            assert(nodes(ast@).take(i as int) =~= nodes(ast@));
        }
        out
    }

    /// Counts the nodes of a program, those of its loops too. A count that
    /// `usize` cannot hold comes back as `usize::MAX`.
    pub fn get_num_of_instr(ast: &Vec<Expression>) -> (count: usize)
        ensures
            count == if size(nodes(ast@)) <= usize::MAX {
                size(nodes(ast@))
            } else {
                usize::MAX as nat
            },
        decreases ast,
    {
        let mut count: usize = 0;
        let mut i: usize = 0;
        proof {
            assert(nodes(ast@).take(0) =~= Seq::<Node>::empty());
        }
        while i < ast.len()
            invariant
                i <= ast.len(),
                count == if size(nodes(ast@).take(i as int)) <= usize::MAX {
                    size(nodes(ast@).take(i as int))
                } else {
                    usize::MAX as nat
                },
            decreases ast.len() - i,
        {
            proof {
                assert(nodes(ast@).take(i + 1) =~= nodes(ast@).take(i as int).push(
                    ast[i as int]@,
                ));
                lemma_size_push(nodes(ast@).take(i as int), ast[i as int]@);
            }
            let here: usize = match &ast[i] {
                Expression::Loop(body) => {
                    proof {
                        lemma_loop_view(*body);
                    }
                    Self::get_num_of_instr(body).saturating_add(1)
                },
                Expression::Operator(_) => 1,
            };
            count = count.saturating_add(here);
            i += 1;
        }
        proof {
            assert(nodes(ast@).take(i as int) =~= nodes(ast@));
        }
        count
    }

    /// Writes a program out as the tokens that it stands for.
    pub fn unparse(ast: &Vec<Expression>) -> (tokens: Vec<Token>)
        ensures
            tokens@ == flatten(nodes(ast@)),
    {
        let mut tokens: Vec<Token> = Vec::new();
        Self::unparse_into(ast, &mut tokens);
        proof {
            assert(Seq::<Token>::empty() + flatten(nodes(ast@)) =~= flatten(nodes(ast@)));
        }
        tokens
    }

    /// Puts the tokens that a program stands for at the end of `out`.
    fn unparse_into(ast: &Vec<Expression>, out: &mut Vec<Token>)
        ensures
            final(out)@ == old(out)@ + flatten(nodes(ast@)),
        decreases ast,
    {
        let mut i: usize = 0;
        proof {
            assert(nodes(ast@).take(0) =~= Seq::<Node>::empty());
            assert(out@ =~= old(out)@ + flatten(nodes(ast@).take(0)));
        }
        while i < ast.len()
            invariant
                i <= ast.len(),
                out@ == old(out)@ + flatten(nodes(ast@).take(i as int)),
            decreases ast.len() - i,
        {
            let ghost done = flatten(nodes(ast@).take(i as int));
            proof {
                assert(nodes(ast@).take(i + 1) =~= nodes(ast@).take(i as int).push(
                    ast[i as int]@,
                ));
                lemma_flatten_push(nodes(ast@).take(i as int), ast[i as int]@);
            }
            match &ast[i] {
                Expression::Loop(body) => {
                    proof {
                        lemma_loop_view(*body);
                    }
                    out.push(Token::LoopStart);
                    Self::unparse_into(body, out);
                    out.push(Token::LoopEnd);
                    proof {
                        assert(out@ =~= old(out)@ + (done + (seq![Token::LoopStart] + flatten(
                            nodes(body@),
                        ) + seq![Token::LoopEnd])));
                    }
                },
                Expression::Operator(op) => {
                    let mut k: u32 = 0;
                    while k < op._count
                        invariant
                            k <= op._count,
                            out@ == old(out)@ + done + repeat(op._type_name, k as nat),
                        decreases op._count - k,
                    {
                        out.push(op._type_name);
                        k += 1;
                        proof {
                            assert(repeat(op._type_name, k as nat) =~= repeat(
                                op._type_name,
                                (k - 1) as nat,
                            ).push(op._type_name));
                        }
                    }
                    proof {
                        assert(out@ =~= old(out)@ + (done + repeat(
                            op._type_name,
                            op._count as nat,
                        )));
                    }
                },
            }
            i += 1;
        }
        proof {
            assert(nodes(ast@).take(i as int) =~= nodes(ast@));
        }
    }

    /// The last node of `out`, if it is a run.
    fn last_run(out: &Vec<Expression>) -> (result: Option<Operators>)
        ensures
            match result {
                Some(run) => out.len() > 0 && nodes(out@).last() == Node::Op(
                    run._type_name,
                    run._count as nat,
                ),
                None => out.len() == 0 || nodes(out@).last() is Loop,
            },
    {
        let n: usize = out.len();
        if n == 0 {
            return None;
        }
        match &out[n - 1] {
            Expression::Operator(op) => Some(
                Operators { _type_name: op._type_name, _count: op._count },
            ),
            Expression::Loop(_) => None,
        }
    }

    /// Builds the nodes that begin at `start` and end before the bracket
    /// that closes the loop round `start`, or with the last token where no
    /// loop is open there. Returns them with the place behind that bracket.
    fn parse_to_ast(tokens: &Vec<Token>, start: usize) -> (result: (Vec<Expression>, usize))
        requires
            balanced(tokens@),
            start <= tokens.len(),
        ensures
            start <= result.1 <= tokens.len(),
            plain(nodes(result.0@)),
            nesting(tokens@.take(start as int)) == 0 ==> result.1 == tokens.len() && flatten(
                nodes(result.0@),
            ) == tokens@.subrange(start as int, result.1 as int),
            nesting(tokens@.take(start as int)) > 0 ==> {
                &&& start < result.1
                &&& tokens[result.1 - 1] == Token::LoopEnd
                &&& nesting(tokens@.take(result.1 as int)) == nesting(tokens@.take(start as int))
                    - 1
                &&& flatten(nodes(result.0@)) == tokens@.subrange(
                    start as int,
                    result.1 - 1,
                )
            },
        decreases tokens.len() - start,
    {
        let ghost t = tokens@;
        let ghost level = nesting(t.take(start as int));
        let mut expressions: Vec<Expression> = Vec::new();
        let mut index: usize = start;
        proof {
            assert(nodes(expressions@) =~= Seq::<Node>::empty());
            assert(t.subrange(start as int, start as int) =~= Seq::<Token>::empty());
        }
        while index < tokens.len()
            invariant
                t == tokens@,
                balanced(t),
                start <= index <= t.len(),
                level == nesting(t.take(start as int)),
                level == nesting(t.take(index as int)),
                plain(nodes(expressions@)),
                flatten(nodes(expressions@)) == t.subrange(start as int, index as int),
            decreases t.len() - index,
        {
            let token = tokens[index];
            let ghost built = expressions@;
            proof {
                lemma_nesting_step(t, index as int);
                assert(nesting(t.take(index + 1)) >= 0);
            }
            match token {
                Token::LoopStart => {
                    let (body, end) = Self::parse_to_ast(tokens, index + 1);
                    let node = Expression::Loop(body);
                    proof {
                        lemma_loop_view(body);
                        lemma_nodes_push(built, node);
                        lemma_flatten_push(nodes(built), node@);
                        assert(flatten(nodes(built.push(node))) =~= t.subrange(
                            start as int,
                            end as int,
                        ));
                        assert(plain_node(node@));
                    }
                    expressions.push(node);
                    index = end;
                },
                Token::LoopEnd => {
                    return (expressions, index + 1);
                },
                _ => {
                    let node = Expression::Operator(Box::new(Operators { _type_name: token, _count: 1 }));
                    proof {
                        lemma_nodes_push(built, node);
                        lemma_flatten_push(nodes(built), node@);
                        assert(flatten_node(node@) =~= seq![token]);
                        assert(flatten(nodes(built.push(node))) =~= t.subrange(
                            start as int,
                            index + 1,
                        ));
                        assert(plain_node(node@));
                    }
                    expressions.push(node);
                    index += 1;
                },
            }
        }
        proof {
            assert(t.take(index as int) =~= t);
        }
        (expressions, index)
    }
}

/// What one more token adds to the nesting of a prefix.
proof fn lemma_nesting_step(t: Seq<Token>, i: int)
    requires
        0 <= i < t.len(),
    ensures
        nesting(t.take(i + 1)) == nesting(t.take(i)) + if t[i] == Token::LoopStart {
            1int
        } else if t[i] == Token::LoopEnd {
            -1int
        } else {
            0int
        },
{
    assert(t.take(i + 1) =~= t.take(i).push(t[i]));
    lemma_count_of_push(t.take(i), t[i], Token::LoopStart);
    lemma_count_of_push(t.take(i), t[i], Token::LoopEnd);
}

/// The nesting of one token.
proof fn lemma_nesting_single(t: Token)
    ensures
        nesting(seq![t]) == if t == Token::LoopStart {
            1int
        } else if t == Token::LoopEnd {
            -1int
        } else {
            0int
        },
        nesting(Seq::<Token>::empty()) == 0,
{
    assert(seq![t] =~= Seq::<Token>::empty().push(t));
    lemma_count_of_push(Seq::<Token>::empty(), t, Token::LoopStart);
    lemma_count_of_push(Seq::<Token>::empty(), t, Token::LoopEnd);
}

/// Nesting adds up over two sequences, one after the other.
pub proof fn lemma_nesting_concat(s: Seq<Token>, t: Seq<Token>)
    ensures
        nesting(s + t) == nesting(s) + nesting(t),
{
    lemma_count_of_concat(s, t, Token::LoopStart);
    lemma_count_of_concat(s, t, Token::LoopEnd);
}

/// The tokens of a plain node open as many loops as they close, and no
/// part of them up to their end opens more than it closes.
pub proof fn lemma_flatten_node_closed(n: Node)
    requires
        plain_node(n),
    ensures
        nesting(flatten_node(n)) == 0,
        closes_behind(flatten_node(n)),
        flatten_node(n).len() >= 1,
        flatten_node(n).last() == match n {
            Node::Loop(_) => Token::LoopEnd,
            Node::Op(t, _) => t,
        },
    decreases n,
{
    let f = flatten_node(n);
    match n {
        Node::Loop(body) => {
            let inner = flatten(body);
            lemma_flatten_closed(body);
            lemma_nesting_single(Token::LoopStart);
            lemma_nesting_single(Token::LoopEnd);
            lemma_nesting_concat(seq![Token::LoopStart], inner);
            lemma_nesting_concat(seq![Token::LoopStart] + inner, seq![Token::LoopEnd]);
            assert forall|k: int| 0 <= k <= f.len() implies #[trigger] nesting(f.skip(k))
                <= 0 by {
                if k == 0 {
                    assert(f.skip(0) =~= f);
                } else if k <= inner.len() + 1 {
                    assert(f.skip(k) =~= inner.skip(k - 1) + seq![Token::LoopEnd]);
                    lemma_nesting_concat(inner.skip(k - 1), seq![Token::LoopEnd]);
                    assert(nesting(inner.skip(k - 1)) <= 0);
                } else {
                    assert(f.skip(k) =~= Seq::<Token>::empty());
                }
            }
        },
        Node::Op(t, c) => {
            assert(f =~= seq![t]);
            lemma_nesting_single(t);
            assert forall|k: int| 0 <= k <= f.len() implies #[trigger] nesting(f.skip(k))
                <= 0 by {
                if k == 0 {
                    assert(f.skip(0) =~= f);
                } else {
                    assert(f.skip(k) =~= Seq::<Token>::empty());
                }
            }
        },
    }
}

/// The tokens of a plain program open as many loops as they close, and no
/// part of them up to their end opens more than it closes.
pub proof fn lemma_flatten_closed(s: Seq<Node>)
    requires
        plain(s),
    ensures
        nesting(flatten(s)) == 0,
        closes_behind(flatten(s)),
        s.len() > 0 ==> flatten(s).len() > 0,
    decreases s,
{
    if s.len() == 0 {
        lemma_nesting_single(Token::Add);
        assert(flatten(s).skip(0) =~= flatten(s));
    } else {
        let front = flatten(s.drop_last());
        let back = flatten_node(s.last());
        let f = flatten(s);
        lemma_plain_front(s);
        lemma_flatten_closed(s.drop_last());
        lemma_flatten_node_closed(s.last());
        lemma_nesting_concat(front, back);
        assert forall|k: int| 0 <= k <= f.len() implies #[trigger] nesting(f.skip(k)) <= 0 by {
            if k <= front.len() {
                assert(f.skip(k) =~= front.skip(k) + back);
                lemma_nesting_concat(front.skip(k), back);
                assert(nesting(front.skip(k)) <= 0);
            } else {
                assert(f.skip(k) =~= back.skip(k - front.len()));
                assert(nesting(back.skip(k - front.len())) <= 0);
            }
        }
    }
}

/// A plain program without its last node is plain.
proof fn lemma_plain_front(s: Seq<Node>)
    requires
        plain(s),
        s.len() > 0,
    ensures
        plain(s.drop_last()),
        plain_node(s.last()),
{
    assert forall|i: int| 0 <= i < s.drop_last().len() implies plain_node(
        #[trigger] s.drop_last()[i],
    ) by {
        assert(plain_node(s[i]));
    }
}

/// Two plain programs that stand for the same tokens are the same program.
pub proof fn lemma_spelling_unique(a: Seq<Node>, b: Seq<Node>)
    requires
        plain(a),
        plain(b),
        flatten(a) == flatten(b),
    ensures
        a == b,
    decreases a,
{
    lemma_flatten_closed(a);
    lemma_flatten_closed(b);
    if a.len() == 0 || b.len() == 0 {
        assert(a =~= b);
    } else {
        let whole = flatten(a);
        let a1 = a.drop_last();
        let b1 = b.drop_last();
        let x = a.last();
        let y = b.last();
        let pa = flatten(a1);
        let pb = flatten(b1);
        lemma_plain_front(a);
        lemma_plain_front(b);
        lemma_flatten_node_closed(x);
        lemma_flatten_node_closed(y);
        assert(whole.last() == flatten_node(x).last());
        assert(whole.last() == flatten_node(y).last());
        match (x, y) {
            (Node::Op(t, c), Node::Op(u, d)) => {
                assert(flatten_node(x) =~= seq![t]);
                assert(flatten_node(y) =~= seq![u]);
                assert(pa =~= whole.drop_last());
                assert(pb =~= whole.drop_last());
                lemma_spelling_unique(a1, b1);
            },
            (Node::Loop(ba), Node::Loop(bb)) => {
                let fa = flatten(ba);
                let fb = flatten(bb);
                lemma_flatten_closed(ba);
                lemma_flatten_closed(bb);
                lemma_nesting_single(Token::LoopStart);
                if fa.len() < fb.len() {
                    let k = fb.len() - fa.len() - 1;
                    assert(fb.skip(k) =~= seq![Token::LoopStart] + fa) by {
                        assert forall|m: int| 0 <= m < fa.len() + 1 implies fb.skip(k)[m] == (seq![
                            Token::LoopStart,
                        ] + fa)[m] by {
                            assert(fb[k + m] == whole[pb.len() + 1 + k + m]);
                            assert(whole[pa.len() + m] == (seq![Token::LoopStart] + fa)[m]);
                        }
                    }
                    lemma_nesting_concat(seq![Token::LoopStart], fa);
                    assert(nesting(fb.skip(k)) <= 0);
                    assert(false);
                }
                if fb.len() < fa.len() {
                    let k = fa.len() - fb.len() - 1;
                    assert(fa.skip(k) =~= seq![Token::LoopStart] + fb) by {
                        assert forall|m: int| 0 <= m < fb.len() + 1 implies fa.skip(k)[m] == (seq![
                            Token::LoopStart,
                        ] + fb)[m] by {
                            assert(fa[k + m] == whole[pa.len() + 1 + k + m]);
                            assert(whole[pb.len() + m] == (seq![Token::LoopStart] + fb)[m]);
                        }
                    }
                    lemma_nesting_concat(seq![Token::LoopStart], fb);
                    assert(nesting(fa.skip(k)) <= 0);
                    assert(false);
                }
                assert(fa =~= fb) by {
                    assert forall|m: int| 0 <= m < fa.len() implies fa[m] == fb[m] by {
                        assert(fa[m] == whole[pa.len() + 1 + m]);
                        assert(fb[m] == whole[pb.len() + 1 + m]);
                    }
                }
                assert(pa =~= pb) by {
                    assert forall|m: int| 0 <= m < pa.len() implies pa[m] == pb[m] by {
                        assert(pa[m] == whole[m]);
                        assert(pb[m] == whole[m]);
                    }
                }
                lemma_spelling_unique(ba, bb);
                lemma_spelling_unique(a1, b1);
            },
            _ => {
                assert(false);
            },
        }
        assert(a =~= a1.push(x));
        assert(b =~= b1.push(y));
    }
}

/// The program that a stream of tokens spells out is the one plain program
/// that stands for those tokens.
pub proof fn lemma_syntax_tree(tree: Seq<Node>, t: Seq<Token>)
    requires
        spells(tree, t),
    ensures
        syntax_tree(t) == tree,
{
    lemma_spelling_unique(syntax_tree(t), tree);
}

/// A plain node is well formed.
pub proof fn lemma_plain_node_well_formed(n: Node)
    requires
        plain_node(n),
    ensures
        well_formed_node(n),
    decreases n,
{
    match n {
        Node::Loop(body) => {
            assert forall|i: int| 0 <= i < body.len() implies well_formed_node(
                #[trigger] body[i],
            ) by {
                lemma_plain_node_well_formed(body[i]);
            }
        },
        Node::Op(_, _) => {},
    }
}

/// A plain program is well formed.
pub proof fn lemma_plain_well_formed(s: Seq<Node>)
    requires
        plain(s),
    ensures
        well_formed(s),
{
    assert forall|i: int| 0 <= i < s.len() implies well_formed_node(#[trigger] s[i]) by {
        lemma_plain_node_well_formed(s[i]);
    }
}

/// Absorbing a settled node into a settled program leaves it settled.
proof fn lemma_absorb_settled(acc: Seq<Node>, n: Node)
    requires
        settled(acc),
        settled_node(n),
    ensures
        settled(absorb(acc, n)),
{
    let r = absorb(acc, n);
    if acc.len() > 0 && mergeable(acc.last(), n) {
        assert forall|i: int| 0 <= i < r.len() implies settled_node(#[trigger] r[i]) by {
            if i < r.len() - 1 {
                assert(settled_node(acc[i]));
            }
        }
        assert forall|i: int| 0 <= i < r.len() - 1 implies !mergeable(#[trigger] r[i], r[i + 1]) by {
            assert(!mergeable(acc[i], acc[i + 1]));
        }
    } else {
        assert forall|i: int| 0 <= i < r.len() implies settled_node(#[trigger] r[i]) by {
            if i < r.len() - 1 {
                assert(settled_node(acc[i]));
            }
        }
        assert forall|i: int| 0 <= i < r.len() - 1 implies !mergeable(#[trigger] r[i], r[i + 1]) by {
            if i < r.len() - 2 {
                assert(!mergeable(acc[i], acc[i + 1]));
            }
        }
    }
}

/// A collapsed node is settled.
pub proof fn lemma_collapse_node_settles(n: Node)
    ensures
        settled_node(collapse_node(n)),
    decreases n,
{
    match n {
        Node::Loop(body) => {
            lemma_collapse_settles(body);
        },
        Node::Op(_, _) => {},
    }
}

/// A collapsed program is settled.
pub proof fn lemma_collapse_settles(s: Seq<Node>)
    ensures
        settled(collapse(s)),
    decreases s,
{
    if s.len() > 0 {
        lemma_collapse_settles(s.drop_last());
        lemma_collapse_node_settles(s.last());
        lemma_absorb_settled(collapse(s.drop_last()), collapse_node(s.last()));
    }
}

/// Collapsing leaves a settled node as it is.
pub proof fn lemma_settled_node_fixed(n: Node)
    requires
        settled_node(n),
    ensures
        collapse_node(n) == n,
    decreases n,
{
    match n {
        Node::Loop(body) => {
            lemma_settled_fixed(body);
        },
        Node::Op(_, _) => {},
    }
}

/// Collapsing leaves a settled program as it is.
pub proof fn lemma_settled_fixed(s: Seq<Node>)
    requires
        settled(s),
    ensures
        collapse(s) == s,
    decreases s,
{
    if s.len() == 0 {
        assert(collapse(s) =~= s);
    } else {
        let front = s.drop_last();
        assert(settled(front)) by {
            assert forall|i: int| 0 <= i < front.len() implies settled_node(#[trigger] front[i]) by {
                assert(settled_node(s[i]));
            }
            assert forall|i: int| 0 <= i < front.len() - 1 implies !mergeable(
                #[trigger] front[i],
                front[i + 1],
            ) by {
                assert(!mergeable(s[i], s[i + 1]));
            }
        }
        assert(settled_node(s.last()));
        lemma_settled_fixed(front);
        lemma_settled_node_fixed(s.last());
        if front.len() > 0 {
            assert(!mergeable(s[s.len() - 2], s[s.len() - 2 + 1]));
        }
        assert(front.push(s.last()) =~= s);
    }
}

/// Collapsing twice gives what collapsing once gives.
pub proof fn lemma_collapse_idempotent(s: Seq<Node>)
    ensures
        collapse(collapse(s)) == collapse(s),
{
    lemma_collapse_settles(s);
    lemma_settled_fixed(collapse(s));
}

/// A collapsed node stands for the tokens that it stood for before.
pub proof fn lemma_collapse_node_flatten(n: Node)
    ensures
        flatten_node(collapse_node(n)) == flatten_node(n),
    decreases n,
{
    match n {
        Node::Loop(body) => {
            lemma_collapse_flatten(body);
        },
        Node::Op(_, _) => {},
    }
}

/// A collapsed program stands for the tokens that it stood for before, in
/// the same order.
pub proof fn lemma_collapse_flatten(s: Seq<Node>)
    ensures
        flatten(collapse(s)) == flatten(s),
    decreases s,
{
    if s.len() > 0 {
        let acc = collapse(s.drop_last());
        let n = collapse_node(s.last());
        lemma_collapse_flatten(s.drop_last());
        lemma_collapse_node_flatten(s.last());
        if acc.len() > 0 && mergeable(acc.last(), n) {
            let kept = acc.drop_last();
            assert(acc =~= kept.push(acc.last()));
            lemma_flatten_push(kept, acc.last());
            lemma_flatten_push(kept, merged(acc.last(), n));
            lemma_repeat_concat(acc.last()->Op_0, acc.last()->Op_1, n->Op_1);
            assert(flatten(kept) + flatten_node(acc.last()) + flatten_node(n) =~= flatten(kept) + (
            flatten_node(acc.last()) + flatten_node(n)));
        } else {
            lemma_flatten_push(acc, n);
        }
    }
}

/// A tree built from tokens, collapsed or not, stands for those tokens, in
/// their order.
pub proof fn lemma_round_trip(t: Seq<Token>, tree: Seq<Node>)
    requires
        spells(tree, t),
    ensures
        flatten(tree) == t,
        flatten(collapse(tree)) == t,
{
    lemma_collapse_flatten(tree);
}

/// A well-formed node is still well formed when collapsed.
pub proof fn lemma_collapse_node_well_formed(n: Node)
    requires
        well_formed_node(n),
    ensures
        well_formed_node(collapse_node(n)),
    decreases n,
{
    match n {
        Node::Loop(body) => {
            lemma_collapse_well_formed(body);
        },
        Node::Op(_, _) => {},
    }
}

/// A well-formed program is still well formed when collapsed.
pub proof fn lemma_collapse_well_formed(s: Seq<Node>)
    requires
        well_formed(s),
    ensures
        well_formed(collapse(s)),
    decreases s,
{
    if s.len() > 0 {
        let acc = collapse(s.drop_last());
        let n = collapse_node(s.last());
        let r = collapse(s);
        assert(well_formed(s.drop_last())) by {
            assert forall|i: int| 0 <= i < s.drop_last().len() implies well_formed_node(
                #[trigger] s.drop_last()[i],
            ) by {
                assert(well_formed_node(s[i]));
            }
        }
        assert(well_formed_node(s.last()));
        lemma_collapse_well_formed(s.drop_last());
        lemma_collapse_node_well_formed(s.last());
        assert forall|i: int| 0 <= i < r.len() implies well_formed_node(#[trigger] r[i]) by {
            if i < r.len() - 1 {
                assert(well_formed_node(acc[i]));
            } else if acc.len() > 0 {
                assert(well_formed_node(acc[acc.len() - 1]));
            }
        }
    }
}

/// A program with one more node has the nodes of both.
pub proof fn lemma_size_push(s: Seq<Node>, n: Node)
    ensures
        size(s.push(n)) == size(s) + node_size(n),
{
    assert(s.push(n).drop_last() =~= s);
}

} // verus!
