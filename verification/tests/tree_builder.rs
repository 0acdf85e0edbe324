use bfk_interpreter::grammar::{Expression, Operators, Token};
use bfk_interpreter::lexer::{Lexer, StructuralError};
use bfk_interpreter::parser::Parser;

fn op(token: Token, count: u32) -> Expression {
    Expression::Operator(Box::new(Operators { _type_name: token, _count: count }))
}

fn parse(source: &str, optimise: bool) -> Vec<Expression> {
    Parser::new(source.to_string(), optimise).unwrap().generate_ast()
}

#[test]
fn flat_text_becomes_single_runs() {
    assert_eq!(parse("+-", false), vec![op(Token::Add, 1), op(Token::Sub, 1)]);
    assert_eq!(parse("", false), Vec::<Expression>::new());
    assert_eq!(
        parse("++", false),
        vec![op(Token::Add, 1), op(Token::Add, 1)]
    );
}

#[test]
fn brackets_become_nested_loops() {
    assert_eq!(
        parse("+[>[-]<].", false),
        vec![
            op(Token::Add, 1),
            Expression::Loop(vec![
                op(Token::MoveForward, 1),
                Expression::Loop(vec![op(Token::Sub, 1)]),
                op(Token::MoveBack, 1),
            ]),
            op(Token::StdOut, 1),
        ]
    );
    assert_eq!(
        parse("[][[]]", false),
        vec![
            Expression::Loop(vec![]),
            Expression::Loop(vec![Expression::Loop(vec![])]),
        ]
    );
}

#[test]
fn tree_flattens_back_to_its_tokens() {
    for source in ["", "+", "++>+++++[<+>-]<.", "[[][[]]]+[-[>]<],.", ">>++[-]<<"] {
        let tokens = Lexer::new(source.to_string()).unwrap().tokens();
        assert_eq!(Parser::unparse(&parse(source, false)), tokens);
        assert_eq!(Parser::unparse(&parse(source, true)), tokens);
    }
}

#[test]
fn unparse_writes_runs_out_in_full() {
    let tree = vec![
        op(Token::Add, 3),
        Expression::Loop(vec![op(Token::Sub, 2)]),
        op(Token::StdOut, 0),
    ];
    assert_eq!(
        Parser::unparse(&tree),
        vec![
            Token::Add,
            Token::Add,
            Token::Add,
            Token::LoopStart,
            Token::Sub,
            Token::Sub,
            Token::LoopEnd,
        ]
    );
}

#[test]
fn neighbouring_runs_collapse() {
    assert_eq!(
        parse("+++>>-", true),
        vec![op(Token::Add, 3), op(Token::MoveForward, 2), op(Token::Sub, 1)]
    );
    assert_eq!(
        parse(",,..", true),
        vec![op(Token::StdIn, 2), op(Token::StdOut, 2)]
    );
    assert_eq!(
        parse("+-+", true),
        vec![op(Token::Add, 1), op(Token::Sub, 1), op(Token::Add, 1)]
    );
}

#[test]
fn runs_do_not_collapse_across_loops() {
    assert_eq!(
        parse("++[--]++", true),
        vec![
            op(Token::Add, 2),
            Expression::Loop(vec![op(Token::Sub, 2)]),
            op(Token::Add, 2),
        ]
    );
    assert_eq!(
        parse("+[]+", true),
        vec![op(Token::Add, 1), Expression::Loop(vec![]), op(Token::Add, 1)]
    );
    assert_eq!(
        parse("[[++]++]", true),
        vec![Expression::Loop(vec![
            Expression::Loop(vec![op(Token::Add, 2)]),
            op(Token::Add, 2),
        ])]
    );
}

#[test]
fn collapsing_twice_is_collapsing_once() {
    for source in ["", "+++", "++[--]++", "+[>>[--]<<]..,,", "+-+-"] {
        let plain = parse(source, false);
        let once = Parser::optimise(&plain);
        let twice = Parser::optimise(&once);
        assert_eq!(twice, once);
        assert_eq!(once, parse(source, true));
    }
}

#[test]
fn a_sum_too_large_for_a_count_is_not_merged() {
    let tree = vec![op(Token::Add, u32::MAX), op(Token::Add, 1)];
    assert_eq!(Parser::optimise(&tree), tree);

    let tree = vec![op(Token::Add, u32::MAX - 1), op(Token::Add, 1)];
    assert_eq!(Parser::optimise(&tree), vec![op(Token::Add, u32::MAX)]);

    let tree = vec![op(Token::Add, u32::MAX - 2), op(Token::Add, 3), op(Token::Add, 4)];
    let once = Parser::optimise(&tree);
    assert_eq!(once, vec![op(Token::Add, u32::MAX - 2), op(Token::Add, 7)]);
    assert_eq!(Parser::optimise(&once), once);
}

#[test]
fn optimise_sums_counts_that_are_already_runs() {
    let tree = vec![op(Token::Sub, 5), op(Token::Sub, 7), op(Token::MoveBack, 2)];
    assert_eq!(
        Parser::optimise(&tree),
        vec![op(Token::Sub, 12), op(Token::MoveBack, 2)]
    );
}

#[test]
fn a_second_tree_is_empty() {
    let mut parser = Parser::new("+[-]".to_string(), false).unwrap();
    assert_eq!(
        parser.generate_ast(),
        vec![op(Token::Add, 1), Expression::Loop(vec![op(Token::Sub, 1)])]
    );
    assert_eq!(parser.generate_ast(), Vec::<Expression>::new());
}

#[test]
fn rejected_text_builds_no_parser() {
    let d = Parser::new("]".to_string(), false).unwrap_err();
    assert_eq!(d.kind, StructuralError::UnmatchedClose);
    let d = Parser::new("[".to_string(), true).unwrap_err();
    assert_eq!(d.kind, StructuralError::UnmatchedOpen { excess: 1 });
    let d = Parser::new("<".to_string(), true).unwrap_err();
    assert_eq!(d.kind, StructuralError::NegativeIndex);
}

#[test]
fn instructions_are_counted_with_those_of_loops() {
    assert_eq!(Parser::get_num_of_instr(&parse("", false)), 0);
    assert_eq!(Parser::get_num_of_instr(&parse("+[>[-]<].", false)), 7);
    assert_eq!(Parser::get_num_of_instr(&parse("+++[-]", false)), 5);
    assert_eq!(Parser::get_num_of_instr(&parse("+++[-]", true)), 3);
}
