use bfk_interpreter::grammar::Token;
use bfk_interpreter::lexer::{Lexer, StructuralError};

fn scan(source: &str) -> Vec<Token> {
    Lexer::new(source.to_string()).unwrap().tokens()
}

fn count(tokens: &[Token], token: Token) -> usize {
    tokens.iter().filter(|t| **t == token).count()
}

#[test]
fn scan_gives_the_tokens_in_order() {
    assert_eq!(
        scan("++[>+<-]."),
        vec![
            Token::Add,
            Token::Add,
            Token::LoopStart,
            Token::MoveForward,
            Token::Add,
            Token::MoveBack,
            Token::Sub,
            Token::LoopEnd,
            Token::StdOut,
        ]
    );
}

#[test]
fn scan_knows_all_eight_symbols() {
    assert_eq!(
        scan("><+-.,[]"),
        vec![
            Token::MoveForward,
            Token::MoveBack,
            Token::Add,
            Token::Sub,
            Token::StdOut,
            Token::StdIn,
            Token::LoopStart,
            Token::LoopEnd,
        ]
    );
}

#[test]
fn scan_leaves_out_every_other_character() {
    assert_eq!(scan("a+b\n-c é"), vec![Token::Add, Token::Sub]);
    assert_eq!(scan(""), Vec::<Token>::new());
    assert_eq!(scan("no symbols here\n"), Vec::<Token>::new());
}

#[test]
fn nested_text_has_as_many_opens_as_closes() {
    let tokens = scan("[[][[]]]+[-[>]<]");
    assert_eq!(count(&tokens, Token::LoopStart), 6);
    assert_eq!(count(&tokens, Token::LoopEnd), 6);
}

#[test]
fn lone_close_is_unmatched() {
    let d = Lexer::new("]".to_string()).unwrap_err();
    assert_eq!(d.kind, StructuralError::UnmatchedClose);
    assert_eq!(d.line, 1);
    assert_eq!(d.column, 1);
    assert_eq!(d.message, "Not enough matches for ']'");
    assert_eq!(d.source_excerpt, "]");
    assert_eq!(d.caret_offset, 0);
}

#[test]
fn unmatched_close_is_reported_at_the_first_offence() {
    let d = Lexer::new("+[]]+]".to_string()).unwrap_err();
    assert_eq!(d.kind, StructuralError::UnmatchedClose);
    assert_eq!(d.line, 1);
    assert_eq!(d.column, 4);
    assert_eq!(d.source_excerpt, "+[]]+]");
    assert_eq!(d.caret_offset, 3);
}

#[test]
fn close_before_open_is_unmatched() {
    let d = Lexer::new("][".to_string()).unwrap_err();
    assert_eq!(d.kind, StructuralError::UnmatchedClose);
    assert_eq!(d.column, 1);
}

#[test]
fn open_brackets_left_are_counted() {
    let d = Lexer::new("[[".to_string()).unwrap_err();
    assert_eq!(d.kind, StructuralError::UnmatchedOpen { excess: 2 });
    assert_eq!(d.message, "An Excess of 2 '[' brackets were found");
    assert_eq!(d.line, 1);
    assert_eq!(d.column, 2);
    assert_eq!(d.source_excerpt, "[[");
    assert_eq!(d.caret_offset, 1);

    let d = Lexer::new("[[+]".to_string()).unwrap_err();
    assert_eq!(d.kind, StructuralError::UnmatchedOpen { excess: 1 });
    assert_eq!(d.message, "An Excess of 1 '[' brackets were found");
}

#[test]
fn excess_is_written_in_decimal() {
    let d = Lexer::new("[".repeat(12)).unwrap_err();
    assert_eq!(d.kind, StructuralError::UnmatchedOpen { excess: 12 });
    assert_eq!(d.message, "An Excess of 12 '[' brackets were found");
    assert_eq!(d.column, 12);
    assert_eq!(d.source_excerpt, "[".repeat(10));
    assert_eq!(d.caret_offset, 9);

    let d = Lexer::new("[".repeat(1050)).unwrap_err();
    assert_eq!(d.message, "An Excess of 1050 '[' brackets were found");
}

#[test]
fn move_below_first_cell_is_rejected() {
    let d = Lexer::new("><<".to_string()).unwrap_err();
    assert_eq!(d.kind, StructuralError::NegativeIndex);
    assert_eq!(d.message, "Index runs out of bounds");
    assert_eq!(d.line, 1);
    assert_eq!(d.column, 3);
    assert_eq!(d.source_excerpt, "><<");
    assert_eq!(d.caret_offset, 2);
}

#[test]
fn the_first_offence_decides_the_kind() {
    let d = Lexer::new("<]".to_string()).unwrap_err();
    assert_eq!(d.kind, StructuralError::NegativeIndex);
    assert_eq!(d.column, 1);

    let d = Lexer::new("]<".to_string()).unwrap_err();
    assert_eq!(d.kind, StructuralError::UnmatchedClose);
    assert_eq!(d.column, 1);

    let d = Lexer::new("[<".to_string()).unwrap_err();
    assert_eq!(d.kind, StructuralError::NegativeIndex);
    assert_eq!(d.column, 2);
}

#[test]
fn moves_inside_loops_count_once_each() {
    assert!(Lexer::new(">+[<+]".to_string()).is_ok());
    let d = Lexer::new("+[<]".to_string()).unwrap_err();
    assert_eq!(d.kind, StructuralError::NegativeIndex);
}

#[test]
fn line_and_column_follow_line_feeds() {
    let d = Lexer::new("+\n+\n  ]".to_string()).unwrap_err();
    assert_eq!(d.kind, StructuralError::UnmatchedClose);
    assert_eq!(d.line, 3);
    assert_eq!(d.column, 3);
    assert_eq!(d.source_excerpt, "  ]");
    assert_eq!(d.caret_offset, 2);
}

#[test]
fn open_bracket_report_marks_the_last_character() {
    let d = Lexer::new("[\n".to_string()).unwrap_err();
    assert_eq!(d.kind, StructuralError::UnmatchedOpen { excess: 1 });
    assert_eq!(d.line, 2);
    assert_eq!(d.column, 0);
    assert_eq!(d.source_excerpt, "[\n");
    assert_eq!(d.caret_offset, 1);

    let d = Lexer::new("[\n++".to_string()).unwrap_err();
    assert_eq!(d.line, 2);
    assert_eq!(d.column, 2);
    assert_eq!(d.source_excerpt, "++");
    assert_eq!(d.caret_offset, 1);
}

#[test]
fn excerpt_reaches_nine_characters_each_way() {
    let source = format!("{}]{}", "+".repeat(12), "-".repeat(12));
    let d = Lexer::new(source).unwrap_err();
    assert_eq!(d.column, 13);
    assert_eq!(d.source_excerpt, format!("{}]{}", "+".repeat(9), "-".repeat(9)));
    assert_eq!(d.caret_offset, 9);
}

#[test]
fn excerpt_stays_within_the_line() {
    assert_eq!(Lexer::extract_err_line("ab\ncd", 3), ("cd", 0));
    assert_eq!(Lexer::extract_err_line("ab\ncd", 4), ("cd", 1));
    assert_eq!(Lexer::extract_err_line("ab\ncd", 0), ("ab", 0));
    assert_eq!(Lexer::extract_err_line("ab\ncd", 1), ("ab", 1));
    assert_eq!(Lexer::extract_err_line("x", 0), ("x", 0));
}

#[test]
fn excerpt_counts_characters_not_bytes() {
    assert_eq!(Lexer::extract_err_line("é]è", 1), ("é]è", 1));
    let d = Lexer::new("éé]".to_string()).unwrap_err();
    assert_eq!(d.column, 3);
    assert_eq!(d.source_excerpt, "éé]");
    assert_eq!(d.caret_offset, 2);
}

#[test]
fn every_kind_has_its_message() {
    assert_eq!(StructuralError::UnmatchedClose.message(), "Not enough matches for ']'");
    assert_eq!(StructuralError::NegativeIndex.message(), "Index runs out of bounds");
    assert_eq!(
        StructuralError::UnmatchedOpen { excess: 0 }.message(),
        "An Excess of 0 '[' brackets were found"
    );
    assert_eq!(
        StructuralError::UnmatchedOpen { excess: 4294967295 }.message(),
        "An Excess of 4294967295 '[' brackets were found"
    );
}

#[test]
fn the_line_feed_ends_a_line() {
    assert_eq!(Lexer::new_line(), '\n');
}
