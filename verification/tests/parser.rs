use brainfuck::error::ErrorKind;
use brainfuck::lexer::scan;
use brainfuck::parser::{Parser, StatementKind};

#[test]
fn unmatched_loop_close_reports_offset() {
    let tokens = scan("]").unwrap();
    let r = Parser::parse(&tokens);
    assert!(matches!(r, Err(ErrorKind::UnmatchedLoopClose(0))));
}

#[test]
fn unmatched_loop_open_reports_offset() {
    let tokens = scan("[").unwrap();
    let r = Parser::parse(&tokens);
    assert!(matches!(r, Err(ErrorKind::UnmatchedLoopOpen(0))));
}

#[test]
fn unmatched_loop_open_reports_innermost_offset() {
    let tokens = scan("+[>[-]").unwrap();
    let r = Parser::parse(&tokens);
    assert!(matches!(r, Err(ErrorKind::UnmatchedLoopOpen(1))));
}

#[test]
fn over_closing_wins_over_left_open() {
    let tokens = scan("[]]").unwrap();
    let r = Parser::parse(&tokens);
    assert!(matches!(r, Err(ErrorKind::UnmatchedLoopClose(2))));
}

#[test]
fn loops_nest_as_children() {
    let tokens = scan("+[->[+]<]").unwrap();
    let ast = Parser::parse(&tokens).unwrap();
    assert_eq!(ast.len(), 2);
    assert!(matches!(ast[0].kind, StatementKind::Math(_)));
    assert!(matches!(ast[1].kind, StatementKind::Loop));
    let outer = &ast[1].children;
    assert_eq!(outer.len(), 4);
    assert!(matches!(outer[2].kind, StatementKind::Loop));
    assert_eq!(outer[2].children.len(), 1);
}

#[test]
fn illegal_tokens_contribute_no_statement() {
    let tokens = scan("a+b c+d").unwrap();
    let ast = Parser::parse(&tokens).unwrap();
    assert_eq!(ast.len(), 2);
    assert!(matches!(ast[0].kind, StatementKind::Math(_)));
    assert!(matches!(ast[1].kind, StatementKind::Math(_)));
}

#[test]
fn leaves_carry_no_children() {
    let tokens = scan("><+-,.").unwrap();
    let ast = Parser::parse(&tokens).unwrap();
    assert_eq!(ast.len(), 6);
    for st in ast.iter() {
        assert_eq!(st.children.len(), 0);
    }
}
