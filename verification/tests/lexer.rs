use brainfuck::error::ErrorKind;
use brainfuck::lexer::{scan, Lexer, Token, TokenType};

#[test]
fn next_token_recognize_all_tokens() {
    let mut l = Lexer::new("+<>-,.[]").unwrap();

    assert_eq!(
        l.next_token(),
        Token {
            position: 0,
            token_type: TokenType::Inc,
            literal: '+'
        }
    );
    assert_eq!(
        l.next_token(),
        Token {
            position: 1,
            token_type: TokenType::PtrLeft,
            literal: '<'
        }
    );
    assert_eq!(
        l.next_token(),
        Token {
            position: 2,
            token_type: TokenType::PtrRight,
            literal: '>'
        }
    );
    assert_eq!(
        l.next_token(),
        Token {
            position: 3,
            token_type: TokenType::Dec,
            literal: '-'
        }
    );
    assert_eq!(
        l.next_token(),
        Token {
            token_type: TokenType::Read,
            position: 4,
            literal: ','
        }
    );
    assert_eq!(
        l.next_token(),
        Token {
            token_type: TokenType::Write,
            literal: '.',
            position: 5,
        }
    );
    assert_eq!(
        l.next_token(),
        Token {
            token_type: TokenType::LoopStart,
            position: 6,
            literal: '['
        }
    );
    assert_eq!(
        l.next_token(),
        Token {
            token_type: TokenType::LoopEnd,
            literal: ']',
            position: 7,
        }
    );
    assert_eq!(
        l.next_token(),
        Token {
            position: 8,
            token_type: TokenType::Eof,
            literal: '0'
        }
    );
}

#[test]
fn next_token_recognize_illegal_token() {
    let mut l = Lexer::new("ab").unwrap();
    assert_eq!(
        l.next_token(),
        Token {
            token_type: TokenType::Illegal,
            position: 0,
            literal: 'a'
        }
    );
    assert_eq!(
        l.next_token(),
        Token {
            token_type: TokenType::Illegal,
            position: 1,
            literal: 'b'
        }
    );
    assert_eq!(
        l.next_token(),
        Token {
            position: 2,
            token_type: TokenType::Eof,
            literal: '0'
        }
    )
}

#[test]
fn scan_rejects_empty_source() {
    assert!(matches!(scan(""), Err(ErrorKind::EmptySource)));
    assert!(matches!(Lexer::new(""), Err(ErrorKind::EmptySource)));
}

#[test]
fn scan_tags_every_character_and_ends_with_eof() {
    let tokens = scan("+x]").unwrap();
    assert_eq!(tokens.len(), 4);
    assert_eq!(
        tokens[0],
        Token {
            token_type: TokenType::Inc,
            literal: '+',
            position: 0
        }
    );
    assert_eq!(
        tokens[1],
        Token {
            token_type: TokenType::Illegal,
            literal: 'x',
            position: 1
        }
    );
    assert_eq!(
        tokens[2],
        Token {
            token_type: TokenType::LoopEnd,
            literal: ']',
            position: 2
        }
    );
    assert_eq!(
        tokens[3],
        Token {
            token_type: TokenType::Eof,
            literal: '0',
            position: 3
        }
    );
}

#[test]
fn scan_is_pure() {
    let first = scan("+[->+<]x.").unwrap();
    let second = scan("+[->+<]x.").unwrap();
    assert_eq!(first, second);
}

#[test]
fn next_token_keeps_advancing_past_eof() {
    let mut l = Lexer::new("+").unwrap();
    assert_eq!(
        l.next_token(),
        Token {
            token_type: TokenType::Inc,
            literal: '+',
            position: 0
        }
    );
    assert_eq!(
        l.next_token(),
        Token {
            token_type: TokenType::Eof,
            literal: '0',
            position: 1
        }
    );
    assert_eq!(
        l.next_token(),
        Token {
            token_type: TokenType::Eof,
            literal: '0',
            position: 2
        }
    );
}
