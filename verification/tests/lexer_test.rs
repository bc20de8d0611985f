use monkey_interpreter::lexer::{
    is_digit, is_letter, is_newline, is_whitespace, tokenize, Lexer, Token, TokenWithMeta,
};

#[test]
fn test_is_letter() {
    assert!(is_letter(b'a'));
    assert!(is_letter(b's'));
    assert!(is_letter(b'z'));
    assert!(is_letter(b'A'));
    assert!(is_letter(b'T'));
    assert!(is_letter(b'Z'));
    assert!(is_letter(b'_'));
    assert!(!is_letter(b'1'));
    assert!(!is_letter(b'+'));
    assert!(!is_letter(b'='));
}

#[test]
fn test_lexer_onechar() {
    let input_string = "=+(){},;";
    let mut lexer = Lexer::new(input_string.as_bytes());

    let tokens_truth = [
        Token::ASSIGN,
        Token::PLUS,
        Token::LPAREN,
        Token::RPAREN,
        Token::LBRACE,
        Token::RBRACE,
        Token::COMMA,
        Token::SEMICOLON,
        Token::EOF,
    ];
    for token in tokens_truth.iter() {
        assert_eq!(lexer.next_token().token, *token)
    }
}

#[test]
fn test_lexer_ident() {
    let input_string = "
            let five = 5;
            let ten = 10;
            let add = fn(x, y) {
            x + y;
            };
            let result = add(five, ten);
        ";
    let mut lexer = Lexer::new(input_string.as_bytes());

    let tokens_truth = [
        Token::LET,
        Token::IDENT("five".to_string()),
        Token::ASSIGN,
        Token::INT(5),
        Token::SEMICOLON,
        //
        Token::LET,
        Token::IDENT("ten".to_string()),
        Token::ASSIGN,
        Token::INT(10),
        Token::SEMICOLON,
        //
        Token::LET,
        Token::IDENT("add".to_string()),
        Token::ASSIGN,
        Token::FUNCTION,
        Token::LPAREN,
        Token::IDENT("x".to_string()),
        Token::COMMA,
        Token::IDENT("y".to_string()),
        Token::RPAREN,
        //
        Token::LBRACE,
        Token::IDENT("x".to_string()),
        Token::PLUS,
        Token::IDENT("y".to_string()),
        Token::SEMICOLON,
        Token::RBRACE,
        Token::SEMICOLON,
        //
        Token::LET,
        Token::IDENT("result".to_string()),
        Token::ASSIGN,
        Token::IDENT("add".to_string()),
        Token::LPAREN,
        Token::IDENT("five".to_string()),
        Token::COMMA,
        Token::IDENT("ten".to_string()),
        Token::RPAREN,
        Token::SEMICOLON,
    ];
    for token in tokens_truth.iter() {
        assert_eq!(lexer.next_token().token, *token)
    }
}

#[test]
fn test_lexer_additional() {
    let input_string = "
            !-/*5;
            5 < 10 > 5;
        ";
    let mut lexer = Lexer::new(input_string.as_bytes());

    let tokens_truth = [
        Token::BANG,
        Token::MINUS,
        Token::SLASH,
        Token::ASTERISK,
        Token::INT(5),
        Token::SEMICOLON,
        //
        Token::INT(5),
        Token::LT,
        Token::INT(10),
        Token::GT,
        Token::INT(5),
        Token::SEMICOLON,
    ];
    for token in tokens_truth.iter() {
        assert_eq!(lexer.next_token().token, *token)
    }
}

#[test]
fn test_lexer_if_else() {
    let input_string = "
            if (5 < 10) {
                return true;
            } else {
                return false;
            }`
        ";
    let mut lexer = Lexer::new(input_string.as_bytes());

    let tokens_truth = [
        Token::IF,
        Token::LPAREN,
        Token::INT(5),
        Token::LT,
        Token::INT(10),
        Token::RPAREN,
        //
        Token::LBRACE,
        Token::RETURN,
        Token::TRUE,
        Token::SEMICOLON,
        Token::RBRACE,
        //
        Token::ELSE,
        //
        Token::LBRACE,
        Token::RETURN,
        Token::FALSE,
        Token::SEMICOLON,
        Token::RBRACE,
    ];
    for token in tokens_truth.iter() {
        assert_eq!(lexer.next_token().token, *token)
    }
}

#[test]
fn test_lexer_two_chars() {
    let input_string = "
            x = 5;
            x == 5;
            x != 5;
            !x;
            }`
        ";
    let mut lexer = Lexer::new(input_string.as_bytes());

    let tokens_truth = [
        Token::IDENT("x".to_string()),
        Token::ASSIGN,
        Token::INT(5),
        Token::SEMICOLON,
        //
        Token::IDENT("x".to_string()),
        Token::EQ,
        Token::INT(5),
        Token::SEMICOLON,
        //
        Token::IDENT("x".to_string()),
        Token::NEQ,
        Token::INT(5),
        Token::SEMICOLON,
        //
        Token::BANG,
        Token::IDENT("x".to_string()),
        Token::SEMICOLON,
    ];
    for token in tokens_truth.iter() {
        assert_eq!(lexer.next_token().token, *token)
    }
}

#[test]
fn test_keywords_and_identifiers() {
    let mut lexer = Lexer::new("let fn true false if else return".as_bytes());
    let keywords = [
        Token::LET,
        Token::FUNCTION,
        Token::TRUE,
        Token::FALSE,
        Token::IF,
        Token::ELSE,
        Token::RETURN,
        Token::EOF,
    ];
    for token in keywords.iter() {
        assert_eq!(lexer.next_token().token, *token)
    }

    let mut lexer = Lexer::new("lets Let f truefalse iff _else return_ le".as_bytes());
    let names = ["lets", "Let", "f", "truefalse", "iff", "_else", "return_", "le"];
    for name in names.iter() {
        assert_eq!(lexer.next_token().token, Token::IDENT(name.to_string()))
    }
    assert_eq!(lexer.next_token().token, Token::EOF);
}

#[test]
fn test_two_character_operators_are_greedy() {
    let mut lexer = Lexer::new("==".as_bytes());
    assert_eq!(lexer.next_token().token, Token::EQ);
    assert_eq!(lexer.next_token().token, Token::EOF);

    let mut lexer = Lexer::new("!=".as_bytes());
    assert_eq!(lexer.next_token().token, Token::NEQ);
    assert_eq!(lexer.next_token().token, Token::EOF);

    let mut lexer = Lexer::new("=".as_bytes());
    assert_eq!(lexer.next_token().token, Token::ASSIGN);
    assert_eq!(lexer.next_token().token, Token::EOF);

    let mut lexer = Lexer::new("!".as_bytes());
    assert_eq!(lexer.next_token().token, Token::BANG);
    assert_eq!(lexer.next_token().token, Token::EOF);

    let mut lexer = Lexer::new("===!==! =".as_bytes());
    let tokens = [
        Token::EQ,
        Token::ASSIGN,
        Token::NEQ,
        Token::ASSIGN,
        Token::BANG,
        Token::ASSIGN,
        Token::EOF,
    ];
    for token in tokens.iter() {
        assert_eq!(lexer.next_token().token, *token)
    }
}

#[test]
fn test_end_marker_repeats() {
    let mut lexer = Lexer::new("x  ".as_bytes());
    assert_eq!(lexer.next_token().token, Token::IDENT("x".to_string()));
    let first = lexer.next_token();
    assert_eq!(first, TokenWithMeta { token: Token::EOF, pos: 3, row_pos: 0, col_pos: 3 });
    for _ in 0..100 {
        assert_eq!(lexer.next_token(), first);
    }
}

#[test]
fn test_empty_input() {
    let mut lexer = Lexer::new("".as_bytes());
    for _ in 0..10 {
        assert_eq!(
            lexer.next_token(),
            TokenWithMeta { token: Token::EOF, pos: 0, row_pos: 0, col_pos: 0 }
        );
    }
}

#[test]
fn test_positions_on_one_row() {
    let mut lexer = Lexer::new("let x = 5;".as_bytes());
    let expected = [
        TokenWithMeta { token: Token::LET, pos: 0, row_pos: 0, col_pos: 0 },
        TokenWithMeta { token: Token::IDENT("x".to_string()), pos: 4, row_pos: 0, col_pos: 4 },
        TokenWithMeta { token: Token::ASSIGN, pos: 6, row_pos: 0, col_pos: 6 },
        TokenWithMeta { token: Token::INT(5), pos: 8, row_pos: 0, col_pos: 8 },
        TokenWithMeta { token: Token::SEMICOLON, pos: 9, row_pos: 0, col_pos: 9 },
        TokenWithMeta { token: Token::EOF, pos: 10, row_pos: 0, col_pos: 10 },
        TokenWithMeta { token: Token::EOF, pos: 10, row_pos: 0, col_pos: 10 },
    ];
    for token in expected.iter() {
        assert_eq!(lexer.next_token(), *token)
    }
}

#[test]
fn test_positions_over_rows() {
    let mut lexer = Lexer::new("a\nb".as_bytes());
    let expected = [
        TokenWithMeta { token: Token::IDENT("a".to_string()), pos: 0, row_pos: 0, col_pos: 0 },
        TokenWithMeta { token: Token::IDENT("b".to_string()), pos: 2, row_pos: 1, col_pos: 0 },
        TokenWithMeta { token: Token::EOF, pos: 3, row_pos: 1, col_pos: 1 },
    ];
    for token in expected.iter() {
        assert_eq!(lexer.next_token(), *token)
    }

    let mut lexer = Lexer::new("ab;\n\n  cd".as_bytes());
    let expected = [
        TokenWithMeta { token: Token::IDENT("ab".to_string()), pos: 0, row_pos: 0, col_pos: 0 },
        TokenWithMeta { token: Token::SEMICOLON, pos: 2, row_pos: 0, col_pos: 2 },
        TokenWithMeta { token: Token::IDENT("cd".to_string()), pos: 7, row_pos: 2, col_pos: 2 },
        TokenWithMeta { token: Token::EOF, pos: 9, row_pos: 2, col_pos: 4 },
    ];
    for token in expected.iter() {
        assert_eq!(lexer.next_token(), *token)
    }

    let mut lexer = Lexer::new("a b\nc".as_bytes());
    let expected = [
        TokenWithMeta { token: Token::IDENT("a".to_string()), pos: 0, row_pos: 0, col_pos: 0 },
        TokenWithMeta { token: Token::IDENT("b".to_string()), pos: 2, row_pos: 0, col_pos: 2 },
        TokenWithMeta { token: Token::IDENT("c".to_string()), pos: 4, row_pos: 1, col_pos: 0 },
        TokenWithMeta { token: Token::EOF, pos: 5, row_pos: 1, col_pos: 1 },
    ];
    for token in expected.iter() {
        assert_eq!(lexer.next_token(), *token)
    }
}

#[test]
fn test_place_is_that_of_the_first_byte() {
    let mut lexer = Lexer::new("a;".as_bytes());
    assert_eq!(
        lexer.next_token(),
        TokenWithMeta { token: Token::IDENT("a".to_string()), pos: 0, row_pos: 0, col_pos: 0 }
    );
    assert_eq!(
        lexer.next_token(),
        TokenWithMeta { token: Token::SEMICOLON, pos: 1, row_pos: 0, col_pos: 1 }
    );

    let mut lexer = Lexer::new("  \n\t x\n".as_bytes());
    assert_eq!(
        lexer.next_token(),
        TokenWithMeta { token: Token::IDENT("x".to_string()), pos: 5, row_pos: 1, col_pos: 2 }
    );
    assert_eq!(
        lexer.next_token(),
        TokenWithMeta { token: Token::EOF, pos: 7, row_pos: 2, col_pos: 0 }
    );
}

#[test]
fn test_integer_literals() {
    let mut lexer = Lexer::new("0 007 2147483647 2147483648 99999999999999999999999 12ab".as_bytes());
    let expected = [
        Token::INT(0),
        Token::INT(7),
        Token::INT(2147483647),
        Token::ILLEGAL,
        Token::ILLEGAL,
        Token::INT(12),
        Token::IDENT("ab".to_string()),
        Token::EOF,
    ];
    for token in expected.iter() {
        assert_eq!(lexer.next_token().token, *token)
    }
}

#[test]
fn test_minus_is_a_token_of_its_own() {
    let mut lexer = Lexer::new("-5".as_bytes());
    assert_eq!(lexer.next_token().token, Token::MINUS);
    assert_eq!(lexer.next_token().token, Token::INT(5));
    assert_eq!(lexer.next_token().token, Token::EOF);
}

#[test]
fn test_unrecognized_bytes() {
    let input = [b'@', b'`', 0xc3, 0xa9, b'#', b'x', 0x7f];
    let mut lexer = Lexer::new(&input);
    let expected = [
        Token::ILLEGAL,
        Token::ILLEGAL,
        Token::ILLEGAL,
        Token::ILLEGAL,
        Token::ILLEGAL,
        Token::IDENT("x".to_string()),
        Token::ILLEGAL,
        Token::EOF,
    ];
    for token in expected.iter() {
        assert_eq!(lexer.next_token().token, *token)
    }
}

#[test]
fn test_zero_byte_gives_the_end_marker() {
    let input = [b'a', 0, b'b'];
    let mut lexer = Lexer::new(&input);
    let expected = [
        TokenWithMeta { token: Token::IDENT("a".to_string()), pos: 0, row_pos: 0, col_pos: 0 },
        TokenWithMeta { token: Token::EOF, pos: 1, row_pos: 0, col_pos: 1 },
        TokenWithMeta { token: Token::IDENT("b".to_string()), pos: 2, row_pos: 0, col_pos: 2 },
        TokenWithMeta { token: Token::EOF, pos: 3, row_pos: 0, col_pos: 3 },
        TokenWithMeta { token: Token::EOF, pos: 3, row_pos: 0, col_pos: 3 },
    ];
    for token in expected.iter() {
        assert_eq!(lexer.next_token(), *token)
    }
}

#[test]
fn test_whitespace_kinds() {
    let mut lexer = Lexer::new(" \t\r\nx\t;".as_bytes());
    assert_eq!(lexer.next_token().token, Token::IDENT("x".to_string()));
    assert_eq!(lexer.next_token().token, Token::SEMICOLON);
    assert_eq!(lexer.next_token().token, Token::EOF);
}

#[test]
fn test_byte_classes() {
    assert!(is_digit(b'0'));
    assert!(is_digit(b'5'));
    assert!(is_digit(b'9'));
    assert!(!is_digit(b'/'));
    assert!(!is_digit(b':'));
    assert!(!is_digit(b'a'));
    assert!(is_whitespace(b' '));
    assert!(is_whitespace(b'\t'));
    assert!(is_whitespace(b'\n'));
    assert!(is_whitespace(b'\r'));
    assert!(!is_whitespace(b'x'));
    assert!(!is_whitespace(0));
    assert!(is_newline(b'\n'));
    assert!(!is_newline(b'\r'));
    assert!(!is_letter(b'`'));
    assert!(!is_letter(b'@'));
    assert!(!is_letter(b'['));
    assert!(!is_letter(b'{'));
    assert!(!is_letter(0));
}

#[test]
fn test_read_char_and_peek_char() {
    let mut lexer = Lexer::new("ab".as_bytes());
    assert_eq!(lexer.peek_char(), b'a');
    lexer.read_char();
    assert_eq!(lexer.peek_char(), b'b');
    lexer.read_char();
    assert_eq!(lexer.peek_char(), 0);
    assert_eq!(
        lexer.next_token(),
        TokenWithMeta { token: Token::IDENT("b".to_string()), pos: 1, row_pos: 0, col_pos: 1 }
    );
    assert_eq!(lexer.peek_char(), 0);
    lexer.read_char();
    lexer.read_char();
    assert_eq!(
        lexer.next_token(),
        TokenWithMeta { token: Token::EOF, pos: 2, row_pos: 0, col_pos: 2 }
    );
}

#[test]
fn test_tokenize() {
    let tokens = tokenize("=+(){},;".as_bytes());
    let kinds: Vec<Token> = tokens.iter().map(|token| token.token.clone()).collect();
    assert_eq!(
        kinds,
        vec![
            Token::ASSIGN,
            Token::PLUS,
            Token::LPAREN,
            Token::RPAREN,
            Token::LBRACE,
            Token::RBRACE,
            Token::COMMA,
            Token::SEMICOLON,
            Token::EOF,
        ]
    );
    assert_eq!(tokens[8], TokenWithMeta { token: Token::EOF, pos: 8, row_pos: 0, col_pos: 8 });

    let tokens = tokenize("".as_bytes());
    assert_eq!(tokens, vec![TokenWithMeta { token: Token::EOF, pos: 0, row_pos: 0, col_pos: 0 }]);

    let input = [b'a', 0, b'b'];
    let tokens = tokenize(&input);
    assert_eq!(
        tokens,
        vec![
            TokenWithMeta { token: Token::IDENT("a".to_string()), pos: 0, row_pos: 0, col_pos: 0 },
            TokenWithMeta { token: Token::EOF, pos: 1, row_pos: 0, col_pos: 1 },
        ]
    );
}

#[test]
fn test_tokenize_semicolons_only() {
    for n in 0..20usize {
        let input = ";".repeat(n);
        let tokens = tokenize(input.as_bytes());
        assert_eq!(tokens.len(), n + 1);
        for k in 0..n {
            assert_eq!(
                tokens[k],
                TokenWithMeta { token: Token::SEMICOLON, pos: k, row_pos: 0, col_pos: k as u32 }
            );
        }
        assert_eq!(
            tokens[n],
            TokenWithMeta { token: Token::EOF, pos: n, row_pos: 0, col_pos: n as u32 }
        );
    }
}

#[test]
fn test_token_text() {
    assert_eq!(Token::ILLEGAL.to_string(), "ILLEGAL");
    assert_eq!(Token::EOF.to_string(), "EOF");
    assert_eq!(Token::IDENT("five".to_string()).to_string(), "IDENT(five)");
    assert_eq!(Token::INT(10).to_string(), "INT(10)");
    assert_eq!(Token::INT(0).to_string(), "INT(0)");
    assert_eq!(Token::INT(-42).to_string(), "INT(-42)");
    assert_eq!(Token::INT(i32::MAX).to_string(), "INT(2147483647)");
    assert_eq!(Token::INT(i32::MIN).to_string(), "INT(-2147483648)");
    assert_eq!(Token::ASSIGN.to_string(), "ASSIGN");
    assert_eq!(Token::PLUS.to_string(), "PLUS");
    assert_eq!(Token::MINUS.to_string(), "MINUS");
    assert_eq!(Token::BANG.to_string(), "BANG");
    assert_eq!(Token::ASTERISK.to_string(), "ASTERISK");
    assert_eq!(Token::SLASH.to_string(), "SLASH");
    assert_eq!(Token::LT.to_string(), "LT");
    assert_eq!(Token::GT.to_string(), "GT");
    assert_eq!(Token::EQ.to_string(), "EQ");
    assert_eq!(Token::NEQ.to_string(), "NEQ");
    assert_eq!(Token::COMMA.to_string(), "COMMA");
    assert_eq!(Token::SEMICOLON.to_string(), "SEMICOLON");
    assert_eq!(Token::LPAREN.to_string(), "LPAREN");
    assert_eq!(Token::RPAREN.to_string(), "RPAREN");
    assert_eq!(Token::LBRACE.to_string(), "LBRACE");
    assert_eq!(Token::RBRACE.to_string(), "RBRACE");
    assert_eq!(Token::FUNCTION.to_string(), "FUNCTION");
    assert_eq!(Token::LET.to_string(), "LET");
    assert_eq!(Token::TRUE.to_string(), "TRUE");
    assert_eq!(Token::FALSE.to_string(), "FALSE");
    assert_eq!(Token::IF.to_string(), "IF");
    assert_eq!(Token::ELSE.to_string(), "ELSE");
    assert_eq!(Token::RETURN.to_string(), "RETURN");
}

#[test]
fn test_token_equality_and_clone() {
    assert_eq!(Token::IDENT("a".to_string()), Token::IDENT("a".to_string()));
    assert_ne!(Token::IDENT("a".to_string()), Token::IDENT("b".to_string()));
    assert_ne!(Token::IDENT("a".to_string()), Token::INT(1));
    assert_ne!(Token::INT(1), Token::INT(2));
    assert_eq!(Token::INT(1), Token::INT(1));
    assert_ne!(Token::INT(1), Token::EOF);
    assert_ne!(Token::EOF, Token::ILLEGAL);
    assert_ne!(Token::LET, Token::IDENT("let".to_string()));
    assert_eq!(Token::ELSE, Token::ELSE);
    let token = TokenWithMeta { token: Token::IDENT("x".to_string()), pos: 3, row_pos: 1, col_pos: 2 };
    assert_eq!(token.clone(), token);
    assert_eq!(Token::RETURN.clone(), Token::RETURN);
}
