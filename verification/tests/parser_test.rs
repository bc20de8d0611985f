use monkey_interpreter::ast::{BinaryOperator, Expression, Identifier, Program, Statement};
use monkey_interpreter::lexer::Lexer;
use monkey_interpreter::parser::{parse, Parser};

fn literal(value: i32) -> Expression {
    Expression::IntLiteral(value)
}

fn var(name: &str) -> Expression {
    Expression::Variable(name.to_string())
}

fn errors_of(input: &str) -> Vec<String> {
    match parse(input.as_bytes()) {
        Ok(program) => panic!("parsed: {}", program.to_string()),
        Err(errors) => errors,
    }
}

fn program_of(input: &str) -> Program {
    match parse(input.as_bytes()) {
        Ok(program) => program,
        Err(errors) => panic!("errors: {:?}", errors),
    }
}

#[test]
fn test_parser_object() {
    let mut lexer = Lexer::new("let x = 5;".as_bytes());
    let mut parser = Parser::new(&mut lexer);
    let program = parser.parse_program();
    assert_eq!(
        program,
        Ok(Program { statements: vec![Statement::Let(Identifier { name: "x".to_string() }, literal(5))] })
    );
    assert_eq!(parser.parse_program(), Ok(Program { statements: vec![] }));
}

#[test]
fn test_parse_let() {
    let program = program_of("let x = 5;");
    assert_eq!(
        program.statements,
        vec![Statement::Let(Identifier { name: "x".to_string() }, literal(5))]
    );
    assert_eq!(program.statements[0].to_string(), "let IDENT(x) = INT(5)");
    assert_eq!(program.to_string(), "Program [\nlet IDENT(x) = INT(5)\n]");
}

#[test]
fn test_parse_chain_groups_to_the_right() {
    let program = program_of("1 + 2 - 3;");
    let expected = Expression::Binary(
        BinaryOperator::Add,
        Box::new(literal(1)),
        Box::new(Expression::Binary(BinaryOperator::Subtract, Box::new(literal(2)), Box::new(literal(3)))),
    );
    assert_eq!(expected.to_string(), "INT(1) + INT(2) - INT(3)");
    assert_eq!(program.statements, vec![Statement::Expression(expected)]);
    assert_eq!(program.to_string(), "Program [\ne{INT(1) + INT(2) - INT(3)}\n]");
}

#[test]
fn test_parse_if_without_else() {
    let errors = errors_of("if (x) { return 1; }");
    assert_eq!(errors, vec!["[0:20] expected ELSE, got EOF".to_string()]);
    let errors = errors_of("if (x) { return 1; };");
    assert_eq!(errors, vec!["[0:20] expected ELSE, got SEMICOLON".to_string()]);
}

#[test]
fn test_parse_if() {
    let program = program_of("if (x) { return 1; } else { y + 2; };");
    assert_eq!(
        program.statements,
        vec![Statement::If(
            var("x"),
            Box::new(Statement::Return(literal(1))),
            Box::new(Statement::Expression(Expression::Binary(
                BinaryOperator::Add,
                Box::new(var("y")),
                Box::new(literal(2)),
            ))),
        )]
    );
    assert_eq!(
        program.to_string(),
        "Program [\nif VAR(x) {\nreturn INT(1)\n} else {\ne{VAR(y) + INT(2)}\n}\n]"
    );
}

#[test]
fn test_parse_nested_if() {
    let program =
        program_of("if (a) { if (b) { 1; } else { 2; }; } else { let c = (d); };");
    assert_eq!(
        program.statements,
        vec![Statement::If(
            var("a"),
            Box::new(Statement::If(
                var("b"),
                Box::new(Statement::Expression(literal(1))),
                Box::new(Statement::Expression(literal(2))),
            )),
            Box::new(Statement::Let(
                Identifier { name: "c".to_string() },
                Expression::Grouped(Box::new(var("d"))),
            )),
        )]
    );
}

#[test]
fn test_if_needs_a_semicolon_behind_it() {
    let errors = errors_of("if (x) { 1; } else { 2; }");
    assert_eq!(errors, vec!["[0:25] expected SEMICOLON, got EOF".to_string()]);
    let errors = errors_of("if (x) { 1; } else { 2; } let y = 1;");
    assert_eq!(errors, vec!["[0:26] expected SEMICOLON, got LET".to_string()]);
}

#[test]
fn test_branch_holds_one_statement() {
    let errors = errors_of("if (x) { 1; 2; } else { 3; };");
    assert_eq!(
        errors,
        vec![
            "[0:12] expected RBRACE, got INT(2)".to_string(),
            "[0:15] expected binary or unary expression, got RBRACE".to_string(),
            "[0:27] expected unary expression, got RBRACE".to_string(),
        ]
    );
}

#[test]
fn test_if_errors() {
    assert_eq!(errors_of("if x;"), vec!["[0:3] expected LPAREN, got IDENT(x)".to_string()]);
    assert_eq!(errors_of("if (x;"), vec!["[0:5] expected RPAREN, got SEMICOLON".to_string()]);
    assert_eq!(errors_of("if (;"), vec!["[0:4] expected binary or unary expression, got SEMICOLON".to_string()]);
    assert_eq!(
        errors_of("if (x + 1;"),
        vec!["[0:9] expected RPAREN, got SEMICOLON".to_string()]
    );
    assert_eq!(errors_of("if (x) 1;"), vec!["[0:7] expected LBRACE, got INT(1)".to_string()]);
    assert_eq!(
        errors_of("if (x) { 1; } else 2;"),
        vec!["[0:19] expected LBRACE, got INT(2)".to_string()]
    );
    assert_eq!(
        errors_of("if (x) { 1; } else { 2 };"),
        vec!["[0:21] expected binary or unary expression, got INT(2)".to_string()]
    );
}

#[test]
fn test_recovery_after_a_missing_semicolon() {
    let errors = errors_of("x y; let z = 1;");
    assert_eq!(
        errors,
        vec!["[0:0] expected binary or unary expression, got IDENT(x)".to_string()]
    );
    let errors = errors_of("let x = 5 let y = 6;");
    assert_eq!(
        errors,
        vec!["[0:8] expected binary or unary expression, got INT(5)".to_string()]
    );
    let errors = errors_of("return 1) let y = 2;");
    assert_eq!(errors, vec!["[0:8] expected SEMICOLON, got RPAREN".to_string()]);
}

#[test]
fn test_errors_are_gathered_in_order() {
    let errors = errors_of("let = 1;\nreturn 2;\nlet y 3;\n(4;");
    assert_eq!(
        errors,
        vec![
            "[0:4] expected IDENT, got ASSIGN".to_string(),
            "[2:6] expected ASSIGN, got INT(3)".to_string(),
            "[3:2] expected RPAREN, got SEMICOLON".to_string(),
        ]
    );
}

#[test]
fn test_no_program_on_any_error() {
    assert!(parse("let x = 5; let y = ; let z = 7;".as_bytes()).is_err());
    assert_eq!(
        errors_of("let x = 5; let y = ; let z = 7;"),
        vec!["[0:19] expected binary or unary expression, got SEMICOLON".to_string()]
    );
}

#[test]
fn test_parse_semicolons_only() {
    assert_eq!(parse("".as_bytes()), Ok(Program { statements: vec![] }));
    assert_eq!(
        errors_of(";"),
        vec!["[0:0] expected binary or unary expression, got SEMICOLON".to_string()]
    );
    assert_eq!(
        errors_of(";;;"),
        vec![
            "[0:0] expected unary expression, got SEMICOLON".to_string(),
            "[0:1] expected unary expression, got SEMICOLON".to_string(),
            "[0:2] expected binary or unary expression, got SEMICOLON".to_string(),
        ]
    );
    for n in 1..30usize {
        let errors = errors_of(&";".repeat(n));
        assert_eq!(errors.len(), n);
        for k in 0..n {
            let col = k;
            let expected = if k + 1 < n { "unary expression" } else { "binary or unary expression" };
            assert_eq!(errors[k], format!("[0:{}] expected {}, got SEMICOLON", col, expected));
        }
    }
}

#[test]
fn test_parse_return_and_grouped() {
    let program = program_of("return (1 + (x));");
    assert_eq!(
        program.statements,
        vec![Statement::Return(Expression::Grouped(Box::new(Expression::Binary(
            BinaryOperator::Add,
            Box::new(literal(1)),
            Box::new(Expression::Grouped(Box::new(var("x")))),
        ))))]
    );
    assert_eq!(program.to_string(), "Program [\nreturn (INT(1) + (VAR(x)))\n]");
}

#[test]
fn test_grouped_cannot_stand_left_of_an_operator() {
    assert_eq!(errors_of("(1) + 2;"), vec!["[0:4] expected SEMICOLON, got PLUS".to_string()]);
}

#[test]
fn test_expression_errors() {
    assert_eq!(
        errors_of("1 * 2;"),
        vec!["[0:0] expected binary or unary expression, got INT(1)".to_string()]
    );
    assert_eq!(errors_of("+ + 2;"), vec!["[0:0] expected unary expression, got PLUS".to_string()]);
    assert_eq!(
        errors_of("1 +"),
        vec!["[0:3] expected binary or unary expression, got EOF".to_string()]
    );
    assert_eq!(errors_of("true;"), vec!["[0:0] expected unary expression, got TRUE".to_string()]);
    assert_eq!(
        errors_of("x"),
        vec!["[0:0] expected binary or unary expression, got IDENT(x)".to_string()]
    );
    assert_eq!(errors_of("(x;"), vec!["[0:2] expected RPAREN, got SEMICOLON".to_string()]);
    assert_eq!(
        errors_of("(x"),
        vec!["[0:1] expected binary or unary expression, got IDENT(x)".to_string()]
    );
    assert_eq!(
        errors_of("(x));"),
        vec!["[0:3] expected SEMICOLON, got RPAREN".to_string()]
    );
}

#[test]
fn test_let_errors() {
    assert_eq!(errors_of("let 5 = x;"), vec!["[0:4] expected IDENT, got INT(5)".to_string()]);
    assert_eq!(errors_of("let"), vec!["[0:3] expected IDENT, got EOF".to_string()]);
    assert_eq!(errors_of("let x 5;"), vec!["[0:6] expected ASSIGN, got INT(5)".to_string()]);
    assert_eq!(errors_of("let x == 5;"), vec!["[0:6] expected ASSIGN, got EQ".to_string()]);
    assert_eq!(
        errors_of("return;"),
        vec!["[0:6] expected binary or unary expression, got SEMICOLON".to_string()]
    );
}

#[test]
fn test_number_too_large_is_an_error_of_the_statement() {
    assert_eq!(
        errors_of("let x = 2147483648;"),
        vec!["[0:8] expected unary expression, got ILLEGAL".to_string()]
    );
    assert_eq!(
        program_of("let x = 2147483647;").statements,
        vec![Statement::Let(Identifier { name: "x".to_string() }, literal(2147483647))]
    );
}

#[test]
fn test_zero_byte_ends_the_program() {
    let input = [b'1', b';', 0, b'2', b';'];
    assert_eq!(parse(&input), Ok(Program { statements: vec![Statement::Expression(literal(1))] }));
}

#[test]
fn test_several_statements() {
    let program = program_of("let five = 5;\nlet ten = 10;\nfive + ten;\nreturn ten - five;");
    assert_eq!(
        program.to_string(),
        "Program [\nlet IDENT(five) = INT(5)\nlet IDENT(ten) = INT(10)\ne{VAR(five) + VAR(ten)}\nreturn VAR(ten) - VAR(five)\n]"
    );
}

#[test]
fn test_deep_nesting() {
    let depth = 200;
    let input = format!("{}x{};", "(".repeat(depth), ")".repeat(depth));
    let program = program_of(&input);
    let mut expected = var("x");
    for _ in 0..depth {
        expected = Expression::Grouped(Box::new(expected));
    }
    assert_eq!(program.statements, vec![Statement::Expression(expected)]);
}
