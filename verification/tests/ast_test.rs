use monkey_interpreter::ast::{BinaryOperator, Expression, Identifier, Program, Statement};

fn literal(value: i32) -> Expression {
    Expression::IntLiteral(value)
}

fn var(name: &str) -> Expression {
    Expression::Variable(name.to_string())
}

#[test]
fn test_render_identifier() {
    assert_eq!(Identifier { name: "x".to_string() }.to_string(), "IDENT(x)");
    assert_eq!(Identifier { name: "".to_string() }.to_string(), "IDENT()");
}

#[test]
fn test_render_operator() {
    assert_eq!(BinaryOperator::Add.to_string(), "+");
    assert_eq!(BinaryOperator::Subtract.to_string(), "-");
}

#[test]
fn test_render_expression() {
    assert_eq!(var("five").to_string(), "VAR(five)");
    assert_eq!(literal(5).to_string(), "INT(5)");
    assert_eq!(literal(-5).to_string(), "INT(-5)");
    assert_eq!(literal(i32::MIN).to_string(), "INT(-2147483648)");
    let sum = Expression::Binary(BinaryOperator::Add, Box::new(literal(1)), Box::new(var("y")));
    assert_eq!(sum.to_string(), "INT(1) + VAR(y)");
    let chain = Expression::Binary(
        BinaryOperator::Add,
        Box::new(literal(1)),
        Box::new(Expression::Binary(BinaryOperator::Subtract, Box::new(literal(2)), Box::new(literal(3)))),
    );
    assert_eq!(chain.to_string(), "INT(1) + INT(2) - INT(3)");
    let grouped = Expression::Grouped(Box::new(chain));
    assert_eq!(grouped.to_string(), "(INT(1) + INT(2) - INT(3))");
    let nested = Expression::Grouped(Box::new(Expression::Grouped(Box::new(var("x")))));
    assert_eq!(nested.to_string(), "((VAR(x)))");
}

#[test]
fn test_render_statement() {
    let binding = Statement::Let(Identifier { name: "x".to_string() }, literal(5));
    assert_eq!(binding.to_string(), "let IDENT(x) = INT(5)");
    assert_eq!(Statement::Return(var("x")).to_string(), "return VAR(x)");
    assert_eq!(Statement::Expression(literal(1)).to_string(), "e{INT(1)}");
    let choice = Statement::If(
        var("x"),
        Box::new(Statement::Return(literal(1))),
        Box::new(Statement::Expression(var("y"))),
    );
    assert_eq!(choice.to_string(), "if VAR(x) {\nreturn INT(1)\n} else {\ne{VAR(y)}\n}");
}

#[test]
fn test_render_program() {
    assert_eq!(Program { statements: vec![] }.to_string(), "Program [\n]");
    let program = Program {
        statements: vec![
            Statement::Let(Identifier { name: "x".to_string() }, literal(5)),
            Statement::Return(var("x")),
        ],
    };
    assert_eq!(program.to_string(), "Program [\nlet IDENT(x) = INT(5)\nreturn VAR(x)\n]");
}
