//! The syntax tree that the parser builds, and the text by which each node
//! is shown.

use crate::text::{push_signed_decimal, signed_decimal};
use vstd::prelude::*;
use vstd::string::*;

verus! {

/// The operator of a binary expression.
#[derive(Debug, Clone, Copy, PartialEq, Eq)]
pub enum BinaryOperator {
    Add,
    Subtract,
}

/// A bound name: the target of a `let`.
#[derive(Debug, PartialEq, Eq)]
pub struct Identifier {
    pub name: String,
}

#[derive(Debug, PartialEq, Eq)]
pub enum Expression {
    Variable(String),
    IntLiteral(i32),
    Binary(BinaryOperator, Box<Expression>, Box<Expression>),
    Grouped(Box<Expression>),
}

#[derive(Debug, PartialEq, Eq)]
pub enum Statement {
    Let(Identifier, Expression),
    If(Expression, Box<Statement>, Box<Statement>),
    Return(Expression),
    Expression(Expression),
}

/// The statements of a program, in the order in which they were parsed.
#[derive(Debug, PartialEq, Eq)]
pub struct Program {
    pub statements: Vec<Statement>,
}

/// The mathematical value of an [`Identifier`].
pub struct SpecIdentifier {
    pub name: Seq<char>,
}

/// The mathematical value of an [`Expression`].
pub enum SpecExpression {
    Variable(Seq<char>),
    IntLiteral(i32),
    Binary(BinaryOperator, Box<SpecExpression>, Box<SpecExpression>),
    Grouped(Box<SpecExpression>),
}

/// The mathematical value of a [`Statement`].
pub enum SpecStatement {
    Let(SpecIdentifier, SpecExpression),
    If(SpecExpression, Box<SpecStatement>, Box<SpecStatement>),
    Return(SpecExpression),
    Expression(SpecExpression),
}

/// The mathematical value of a [`Program`].
pub struct SpecProgram {
    pub statements: Seq<SpecStatement>,
}

impl BinaryOperator {
    /// The sign of the operator.
    pub open spec fn symbol(self) -> Seq<char> {
        match self {
            BinaryOperator::Add => "+"@,
            BinaryOperator::Subtract => "-"@,
        }
    }

    pub fn to_string(&self) -> (text: String)
        ensures
            text@ == self.symbol(),
    {
        match self {
            BinaryOperator::Add => "+".to_owned(),
            BinaryOperator::Subtract => "-".to_owned(),
        }
    }
}

impl SpecIdentifier {
    pub open spec fn render(self) -> Seq<char> {
        "IDENT("@ + self.name + ")"@
    }
}

impl SpecExpression {
    /// A binary expression is shown without brackets of its own; a grouped
    /// one shows the brackets that it was written with.
    pub open spec fn render(self) -> Seq<char>
        decreases self,
    {
        match self {
            SpecExpression::Variable(name) => "VAR("@ + name + ")"@,
            SpecExpression::IntLiteral(value) => "INT("@ + signed_decimal(value as int) + ")"@,
            SpecExpression::Binary(operator, left, right) => left.render() + " "@
                + operator.symbol() + " "@ + right.render(),
            SpecExpression::Grouped(inner) => "("@ + inner.render() + ")"@,
        }
    }
}

impl SpecStatement {
    pub open spec fn render(self) -> Seq<char>
        decreases self,
    {
        match self {
            SpecStatement::Let(identifier, value) => "let "@ + identifier.render() + " = "@
                + value.render(),
            SpecStatement::If(condition, then_branch, else_branch) => "if "@ + condition.render()
                + " {\n"@ + then_branch.render() + "\n} else {\n"@ + else_branch.render()
                + "\n}"@,
            SpecStatement::Return(value) => "return "@ + value.render(),
            SpecStatement::Expression(value) => "e{"@ + value.render() + "}"@,
        }
    }
}

/// The statements of a program, each rendered on a line of its own.
pub open spec fn render_lines(statements: Seq<SpecStatement>) -> Seq<char>
    decreases statements.len(),
{
    if statements.len() == 0 {
        Seq::empty()
    } else {
        render_lines(statements.drop_last()) + statements.last().render() + "\n"@
    }
}

impl SpecProgram {
    pub open spec fn render(self) -> Seq<char> {
        "Program [\n"@ + render_lines(self.statements) + "]"@
    }
}

impl View for Identifier {
    type V = SpecIdentifier;

    open spec fn view(&self) -> SpecIdentifier {
        SpecIdentifier { name: self.name@ }
    }
}

impl View for Expression {
    type V = SpecExpression;

    open spec fn view(&self) -> SpecExpression
        decreases self,
    {
        match self {
            Expression::Variable(name) => SpecExpression::Variable(name@),
            Expression::IntLiteral(value) => SpecExpression::IntLiteral(*value),
            Expression::Binary(operator, left, right) => SpecExpression::Binary(
                *operator,
                Box::new((**left).view()),
                Box::new((**right).view()),
            ),
            Expression::Grouped(inner) => SpecExpression::Grouped(Box::new((**inner).view())),
        }
    }
}

impl View for Statement {
    type V = SpecStatement;

    open spec fn view(&self) -> SpecStatement
        decreases self,
    {
        match self {
            Statement::Let(identifier, value) => SpecStatement::Let(identifier@, value@),
            Statement::If(condition, then_branch, else_branch) => SpecStatement::If(
                condition@,
                Box::new((**then_branch).view()),
                Box::new((**else_branch).view()),
            ),
            Statement::Return(value) => SpecStatement::Return(value@),
            Statement::Expression(value) => SpecStatement::Expression(value@),
        }
    }
}

/// The values of a list of statements.
pub open spec fn statements_of(statements: Seq<Statement>) -> Seq<SpecStatement> {
    statements.map_values(|statement: Statement| statement@)
}

impl View for Program {
    type V = SpecProgram;

    open spec fn view(&self) -> SpecProgram {
        SpecProgram { statements: statements_of(self.statements@) }
    }
}

impl Identifier {
    fn render_into(&self, out: &mut String)
        ensures
            final(out)@ == old(out)@ + self@.render(),
    {
        out.append("IDENT(");
        out.append(self.name.as_str());
        out.append(")");
    }

    pub fn to_string(&self) -> (text: String)
        ensures
            text@ == self@.render(),
    {
        let mut text = String::new();
        self.render_into(&mut text);
        text
    }
}

impl Expression {
    fn render_into(&self, out: &mut String)
        ensures
            final(out)@ == old(out)@ + self@.render(),
        decreases self,
    {
        match self {
            Expression::Variable(name) => {
                out.append("VAR(");
                out.append(name.as_str());
                out.append(")");
            },
            Expression::IntLiteral(value) => {
                out.append("INT(");
                push_signed_decimal(out, *value);
                out.append(")");
            },
            Expression::Binary(operator, left, right) => {
                left.render_into(out);
                out.append(" ");
                out.append(operator.to_string().as_str());
                out.append(" ");
                right.render_into(out);
            },
            Expression::Grouped(inner) => {
                out.append("(");
                inner.render_into(out);
                out.append(")");
            },
        }
    }

    pub fn to_string(&self) -> (text: String)
        ensures
            text@ == self@.render(),
    {
        let mut text = String::new();
        self.render_into(&mut text);
        text
    }
}

impl Statement {
    fn render_into(&self, out: &mut String)
        ensures
            final(out)@ == old(out)@ + self@.render(),
        decreases self,
    {
        match self {
            Statement::Let(identifier, value) => {
                out.append("let ");
                identifier.render_into(out);
                out.append(" = ");
                value.render_into(out);
            },
            Statement::If(condition, then_branch, else_branch) => {
                out.append("if ");
                condition.render_into(out);
                out.append(" {\n");
                then_branch.render_into(out);
                out.append("\n} else {\n");
                else_branch.render_into(out);
                out.append("\n}");
            },
            Statement::Return(value) => {
                out.append("return ");
                value.render_into(out);
            },
            Statement::Expression(value) => {
                out.append("e{");
                value.render_into(out);
                out.append("}");
            },
        }
    }

    pub fn to_string(&self) -> (text: String)
        ensures
            text@ == self@.render(),
    {
        let mut text = String::new();
        self.render_into(&mut text);
        text
    }
}

impl Program {
    pub fn to_string(&self) -> (text: String)
        ensures
            text@ == self@.render(),
    {
        let mut text = "Program [\n".to_owned();
        let mut i: usize = 0;
        while i < self.statements.len()
            invariant
                i <= self.statements@.len(),
                text@ == "Program [\n"@ + render_lines(self@.statements.subrange(0, i as int)),
            decreases self.statements@.len() - i,
        {
            self.statements[i].render_into(&mut text);
            text.append("\n");
            i += 1;
            proof {
                let lines = self@.statements.subrange(0, i as int);
                assert(lines.drop_last() =~= self@.statements.subrange(0, i - 1));
            }
        }
        assert(self@.statements.subrange(0, i as int) =~= self@.statements);
        text.append("]");
        text
    }
}

} // verus!
