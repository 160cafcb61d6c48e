use vstd::prelude::*;

verus! {

/// Binding strength of an operator, from loosest to tightest.
#[derive(Debug, Clone, Copy, PartialEq, Eq, Structural)]
pub enum Precedence {
    LOWEST,
    EQUALS,
    LESSGREATER,
    SUM,
    PRODUCT,
    PREFIX,
    CALL,
}

impl Precedence {
    /// Position of the level in the order `LOWEST < EQUALS < ... < CALL`.
    pub open spec fn rank(self) -> nat {
        match self {
            Precedence::LOWEST => 0,
            Precedence::EQUALS => 1,
            Precedence::LESSGREATER => 2,
            Precedence::SUM => 3,
            Precedence::PRODUCT => 4,
            Precedence::PREFIX => 5,
            Precedence::CALL => 6,
        }
    }

    /// The level just below this one; `LOWEST` stays `LOWEST`.
    pub fn reduce(self) -> (r: Precedence)
        ensures
            r.rank() == if self.rank() == 0 { 0 } else { (self.rank() - 1) as nat },
    {
        match self {
            Precedence::EQUALS => Precedence::LOWEST,
            Precedence::LESSGREATER => Precedence::EQUALS,
            Precedence::SUM => Precedence::LESSGREATER,
            Precedence::PRODUCT => Precedence::SUM,
            Precedence::PREFIX => Precedence::PRODUCT,
            Precedence::CALL => Precedence::PREFIX,
            Precedence::LOWEST => Precedence::LOWEST,
        }
    }

    /// Whether this level binds strictly tighter than `other`.
    pub fn binds_tighter(self, other: Precedence) -> (r: bool)
        ensures
            r == (self.rank() > other.rank()),
    {
        self.level() > other.level()
    }

    fn level(self) -> (r: u8)
        ensures
            r as nat == self.rank(),
    {
        match self {
            Precedence::LOWEST => 0,
            Precedence::EQUALS => 1,
            Precedence::LESSGREATER => 2,
            Precedence::SUM => 3,
            Precedence::PRODUCT => 4,
            Precedence::PREFIX => 5,
            Precedence::CALL => 6,
        }
    }
}

#[derive(Debug, Clone, Copy, PartialEq, Eq, Structural)]
pub enum PrefixOperator {
    BANG,
    MINUS,
}

#[derive(Debug, Clone, Copy, PartialEq, Eq, Structural)]
pub enum InfixOperator {
    PLUS,
    MINUS,
    MULTIPLY,
    DIVIDE,
    EQUAL,
    NOT_EQUAL,
    LESS_THAN,
    LESS_THAN_EQUAL,
    GREATER_THAN,
    GREATER_THAN_EQUAL,
}

/// Source spelling of a prefix operator.
pub open spec fn prefix_spelling(op: PrefixOperator) -> Seq<char> {
    match op {
        PrefixOperator::BANG => seq!['!'],
        PrefixOperator::MINUS => seq!['-'],
    }
}

/// Source spelling of an infix operator.
pub open spec fn infix_spelling(op: InfixOperator) -> Seq<char> {
    match op {
        InfixOperator::PLUS => seq!['+'],
        InfixOperator::MINUS => seq!['-'],
        InfixOperator::MULTIPLY => seq!['*'],
        InfixOperator::DIVIDE => seq!['/'],
        InfixOperator::EQUAL => seq!['=', '='],
        InfixOperator::NOT_EQUAL => seq!['!', '='],
        InfixOperator::LESS_THAN => seq!['<'],
        InfixOperator::LESS_THAN_EQUAL => seq!['<', '='],
        InfixOperator::GREATER_THAN => seq!['>'],
        InfixOperator::GREATER_THAN_EQUAL => seq!['>', '='],
    }
}

/// Abstract value of an expression: the tree with its text as character sequences.
pub enum ExprV {
    Int(int),
    Ident(Seq<char>),
    Bool(bool),
    Prefix(PrefixOperator, Box<ExprV>),
    Infix(InfixOperator, Box<ExprV>, Box<ExprV>),
    If(Box<ExprV>, Seq<StmtV>, Option<Seq<StmtV>>),
    Func(Seq<Seq<char>>, Seq<StmtV>),
    Call(Box<ExprV>, Seq<ExprV>),
}

/// Abstract value of a statement.
pub enum StmtV {
    Let(bool, Seq<char>, ExprV),
    Return(ExprV),
    Expr(ExprV),
    Block(Seq<StmtV>),
}

#[derive(Debug, PartialEq)]
pub struct IntegerLiteral {
    pub value: i64,
}

#[derive(Debug, PartialEq)]
pub struct IdentifierLiteral {
    pub value: String,
}

#[derive(Debug, PartialEq)]
pub struct BooleanLiteral {
    pub value: bool,
}

#[derive(Debug, PartialEq)]
pub struct PrefixExpression {
    pub operator: PrefixOperator,
    pub right: Box<Expression>,
}

#[derive(Debug, PartialEq)]
pub struct InfixExpression {
    pub operator: InfixOperator,
    pub left: Box<Expression>,
    pub right: Box<Expression>,
}

#[derive(Debug, PartialEq)]
pub struct IfExpression {
    pub condition: Box<Expression>,
    pub consequence: BlockStatement,
    pub alternative: Option<BlockStatement>,
}

#[derive(Debug, PartialEq)]
pub struct FunctionLiteral {
    pub parameters: Vec<IdentifierLiteral>,
    pub body: BlockStatement,
}

#[derive(Debug, PartialEq)]
pub struct CallExpression {
    pub function: Box<Expression>,
    pub arguments: Vec<Expression>,
}

/// An expression node: one of the closed set of expression forms.
#[derive(Debug, PartialEq)]
pub enum Expression {
    Integer(IntegerLiteral),
    Identifier(IdentifierLiteral),
    Boolean(BooleanLiteral),
    Prefix(PrefixExpression),
    Infix(InfixExpression),
    If(IfExpression),
    Function(FunctionLiteral),
    Call(CallExpression),
}

#[derive(Debug, PartialEq)]
pub struct LetStatement {
    pub mutable: bool,
    pub name: IdentifierLiteral,
    pub value: Expression,
}

#[derive(Debug, PartialEq)]
pub struct ReturnStatement {
    pub expression: Expression,
}

#[derive(Debug, PartialEq)]
pub struct ExpressionStatement {
    pub expression: Expression,
}

#[derive(Debug, PartialEq)]
pub struct BlockStatement {
    pub statements: Vec<Statement>,
}

/// A statement node: one of the closed set of statement forms.
#[derive(Debug, PartialEq)]
pub enum Statement {
    Let(LetStatement),
    Return(ReturnStatement),
    Expression(ExpressionStatement),
    Block(BlockStatement),
}

/// The root of a parse: statements in source order.
#[derive(Debug, PartialEq)]
pub struct Program {
    pub statements: Vec<Statement>,
}

pub open spec fn view_expr(e: Expression) -> ExprV
    decreases e,
{
    match e {
        Expression::Integer(i) => ExprV::Int(i.value as int),
        Expression::Identifier(i) => ExprV::Ident(i.value@),
        Expression::Boolean(b) => ExprV::Bool(b.value),
        Expression::Prefix(p) => ExprV::Prefix(p.operator, Box::new(view_expr(*p.right))),
        Expression::Infix(i) => ExprV::Infix(
            i.operator,
            Box::new(view_expr(*i.left)),
            Box::new(view_expr(*i.right)),
        ),
        Expression::If(i) => ExprV::If(
            Box::new(view_expr(*i.condition)),
            view_stmts(i.consequence.statements@),
            match i.alternative {
                Some(b) => Some(view_stmts(b.statements@)),
                None => None,
            },
        ),
        Expression::Function(f) => ExprV::Func(view_names(f.parameters@), view_stmts(f.body.statements@)),
        Expression::Call(c) => ExprV::Call(Box::new(view_expr(*c.function)), view_exprs(c.arguments@)),
    }
}

pub open spec fn view_exprs(s: Seq<Expression>) -> Seq<ExprV>
    decreases s,
{
    if s.len() == 0 {
        seq![]
    } else {
        view_exprs(s.drop_last()).push(view_expr(s.last()))
    }
}

pub open spec fn view_names(s: Seq<IdentifierLiteral>) -> Seq<Seq<char>> {
    s.map_values(|i: IdentifierLiteral| i.value@)
}

pub open spec fn view_stmt(s: Statement) -> StmtV
    decreases s,
{
    match s {
        Statement::Let(l) => StmtV::Let(l.mutable, l.name.value@, view_expr(l.value)),
        Statement::Return(r) => StmtV::Return(view_expr(r.expression)),
        Statement::Expression(e) => StmtV::Expr(view_expr(e.expression)),
        Statement::Block(b) => StmtV::Block(view_stmts(b.statements@)),
    }
}

pub open spec fn view_stmts(s: Seq<Statement>) -> Seq<StmtV>
    decreases s,
{
    if s.len() == 0 {
        seq![]
    } else {
        view_stmts(s.drop_last()).push(view_stmt(s.last()))
    }
}

pub proof fn lemma_view_exprs_push(s: Seq<Expression>, x: Expression)
    ensures
        view_exprs(s.push(x)) == view_exprs(s).push(view_expr(x)),
{
    assert(s.push(x).drop_last() =~= s);
}

pub proof fn lemma_view_stmts_push(s: Seq<Statement>, x: Statement)
    ensures
        view_stmts(s.push(x)) == view_stmts(s).push(view_stmt(x)),
{
    assert(s.push(x).drop_last() =~= s);
}

pub proof fn lemma_view_names_push(s: Seq<IdentifierLiteral>, x: IdentifierLiteral)
    ensures
        view_names(s.push(x)) == view_names(s).push(x.value@),
{
    assert(view_names(s.push(x)) =~= view_names(s).push(x.value@));
}

impl Expression {
    pub open spec fn view(self) -> ExprV {
        view_expr(self)
    }
}

impl Statement {
    pub open spec fn view(self) -> StmtV {
        view_stmt(self)
    }
}

impl Program {
    pub open spec fn view(self) -> Seq<StmtV> {
        view_stmts(self.statements@)
    }

    pub fn new() -> (r: Program)
        ensures
            r.statements@.len() == 0,
    {
        Program { statements: Vec::new() }
    }
}

} // verus!
