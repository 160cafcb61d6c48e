use vstd::prelude::*;
use crate::ast::{
    ExprV, StmtV, PrefixOperator, InfixOperator, Expression, Statement, Program, BlockStatement,
    IdentifierLiteral, PrefixExpression, InfixExpression, IfExpression, FunctionLiteral,
    CallExpression, prefix_spelling, infix_spelling, view_expr, view_stmt, view_exprs,
    view_stmts, view_names,
};
use crate::text::{chars_of, string_of, push_all};

verus! {

/// The decimal digit for `d < 10`.
pub open spec fn digit_char(d: nat) -> char {
    if d == 0 {
        '0'
    } else if d == 1 {
        '1'
    } else if d == 2 {
        '2'
    } else if d == 3 {
        '3'
    } else if d == 4 {
        '4'
    } else if d == 5 {
        '5'
    } else if d == 6 {
        '6'
    } else if d == 7 {
        '7'
    } else if d == 8 {
        '8'
    } else {
        '9'
    }
}

/// Decimal digits of `n`, without leading zeros.
pub open spec fn digits(n: nat) -> Seq<char>
    decreases n,
{
    if n < 10 {
        seq![digit_char(n)]
    } else {
        digits(n / 10) + seq![digit_char(n % 10)]
    }
}

/// Decimal text of an integer, with a leading `-` when it is negative.
pub open spec fn decimal(v: int) -> Seq<char> {
    if v < 0 {
        seq!['-'] + digits((-v) as nat)
    } else {
        digits(v as nat)
    }
}

/// Canonical text of an expression: every operator application fully parenthesized.
pub open spec fn render_expr(e: ExprV) -> Seq<char>
    decreases e,
{
    match e {
        ExprV::Int(v) => decimal(v),
        ExprV::Ident(name) => name,
        ExprV::Bool(b) => if b { seq!['t', 'r', 'u', 'e'] } else { seq!['f', 'a', 'l', 's', 'e'] },
        ExprV::Prefix(op, right) => seq!['('] + prefix_spelling(op) + render_expr(*right) + seq![')'],
        ExprV::Infix(op, left, right) => seq!['('] + render_expr(*left) + seq![' '] + infix_spelling(
            op,
        ) + seq![' '] + render_expr(*right) + seq![')'],
        ExprV::If(cond, cons, alt) => seq!['i', 'f', ' ', '('] + render_expr(*cond) + seq![
            ')',
            ' ',
            '{',
        ] + (seq!['{', ' '] + render_stmts(cons) + seq![' ', '}']) + seq!['}', ' '] + match alt {
            Some(a) => seq!['e', 'l', 's', 'e', ' ', '{'] + (seq!['{', ' '] + render_stmts(a) + seq![
                ' ',
                '}',
            ]) + seq!['}'],
            None => seq![],
        },
        ExprV::Func(params, body) => seq!['f', 'n', '('] + render_names(params) + seq![')', ' ']
            + (seq!['{', ' '] + render_stmts(body) + seq![' ', '}']),
        ExprV::Call(callee, args) => render_expr(*callee) + seq!['('] + render_args(args) + seq![
            ')',
        ],
    }
}

/// Expressions separated by `", "`.
pub open spec fn render_args(s: Seq<ExprV>) -> Seq<char>
    decreases s,
{
    if s.len() == 0 {
        seq![]
    } else if s.len() == 1 {
        render_expr(s[0])
    } else {
        render_args(s.drop_last()) + seq![',', ' '] + render_expr(s.last())
    }
}

/// Names separated by `", "`.
pub open spec fn render_names(s: Seq<Seq<char>>) -> Seq<char>
    decreases s.len(),
{
    if s.len() == 0 {
        seq![]
    } else if s.len() == 1 {
        s[0]
    } else {
        render_names(s.drop_last()) + seq![',', ' '] + s.last()
    }
}

/// Canonical text of a statement.
pub open spec fn render_stmt(s: StmtV) -> Seq<char>
    decreases s,
{
    match s {
        StmtV::Let(mutable, name, value) => seq!['l', 'e', 't', ' '] + (if mutable {
            seq!['m', 'u', 't', ' ']
        } else {
            seq![]
        }) + name + seq![' ', '=', ' '] + render_expr(value) + seq![';'],
        StmtV::Return(value) => seq!['r', 'e', 't', 'u', 'r', 'n', ' '] + render_expr(value) + seq![
            ';',
        ],
        StmtV::Expr(value) => render_expr(value),
        StmtV::Block(body) => seq!['{', ' '] + render_stmts(body) + seq![' ', '}'],
    }
}

/// Statements one after another, with nothing between them.
pub open spec fn render_stmts(s: Seq<StmtV>) -> Seq<char>
    decreases s,
{
    if s.len() == 0 {
        seq![]
    } else {
        render_stmts(s.drop_last()) + render_stmt(s.last())
    }
}

/// `{ statements }`.
pub open spec fn render_block(s: Seq<StmtV>) -> Seq<char> {
    seq!['{', ' '] + render_stmts(s) + seq![' ', '}']
}

fn write_digit(d: u64, out: &mut Vec<char>)
    requires
        d < 10,
    ensures
        final(out)@ == old(out)@.push(digit_char(d as nat)),
{
    let c = if d == 0 {
        '0'
    } else if d == 1 {
        '1'
    } else if d == 2 {
        '2'
    } else if d == 3 {
        '3'
    } else if d == 4 {
        '4'
    } else if d == 5 {
        '5'
    } else if d == 6 {
        '6'
    } else if d == 7 {
        '7'
    } else if d == 8 {
        '8'
    } else {
        '9'
    };
    out.push(c);
}

fn write_digits(n: u64, out: &mut Vec<char>)
    ensures
        final(out)@ == old(out)@ + digits(n as nat),
    decreases n,
{
    if n >= 10 {
        write_digits(n / 10, out);
    }
    write_digit(n % 10, out);
    assert(out@ =~= old(out)@ + digits(n as nat));
}

fn write_decimal(v: i64, out: &mut Vec<char>)
    ensures
        final(out)@ == old(out)@ + decimal(v as int),
{
    if v < 0 {
        out.push('-');
        let m: i128 = -(v as i128);
        write_digits(m as u64, out);
    } else {
        write_digits(v as u64, out);
    }
    assert(out@ =~= old(out)@ + decimal(v as int));
}

fn write_name(name: &String, out: &mut Vec<char>)
    ensures
        final(out)@ == old(out)@ + name@,
{
    let cs = chars_of(name.as_str());
    push_all(out, &cs);
}

fn write_sep(out: &mut Vec<char>)
    ensures
        final(out)@ == old(out)@ + seq![',', ' '],
{
    out.push(',');
    out.push(' ');
    assert(out@ =~= old(out)@ + seq![',', ' ']);
}

fn write_expression(e: &Expression, out: &mut Vec<char>)
    ensures
        final(out)@ == old(out)@ + render_expr(view_expr(*e)),
    decreases e,
{
    match e {
        Expression::Integer(i) => write_decimal(i.value, out),
        Expression::Identifier(i) => write_name(&i.value, out),
        Expression::Boolean(b) => {
            if b.value {
                out.push('t');
                out.push('r');
                out.push('u');
                out.push('e');
            } else {
                out.push('f');
                out.push('a');
                out.push('l');
                out.push('s');
                out.push('e');
            }
            assert(out@ =~= old(out)@ + render_expr(view_expr(*e)));
        },
        Expression::Prefix(p) => write_prefix(p, out),
        Expression::Infix(i) => write_infix(i, out),
        Expression::If(i) => write_if(i, out),
        Expression::Function(f) => write_function(f, out),
        Expression::Call(c) => write_call(c, out),
    }
}

fn write_prefix(p: &PrefixExpression, out: &mut Vec<char>)
    ensures
        final(out)@ == old(out)@ + render_expr(view_expr(Expression::Prefix(*p))),
    decreases p,
{
    out.push('(');
    match p.operator {
        PrefixOperator::BANG => out.push('!'),
        PrefixOperator::MINUS => out.push('-'),
    }
    write_expression(&p.right, out);
    out.push(')');
    assert(out@ =~= old(out)@ + render_expr(view_expr(Expression::Prefix(*p))));
}

fn write_infix(i: &InfixExpression, out: &mut Vec<char>)
    ensures
        final(out)@ == old(out)@ + render_expr(view_expr(Expression::Infix(*i))),
    decreases i,
{
    out.push('(');
    write_expression(&i.left, out);
    out.push(' ');
    write_infix_operator(i.operator, out);
    out.push(' ');
    write_expression(&i.right, out);
    out.push(')');
    assert(out@ =~= old(out)@ + render_expr(view_expr(Expression::Infix(*i))));
}

#[verifier::rlimit(40)]
fn write_if(i: &IfExpression, out: &mut Vec<char>)
    ensures
        final(out)@ == old(out)@ + render_expr(view_expr(Expression::If(*i))),
    decreases i,
{
    out.push('i');
    out.push('f');
    out.push(' ');
    out.push('(');
    write_expression(&i.condition, out);
    out.push(')');
    out.push(' ');
    out.push('{');
    write_block(&i.consequence, out);
    out.push('}');
    out.push(' ');
    let ghost mid = out@;
    match &i.alternative {
        Some(a) => {
            out.push('e');
            out.push('l');
            out.push('s');
            out.push('e');
            out.push(' ');
            out.push('{');
            write_block(a, out);
            out.push('}');
            assert(out@ =~= mid + (seq!['e', 'l', 's', 'e', ' ', '{'] + render_block(
                view_stmts(a.statements@),
            ) + seq!['}']));
        },
        None => {
            assert(out@ =~= mid + seq![]);
        },
    }
    assert(out@ =~= old(out)@ + render_expr(view_expr(Expression::If(*i))));
}

fn write_function(f: &FunctionLiteral, out: &mut Vec<char>)
    ensures
        final(out)@ == old(out)@ + render_expr(view_expr(Expression::Function(*f))),
    decreases f,
{
    out.push('f');
    out.push('n');
    out.push('(');
    write_names(&f.parameters, out);
    out.push(')');
    out.push(' ');
    write_block(&f.body, out);
    assert(out@ =~= old(out)@ + render_expr(view_expr(Expression::Function(*f))));
}

fn write_call(c: &CallExpression, out: &mut Vec<char>)
    ensures
        final(out)@ == old(out)@ + render_expr(view_expr(Expression::Call(*c))),
    decreases c,
{
    write_expression(&c.function, out);
    out.push('(');
    write_arguments(&c.arguments, out);
    out.push(')');
    assert(out@ =~= old(out)@ + render_expr(view_expr(Expression::Call(*c))));
}

fn write_infix_operator(op: InfixOperator, out: &mut Vec<char>)
    ensures
        final(out)@ == old(out)@ + infix_spelling(op),
{
    match op {
        InfixOperator::PLUS => out.push('+'),
        InfixOperator::MINUS => out.push('-'),
        InfixOperator::MULTIPLY => out.push('*'),
        InfixOperator::DIVIDE => out.push('/'),
        InfixOperator::EQUAL => {
            out.push('=');
            out.push('=');
        },
        InfixOperator::NOT_EQUAL => {
            out.push('!');
            out.push('=');
        },
        InfixOperator::LESS_THAN => out.push('<'),
        InfixOperator::LESS_THAN_EQUAL => {
            out.push('<');
            out.push('=');
        },
        InfixOperator::GREATER_THAN => out.push('>'),
        InfixOperator::GREATER_THAN_EQUAL => {
            out.push('>');
            out.push('=');
        },
    }
    assert(out@ =~= old(out)@ + infix_spelling(op));
}

fn write_arguments(args: &Vec<Expression>, out: &mut Vec<char>)
    ensures
        final(out)@ == old(out)@ + render_args(view_exprs(args@)),
    decreases args,
{
    let mut i: usize = 0;
    while i < args.len()
        invariant
            i <= args@.len(),
            out@ == old(out)@ + render_args(view_exprs(args@.subrange(0, i as int))),
        decreases args@.len() - i,
    {
        let ghost before = out@;
        if i > 0 {
            write_sep(out);
        }
        write_expression(&args[i], out);
        proof {
            let s = args@.subrange(0, i + 1);
            assert(s.drop_last() =~= args@.subrange(0, i as int));
            assert(view_exprs(s).drop_last() =~= view_exprs(args@.subrange(0, i as int)));
            if i == 0 {
                assert(view_exprs(s)[0] == view_expr(args@[0]));
            }
        }
        i = i + 1;
    }
    assert(args@.subrange(0, i as int) =~= args@);
}

fn write_names(names: &Vec<IdentifierLiteral>, out: &mut Vec<char>)
    ensures
        final(out)@ == old(out)@ + render_names(view_names(names@)),
{
    let mut i: usize = 0;
    while i < names.len()
        invariant
            i <= names@.len(),
            out@ == old(out)@ + render_names(view_names(names@.subrange(0, i as int))),
        decreases names@.len() - i,
    {
        if i > 0 {
            write_sep(out);
        }
        write_name(&names[i].value, out);
        proof {
            let s = view_names(names@.subrange(0, i + 1));
            assert(s.drop_last() =~= view_names(names@.subrange(0, i as int)));
        }
        i = i + 1;
    }
    assert(names@.subrange(0, i as int) =~= names@);
}

fn write_statements(stmts: &Vec<Statement>, out: &mut Vec<char>)
    ensures
        final(out)@ == old(out)@ + render_stmts(view_stmts(stmts@)),
    decreases stmts,
{
    let mut i: usize = 0;
    while i < stmts.len()
        invariant
            i <= stmts@.len(),
            out@ == old(out)@ + render_stmts(view_stmts(stmts@.subrange(0, i as int))),
        decreases stmts@.len() - i,
    {
        write_statement(&stmts[i], out);
        proof {
            let s = stmts@.subrange(0, i + 1);
            assert(s.drop_last() =~= stmts@.subrange(0, i as int));
            assert(view_stmts(s).drop_last() =~= view_stmts(stmts@.subrange(0, i as int)));
        }
        i = i + 1;
    }
    assert(stmts@.subrange(0, i as int) =~= stmts@);
}

fn write_block(b: &BlockStatement, out: &mut Vec<char>)
    ensures
        final(out)@ == old(out)@ + render_block(view_stmts(b.statements@)),
    decreases b,
{
    out.push('{');
    out.push(' ');
    write_statements(&b.statements, out);
    out.push(' ');
    out.push('}');
    assert(out@ =~= old(out)@ + render_block(view_stmts(b.statements@)));
}

fn write_statement(s: &Statement, out: &mut Vec<char>)
    ensures
        final(out)@ == old(out)@ + render_stmt(view_stmt(*s)),
    decreases s,
{
    match s {
        Statement::Let(l) => {
            out.push('l');
            out.push('e');
            out.push('t');
            out.push(' ');
            if l.mutable {
                out.push('m');
                out.push('u');
                out.push('t');
                out.push(' ');
            }
            write_name(&l.name.value, out);
            out.push(' ');
            out.push('=');
            out.push(' ');
            write_expression(&l.value, out);
            out.push(';');
        },
        Statement::Return(r) => {
            out.push('r');
            out.push('e');
            out.push('t');
            out.push('u');
            out.push('r');
            out.push('n');
            out.push(' ');
            write_expression(&r.expression, out);
            out.push(';');
        },
        Statement::Expression(e) => write_expression(&e.expression, out),
        Statement::Block(b) => write_block(b, out),
    }
    assert(out@ =~= old(out)@ + render_stmt(view_stmt(*s)));
}

impl Expression {
    /// The canonical text of this expression.
    pub fn to_string(&self) -> (r: String)
        ensures
            r@ == render_expr(self.view()),
    {
        let mut out: Vec<char> = Vec::new();
        write_expression(self, &mut out);
        assert(out@ =~= render_expr(self.view()));
        string_of(&out)
    }
}

impl Statement {
    /// The canonical text of this statement.
    pub fn to_string(&self) -> (r: String)
        ensures
            r@ == render_stmt(self.view()),
    {
        let mut out: Vec<char> = Vec::new();
        write_statement(self, &mut out);
        assert(out@ =~= render_stmt(self.view()));
        string_of(&out)
    }
}

impl Program {
    /// The canonical text of the program: its statements one after another.
    pub fn to_string(&self) -> (r: String)
        ensures
            r@ == render_stmts(self.view()),
    {
        let mut out: Vec<char> = Vec::new();
        write_statements(&self.statements, &mut out);
        assert(out@ =~= render_stmts(self.view()));
        string_of(&out)
    }
}

} // verus!
