use vstd::prelude::*;
use crate::ast::{ExprV, StmtV, Precedence, PrefixOperator, InfixOperator};
use crate::lexer::Token;

verus! {

/// A recoverable problem found while parsing.
#[derive(Debug, Clone, PartialEq)]
pub enum ParseError {
    /// A specific token was required after the cursor and another one stood there.
    UnexpectedToken { expected: Token, got: Token },
    /// An identifier was required after the cursor and this token stood there.
    ExpectedIdentifier { got: Token },
    /// No expression can begin with this token.
    NoPrefixParse { token: Token },
    /// Integer literal text that is not a 64-bit signed integer.
    InvalidInteger { text: String },
}

/// Result of a parsing rule: the value (if any), the cursor after it, and the
/// diagnostics it recorded, in order.
pub type Parsed<T> = (Option<T>, int, Seq<ParseError>);

/// Token at index `i`; past the end the stream reads as `EOF`.
pub open spec fn tok(t: Seq<Token>, i: int) -> Token {
    if 0 <= i < t.len() {
        t[i]
    } else {
        Token::EOF
    }
}

/// Cursor after one advance; it stops at the end of the stream.
pub open spec fn adv(t: Seq<Token>, i: int) -> int {
    if i < t.len() {
        i + 1
    } else {
        i
    }
}

pub open spec fn is_digit(c: char) -> bool {
    '0' <= c <= '9'
}

/// Value of a run of decimal digits.
pub open spec fn decimal_value(s: Seq<char>) -> int
    decreases s.len(),
{
    if s.len() == 0 {
        0
    } else {
        decimal_value(s.drop_last()) * 10 + (s.last() as int - '0' as int)
    }
}

/// The 64-bit signed integer that literal text denotes, if it denotes one.
pub open spec fn integer_of(s: Seq<char>) -> Option<int> {
    if s.len() > 0 && (forall|i: int| 0 <= i < s.len() ==> is_digit(#[trigger] s[i]))
        && decimal_value(s) <= i64::MAX {
        Some(decimal_value(s))
    } else {
        None
    }
}

/// Binding strength of a token in operator position.
pub open spec fn precedence_of(t: Token) -> Precedence {
    match t {
        Token::EQUAL | Token::NOT_EQUAL => Precedence::EQUALS,
        Token::LESS_THAN | Token::LESS_THAN_EQUAL | Token::GREATER_THAN
        | Token::GREATER_THAN_EQUAL => Precedence::LESSGREATER,
        Token::PLUS | Token::MINUS => Precedence::SUM,
        Token::MULTIPLY | Token::DIVIDE => Precedence::PRODUCT,
        Token::LPAREN => Precedence::CALL,
        _ => Precedence::LOWEST,
    }
}

/// The binary operator a token spells, if any.
pub open spec fn infix_op(t: Token) -> Option<InfixOperator> {
    match t {
        Token::PLUS => Some(InfixOperator::PLUS),
        Token::MINUS => Some(InfixOperator::MINUS),
        Token::MULTIPLY => Some(InfixOperator::MULTIPLY),
        Token::DIVIDE => Some(InfixOperator::DIVIDE),
        Token::EQUAL => Some(InfixOperator::EQUAL),
        Token::NOT_EQUAL => Some(InfixOperator::NOT_EQUAL),
        Token::LESS_THAN => Some(InfixOperator::LESS_THAN),
        Token::LESS_THAN_EQUAL => Some(InfixOperator::LESS_THAN_EQUAL),
        Token::GREATER_THAN => Some(InfixOperator::GREATER_THAN),
        Token::GREATER_THAN_EQUAL => Some(InfixOperator::GREATER_THAN_EQUAL),
        _ => None,
    }
}

/// Diagnostic for a required token `expected` that is missing after cursor `p`.
pub open spec fn missing(t: Seq<Token>, p: int, expected: Token) -> Seq<ParseError> {
    seq![ParseError::UnexpectedToken { expected, got: tok(t, p + 1) }]
}

/// Whether cursor `q` lies between `p` and the end of the stream.
pub open spec fn within(t: Seq<Token>, p: int, q: int) -> bool {
    p <= q <= t.len()
}

/// An expression whose operators all bind tighter than `prec`, starting at cursor `pos`.
/// The cursor ends on the expression's last token.
pub open spec fn p_expr(t: Seq<Token>, pos: int, prec: Precedence) -> Parsed<ExprV>
    decreases t.len() - pos, 4nat,
{
    let (left, q1, e1) = p_prefix(t, pos);
    match left {
        None => (None, q1, e1),
        Some(l) => if within(t, pos, q1) {
            let (r, q2, e2) = p_infix(t, q1, prec, l);
            (r, q2, e1 + e2)
        } else {
            (None, q1, e1)
        },
    }
}

/// The prefix rule chosen by the token at the cursor.
pub open spec fn p_prefix(t: Seq<Token>, pos: int) -> Parsed<ExprV>
    decreases t.len() - pos, 3nat,
{
    match tok(t, pos) {
        Token::IDENTIFIER(s) => (Some(ExprV::Ident(s@)), pos, seq![]),
        Token::INTEGER(s) => match integer_of(s@) {
            Some(v) => (Some(ExprV::Int(v)), pos, seq![]),
            None => (None, pos, seq![ParseError::InvalidInteger { text: s }]),
        },
        Token::TRUE => (Some(ExprV::Bool(true)), pos, seq![]),
        Token::FALSE => (Some(ExprV::Bool(false)), pos, seq![]),
        Token::BANG => {
            let (r, q1, e1) = p_expr(t, pos + 1, Precedence::PREFIX);
            match r {
                Some(x) => (Some(ExprV::Prefix(PrefixOperator::BANG, Box::new(x))), q1, e1),
                None => (None, q1, e1),
            }
        },
        Token::MINUS => {
            let (r, q1, e1) = p_expr(t, pos + 1, Precedence::PREFIX);
            match r {
                Some(x) => (Some(ExprV::Prefix(PrefixOperator::MINUS, Box::new(x))), q1, e1),
                None => (None, q1, e1),
            }
        },
        Token::LPAREN => {
            let (r, q1, e1) = p_expr(t, pos + 1, Precedence::LOWEST);
            match r {
                Some(x) => if tok(t, q1 + 1) is RPAREN {
                    (Some(x), q1 + 1, e1)
                } else {
                    (None, q1, e1 + missing(t, q1, Token::RPAREN))
                },
                None => (None, q1, e1),
            }
        },
        Token::IF => p_if(t, pos),
        Token::FUNCTION => p_function(t, pos),
        other => (None, pos, seq![ParseError::NoPrefixParse { token: other }]),
    }
}

/// `if ( cond ) { block } [else { block }]`, with the cursor on `if`.
pub open spec fn p_if(t: Seq<Token>, pos: int) -> Parsed<ExprV>
    decreases t.len() - pos, 2nat,
{
    if !(tok(t, pos + 1) is LPAREN) {
        (None, pos, missing(t, pos, Token::LPAREN))
    } else {
        let (c, q1, e1) = p_expr(t, pos + 2, Precedence::LOWEST);
        match c {
            None => (None, q1, e1),
            Some(cond) => if !within(t, pos, q1) {
                (None, q1, e1)
            } else if !(tok(t, q1 + 1) is RPAREN) {
                (None, q1, e1 + missing(t, q1, Token::RPAREN))
            } else if !(tok(t, q1 + 2) is LBRACE) {
                (None, q1 + 1, e1 + missing(t, q1 + 1, Token::LBRACE))
            } else {
                let (cons, q2, e2) = p_block(t, q1 + 2);
                if !within(t, pos, q2) {
                    (None, q2, e1 + e2)
                } else if !(tok(t, q2 + 1) is ELSE) {
                    (Some(ExprV::If(Box::new(cond), cons, None)), q2, e1 + e2)
                } else if !(tok(t, q2 + 2) is LBRACE) {
                    (None, q2 + 1, e1 + e2 + missing(t, q2 + 1, Token::LBRACE))
                } else {
                    let (alt, q3, e3) = p_block(t, q2 + 2);
                    (Some(ExprV::If(Box::new(cond), cons, Some(alt))), q3, e1 + e2 + e3)
                }
            },
        }
    }
}

/// `fn ( params ) { block }`, with the cursor on `fn`.
pub open spec fn p_function(t: Seq<Token>, pos: int) -> Parsed<ExprV>
    decreases t.len() - pos, 2nat,
{
    if !(tok(t, pos + 1) is LPAREN) {
        (None, pos, missing(t, pos, Token::LPAREN))
    } else {
        let (ps, q1, e1) = p_params(t, pos + 1);
        match ps {
            None => (None, q1, e1),
            Some(names) => if !within(t, pos, q1) {
                (None, q1, e1)
            } else if !(tok(t, q1 + 1) is LBRACE) {
                (None, q1, e1 + missing(t, q1, Token::LBRACE))
            } else {
                let (body, q2, e2) = p_block(t, q1 + 1);
                (Some(ExprV::Func(names, body)), q2, e1 + e2)
            },
        }
    }
}

/// Parameter names up to the closing `)`, with the cursor on `(`.
pub open spec fn p_params(t: Seq<Token>, pos: int) -> Parsed<Seq<Seq<char>>> {
    if tok(t, pos + 1) is RPAREN {
        (Some(seq![]), pos + 1, seq![])
    } else {
        match tok(t, pos + 1) {
            Token::IDENTIFIER(s) => p_params_rest(t, pos + 1, seq![s@]),
            other => (None, adv(t, pos), seq![ParseError::ExpectedIdentifier { got: other }]),
        }
    }
}

/// Further `, name` items after `acc`, then `)`; the cursor is on the last name read.
pub open spec fn p_params_rest(t: Seq<Token>, pos: int, acc: Seq<Seq<char>>) -> Parsed<
    Seq<Seq<char>>,
>
    decreases t.len() - pos,
{
    if tok(t, pos + 1) is COMMA {
        match tok(t, pos + 2) {
            Token::IDENTIFIER(s) => p_params_rest(t, pos + 2, acc.push(s@)),
            other => (None, pos + 2, seq![ParseError::ExpectedIdentifier { got: other }]),
        }
    } else if tok(t, pos + 1) is RPAREN {
        (Some(acc), pos + 1, seq![])
    } else {
        (None, pos, missing(t, pos, Token::RPAREN))
    }
}

/// Operators and calls that follow `left` while they bind tighter than `prec`.
pub open spec fn p_infix(t: Seq<Token>, pos: int, prec: Precedence, left: ExprV) -> Parsed<ExprV>
    decreases t.len() - pos, 2nat,
{
    let next = tok(t, pos + 1);
    if next is SEMICOLON || precedence_of(next).rank() <= prec.rank() {
        (Some(left), pos, seq![])
    } else if next is LPAREN {
        let (args, q1, e1) = p_args(t, pos + 1);
        match args {
            None => (None, q1, e1),
            Some(a) => if !within(t, pos + 1, q1) {
                (None, q1, e1)
            } else {
                let (r, q2, e2) = p_infix(t, q1, prec, ExprV::Call(Box::new(left), a));
                (r, q2, e1 + e2)
            },
        }
    } else {
        match infix_op(next) {
            None => (Some(left), pos, seq![]),
            Some(op) => {
                let (right, q1, e1) = p_expr(t, pos + 2, precedence_of(next));
                match right {
                    None => (None, q1, e1),
                    Some(r) => if !within(t, pos + 1, q1) {
                        (None, q1, e1)
                    } else {
                        let (res, q2, e2) = p_infix(
                            t,
                            q1,
                            prec,
                            ExprV::Infix(op, Box::new(left), Box::new(r)),
                        );
                        (res, q2, e1 + e2)
                    },
                }
            },
        }
    }
}

/// Call arguments up to the closing `)`, with the cursor on `(`.
pub open spec fn p_args(t: Seq<Token>, pos: int) -> Parsed<Seq<ExprV>>
    decreases t.len() - pos, 1nat,
{
    if tok(t, pos + 1) is RPAREN {
        (Some(seq![]), pos + 1, seq![])
    } else if !(0 <= pos < t.len()) {
        (None, pos, seq![])
    } else {
        let (a, q1, e1) = p_expr(t, pos + 1, Precedence::LOWEST);
        match a {
            None => (None, q1, e1),
            Some(x) => if !within(t, pos + 1, q1) {
                (None, q1, e1)
            } else {
                let (r, q2, e2) = p_args_rest(t, q1, seq![x]);
                (r, q2, e1 + e2)
            },
        }
    }
}

/// Further `, argument` items after `acc`, then `)`.
pub open spec fn p_args_rest(t: Seq<Token>, pos: int, acc: Seq<ExprV>) -> Parsed<Seq<ExprV>>
    decreases t.len() - pos, 0nat,
{
    if tok(t, pos + 1) is COMMA {
        let (a, q1, e1) = p_expr(t, pos + 2, Precedence::LOWEST);
        match a {
            None => (None, q1, e1),
            Some(x) => if !within(t, pos + 2, q1) {
                (None, q1, e1)
            } else {
                let (r, q2, e2) = p_args_rest(t, q1, acc.push(x));
                (r, q2, e1 + e2)
            },
        }
    } else if tok(t, pos + 1) is RPAREN {
        (Some(acc), pos + 1, seq![])
    } else {
        (None, pos, missing(t, pos, Token::RPAREN))
    }
}

/// A block, with the cursor on `{`: statements up to `}` or the end of input.
pub open spec fn p_block(t: Seq<Token>, pos: int) -> (Seq<StmtV>, int, Seq<ParseError>)
    decreases t.len() - pos, 8nat,
{
    p_block_loop(t, adv(t, pos), seq![])
}

/// Statements after `acc` up to `}` or the end of input, the cursor on the first.
pub open spec fn p_block_loop(t: Seq<Token>, pos: int, acc: Seq<StmtV>) -> (
    Seq<StmtV>,
    int,
    Seq<ParseError>,
)
    decreases t.len() - pos, 7nat,
{
    if tok(t, pos) is RBRACE || tok(t, pos) is EOF {
        (acc, pos, seq![])
    } else {
        let (s, q1, e1) = p_statement(t, pos);
        let acc1 = match s {
            Some(x) => acc.push(x),
            None => acc,
        };
        if !within(t, pos, q1) {
            (acc1, q1, e1)
        } else {
            let (r, q2, e2) = p_block_loop(t, adv(t, q1), acc1);
            (r, q2, e1 + e2)
        }
    }
}

/// One statement, chosen by the token at the cursor.
#[verifier::opaque]
pub open spec fn p_statement(t: Seq<Token>, pos: int) -> Parsed<StmtV>
    decreases t.len() - pos, 6nat,
{
    match tok(t, pos) {
        Token::LET => p_let(t, pos),
        Token::RETURN => p_return(t, pos),
        _ => p_expression_statement(t, pos),
    }
}

/// `let [mut] name = value ;`, with the cursor on `let`.
pub open spec fn p_let(t: Seq<Token>, pos: int) -> Parsed<StmtV>
    decreases t.len() - pos, 5nat,
{
    let mutable = tok(t, pos + 1) is MUT;
    let p = if mutable { pos + 1 } else { pos };
    match tok(t, p + 1) {
        Token::IDENTIFIER(name) => if !(tok(t, p + 2) is ASSIGN) {
            (None, p + 1, missing(t, p + 1, Token::ASSIGN))
        } else {
            let (v, q1, e1) = p_expr(t, p + 3, Precedence::LOWEST);
            match v {
                None => (None, q1, e1),
                Some(x) => if tok(t, q1 + 1) is SEMICOLON {
                    (Some(StmtV::Let(mutable, name@, x)), q1 + 1, e1)
                } else {
                    (None, q1, e1 + missing(t, q1, Token::SEMICOLON))
                },
            }
        },
        other => (None, p, seq![ParseError::ExpectedIdentifier { got: other }]),
    }
}

/// `return value [;]`, with the cursor on `return`.
pub open spec fn p_return(t: Seq<Token>, pos: int) -> Parsed<StmtV>
    decreases t.len() - pos, 5nat,
{
    let (v, q1, e1) = p_expr(t, adv(t, pos), Precedence::LOWEST);
    match v {
        None => (None, q1, e1),
        Some(x) => if tok(t, q1 + 1) is SEMICOLON {
            (Some(StmtV::Return(x)), q1 + 1, e1)
        } else {
            (Some(StmtV::Return(x)), q1, e1)
        },
    }
}

/// `value [;]`, with the cursor on the value's first token.
pub open spec fn p_expression_statement(t: Seq<Token>, pos: int) -> Parsed<StmtV>
    decreases t.len() - pos, 5nat,
{
    let (v, q1, e1) = p_expr(t, pos, Precedence::LOWEST);
    match v {
        None => (None, q1, e1),
        Some(x) => if tok(t, q1 + 1) is SEMICOLON {
            (Some(StmtV::Expr(x)), q1 + 1, e1)
        } else {
            (Some(StmtV::Expr(x)), q1, e1)
        },
    }
}

/// Statements after `acc` up to the end of input, the cursor on the first.
pub open spec fn p_program_loop(t: Seq<Token>, pos: int, acc: Seq<StmtV>) -> (
    Seq<StmtV>,
    int,
    Seq<ParseError>,
)
    decreases t.len() - pos, 9nat,
{
    if tok(t, pos) is EOF {
        (acc, pos, seq![])
    } else {
        let (s, q1, e1) = p_statement(t, pos);
        let acc1 = match s {
            Some(x) => acc.push(x),
            None => acc,
        };
        if !within(t, pos, q1) {
            (acc1, q1, e1)
        } else {
            let (r, q2, e2) = p_program_loop(t, adv(t, q1), acc1);
            (r, q2, e1 + e2)
        }
    }
}

/// The statements of a whole token stream and the diagnostics recorded on the way.
pub open spec fn parse_tokens(t: Seq<Token>) -> (Seq<StmtV>, Seq<ParseError>) {
    let (s, _, e) = p_program_loop(t, 0, seq![]);
    (s, e)
}

/// A `let` statement whose name is not followed by `=` is reported, wherever it stands
/// among the statements of a program: the program's diagnostics are not empty, and the
/// `let` yields no statement.
pub proof fn lemma_let_without_assign_is_reported(t: Seq<Token>, pos: int, acc: Seq<StmtV>)
    requires
        tok(t, pos) is LET,
        ({
            let p = if tok(t, pos + 1) is MUT { pos + 1 } else { pos };
            tok(t, p + 1) is IDENTIFIER && !(tok(t, p + 2) is ASSIGN)
        }),
    ensures
        p_statement(t, pos).0 is None,
        p_statement(t, pos).2.len() > 0,
        p_program_loop(t, pos, acc).2.len() > 0,
{
    reveal(p_statement);
}

/// A whole program that opens with a `let` whose name is not followed by `=` has at
/// least one diagnostic.
pub proof fn lemma_program_with_bad_let_has_diagnostics(t: Seq<Token>)
    requires
        tok(t, 0) is LET,
        ({
            let p: int = if tok(t, 1) is MUT { 1 } else { 0 };
            tok(t, p + 1) is IDENTIFIER && !(tok(t, p + 2) is ASSIGN)
        }),
    ensures
        parse_tokens(t).1.len() > 0,
{
    lemma_let_without_assign_is_reported(t, 0, seq![]);
}

} // verus!
