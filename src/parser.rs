use vstd::prelude::*;
use crate::ast::{
    ExprV, StmtV, Precedence, PrefixOperator, InfixOperator, Expression, Statement, Program,
    IntegerLiteral, IdentifierLiteral, BooleanLiteral, PrefixExpression, InfixExpression,
    IfExpression, FunctionLiteral, CallExpression, LetStatement, ReturnStatement,
    ExpressionStatement, BlockStatement, view_expr, view_stmt, view_exprs, view_stmts, view_names,
    lemma_view_exprs_push, lemma_view_stmts_push, lemma_view_names_push,
};
use crate::lexer::{Lexer, Token, lexes, trimmed};
use crate::grammar::{
    ParseError, tok, adv, is_digit, decimal_value, integer_of, precedence_of, infix_op, missing,
    within, p_expr, p_prefix, p_if, p_function, p_params, p_params_rest, p_infix, p_args,
    p_args_rest, p_block, p_block_loop, p_statement, p_let, p_return, p_expression_statement,
    p_program_loop, parse_tokens,
};
use crate::text::chars_of;

verus! {

pub open spec fn expr_opt(r: Option<Expression>) -> Option<ExprV> {
    match r {
        Some(e) => Some(view_expr(e)),
        None => None,
    }
}

pub open spec fn stmt_opt(r: Option<Statement>) -> Option<StmtV> {
    match r {
        Some(s) => Some(view_stmt(s)),
        None => None,
    }
}

pub open spec fn exprs_opt(r: Option<Vec<Expression>>) -> Option<Seq<ExprV>> {
    match r {
        Some(v) => Some(view_exprs(v@)),
        None => None,
    }
}

pub open spec fn names_opt(r: Option<Vec<IdentifierLiteral>>) -> Option<Seq<Seq<char>>> {
    match r {
        Some(v) => Some(view_names(v@)),
        None => None,
    }
}

/// Tokens that a rule can demand at the cursor's next position.
pub open spec fn expectable(t: Token) -> bool {
    t is RPAREN || t is LPAREN || t is LBRACE || t is ASSIGN || t is SEMICOLON || t is MUT
        || t is ELSE
}

/// A Pratt parser over the token stream of one source text.
pub struct Parser {
    tokens: Vec<Token>,
    position: usize,
    pub errors: Vec<ParseError>,
}

fn precedence_of_token(t: &Token) -> (r: Precedence)
    ensures
        r == precedence_of(*t),
{
    match t {
        Token::EQUAL | Token::NOT_EQUAL => Precedence::EQUALS,
        Token::LESS_THAN | Token::LESS_THAN_EQUAL | Token::GREATER_THAN
        | Token::GREATER_THAN_EQUAL => Precedence::LESSGREATER,
        Token::PLUS | Token::MINUS => Precedence::SUM,
        Token::MULTIPLY | Token::DIVIDE => Precedence::PRODUCT,
        Token::LPAREN => Precedence::CALL,
        _ => Precedence::LOWEST,
    }
}

fn infix_operator(t: &Token) -> (r: Option<InfixOperator>)
    ensures
        r == infix_op(*t),
{
    match t {
        Token::PLUS => Some(InfixOperator::PLUS),
        Token::MINUS => Some(InfixOperator::MINUS),
        Token::MULTIPLY => Some(InfixOperator::MULTIPLY),
        Token::DIVIDE => Some(InfixOperator::DIVIDE),
        Token::EQUAL => Some(InfixOperator::EQUAL),
        Token::NOT_EQUAL => Some(InfixOperator::NOT_EQUAL),
        Token::LESS_THAN => Some(InfixOperator::LESS_THAN),
        Token::LESS_THAN_EQUAL => Some(InfixOperator::LESS_THAN_EQUAL),
        Token::GREATER_THAN => Some(InfixOperator::GREATER_THAN),
        Token::GREATER_THAN_EQUAL => Some(InfixOperator::GREATER_THAN_EQUAL),
        _ => None,
    }
}

proof fn lemma_decimal_nonneg(s: Seq<char>)
    requires
        forall|k: int| 0 <= k < s.len() ==> is_digit(#[trigger] s[k]),
    ensures
        decimal_value(s) >= 0,
    decreases s.len(),
{
    if s.len() > 0 {
        lemma_decimal_nonneg(s.drop_last());
    }
}

proof fn lemma_decimal_grows(s: Seq<char>, i: int, j: int)
    requires
        0 <= i <= j <= s.len(),
        forall|k: int| 0 <= k < s.len() ==> is_digit(#[trigger] s[k]),
    ensures
        decimal_value(s.subrange(0, i)) <= decimal_value(s.subrange(0, j)),
    decreases j - i,
{
    if j > i {
        lemma_decimal_grows(s, i, j - 1);
        assert(s.subrange(0, j).drop_last() =~= s.subrange(0, j - 1));
        lemma_decimal_nonneg(s.subrange(0, j - 1));
    }
}

/// The value of integer literal text, when it is a 64-bit signed integer.
pub fn parse_i64(s: &String) -> (r: Option<i64>)
    ensures
        match r {
            Some(v) => integer_of(s@) == Some(v as int),
            None => integer_of(s@) is None,
        },
{
    let chars = chars_of(s.as_str());
    if chars.len() == 0 {
        return None;
    }
    let mut acc: i64 = 0;
    let mut i: usize = 0;
    while i < chars.len()
        invariant
            chars@ == s@,
            0 <= i <= chars@.len(),
            forall|k: int| 0 <= k < i ==> is_digit(#[trigger] chars@[k]),
            acc as int == decimal_value(chars@.subrange(0, i as int)),
            acc >= 0,
        decreases chars@.len() - i,
    {
        let c = chars[i];
        if !('0' <= c && c <= '9') {
            return None;
        }
        let d: i64 = (c as u32 - '0' as u32) as i64;
        assert(0 <= d <= 9);
        assert(chars@.subrange(0, i + 1).drop_last() =~= chars@.subrange(0, i as int));
        if acc > 922337203685477580 || (acc == 922337203685477580 && d > 7) {
            proof {
                if forall|k: int| 0 <= k < s@.len() ==> is_digit(#[trigger] s@[k]) {
                    lemma_decimal_grows(s@, i + 1, s@.len() as int);
                    assert(s@.subrange(0, s@.len() as int) =~= s@);
                }
            }
            return None;
        }
        acc = acc * 10 + d;
        i = i + 1;
    }
    assert(chars@.subrange(0, i as int) =~= s@);
    Some(acc)
}

impl Parser {
    /// The token stream being parsed; its last token is `EOF`.
    pub closed spec fn toks(&self) -> Seq<Token> {
        self.tokens@
    }

    /// Index of the current token.
    pub closed spec fn pos(&self) -> int {
        self.position as int
    }

    /// The diagnostics recorded so far, in order.
    pub closed spec fn diagnostics(&self) -> Seq<ParseError> {
        self.errors@
    }

    pub open spec fn wf(&self) -> bool {
        &&& self.toks().len() > 0
        &&& self.toks().last() == Token::EOF
        &&& 0 <= self.pos() <= self.toks().len()
    }

    /// `after` is this parser once a rule ran that moved the cursor to `p`
    /// and recorded the diagnostics `e`.
    pub open spec fn followed(self, after: Parser, p: int, e: Seq<ParseError>) -> bool {
        &&& after.wf()
        &&& after.toks() == self.toks()
        &&& self.pos() <= after.pos()
        &&& after.pos() == p
        &&& after.diagnostics() == self.diagnostics() + e
    }

    /// A parser over every token that `lexer` yields from its cursor on, with the
    /// cursor on the first of them and no diagnostics.
    pub fn new(lexer: &mut Lexer) -> (r: Parser)
        requires
            old(lexer).wf(),
        ensures
            r.wf(),
            r.pos() == 0,
            r.diagnostics().len() == 0,
            lexes(old(lexer).text(), old(lexer).cursor(), r.toks()),
            final(lexer).wf(),
            final(lexer).text() == old(lexer).text(),
    {
        let ghost text = lexer.text();
        let ghost start = lexer.cursor();
        let mut tokens: Vec<Token> = Vec::new();
        loop
            invariant
                lexer.wf(),
                lexer.text() == text,
                text == old(lexer).text(),
                start == old(lexer).cursor(),
                forall|rest: Seq<Token>|
                    #[trigger] lexes(text, lexer.cursor(), rest) ==> lexes(text, start, tokens@ + rest),
            decreases text.len() - lexer.cursor(),
        {
            let ghost before = lexer.cursor();
            let ghost old_tokens = tokens@;
            let t = lexer.next_token();
            let ghost gt = t;
            let eof = matches!(t, Token::EOF);
            tokens.push(t);
            if eof {
                proof {
                    assert(lexes(text, before, seq![gt]));
                    assert(old_tokens + seq![gt] =~= tokens@);
                }
                return Parser { tokens, position: 0, errors: Vec::new() };
            }
            proof {
                assert forall|rest: Seq<Token>| #[trigger]
                    lexes(text, lexer.cursor(), rest) implies lexes(text, start, tokens@ + rest) by {
                    let r2 = seq![gt] + rest;
                    assert(r2.drop_first() =~= rest);
                    assert(lexes(text, before, r2));
                    assert(old_tokens + r2 =~= tokens@ + rest);
                }
            }
        }
    }

    /// Whether no diagnostic has been recorded.
    pub fn check_parser_errors(&self) -> (r: bool)
        ensures
            r == (self.diagnostics().len() == 0),
    {
        self.errors.len() == 0
    }

    fn token(&self, i: usize) -> (r: &Token)
        requires
            self.wf(),
        ensures
            *r == tok(self.toks(), i as int),
    {
        if i < self.tokens.len() {
            &self.tokens[i]
        } else {
            &self.tokens[self.tokens.len() - 1]
        }
    }

    fn cur_token(&self) -> (r: &Token)
        requires
            self.wf(),
        ensures
            *r == tok(self.toks(), self.pos()),
    {
        self.token(self.position)
    }

    fn peek_token(&self) -> (r: &Token)
        requires
            self.wf(),
        ensures
            *r == tok(self.toks(), self.pos() + 1),
    {
        if self.position < self.tokens.len() {
            self.token(self.position + 1)
        } else {
            self.token(self.position)
        }
    }

    /// Moves the cursor to the next token.
    fn next_token(&mut self)
        requires
            old(self).wf(),
        ensures
            final(self).wf(),
            final(self).toks() == old(self).toks(),
            final(self).diagnostics() == old(self).diagnostics(),
            final(self).pos() == adv(old(self).toks(), old(self).pos()),
    {
        if self.position < self.tokens.len() {
            self.position = self.position + 1;
        }
    }

    fn peek_token_is(&self, t: &Token) -> (r: bool)
        requires
            self.wf(),
            expectable(*t),
        ensures
            r == (tok(self.toks(), self.pos() + 1) == *t),
    {
        let p = self.peek_token();
        match t {
            Token::RPAREN => matches!(p, Token::RPAREN),
            Token::LPAREN => matches!(p, Token::LPAREN),
            Token::LBRACE => matches!(p, Token::LBRACE),
            Token::ASSIGN => matches!(p, Token::ASSIGN),
            Token::SEMICOLON => matches!(p, Token::SEMICOLON),
            Token::MUT => matches!(p, Token::MUT),
            Token::ELSE => matches!(p, Token::ELSE),
            _ => false,
        }
    }

    /// Records that `t` was required after the cursor.
    fn peek_error(&mut self, t: Token)
        requires
            old(self).wf(),
        ensures
            final(self).wf(),
            final(self).toks() == old(self).toks(),
            final(self).pos() == old(self).pos(),
            final(self).diagnostics() == old(self).diagnostics() + missing(old(self).toks(), old(self).pos(), t),
    {
        let got = self.peek_token().duplicate();
        self.errors.push(ParseError::UnexpectedToken { expected: t, got });
        assert(self.errors@ =~= old(self).errors@ + missing(old(self).toks(), old(self).pos(), t));
    }

    /// Moves onto the next token if it is `t`; records a diagnostic otherwise.
    fn expect_peek(&mut self, t: Token) -> (r: bool)
        requires
            old(self).wf(),
            expectable(t),
        ensures
            final(self).wf(),
            final(self).toks() == old(self).toks(),
            r == (tok(old(self).toks(), old(self).pos() + 1) == t),
            r ==> final(self).pos() == old(self).pos() + 1 && final(self).diagnostics() == old(self).diagnostics(),
            !r ==> final(self).pos() == old(self).pos() && final(self).diagnostics() == old(self).diagnostics()
                + missing(old(self).toks(), old(self).pos(), t),
    {
        if self.peek_token_is(&t) {
            self.next_token();
            true
        } else {
            self.peek_error(t);
            false
        }
    }

    /// Moves onto the next token if it is `t`.
    fn optional_peek(&mut self, t: Token) -> (r: bool)
        requires
            old(self).wf(),
            expectable(t),
        ensures
            final(self).wf(),
            final(self).toks() == old(self).toks(),
            final(self).diagnostics() == old(self).diagnostics(),
            r == (tok(old(self).toks(), old(self).pos() + 1) == t),
            final(self).pos() == if r { old(self).pos() + 1 } else { old(self).pos() },
    {
        let r = self.peek_token_is(&t);
        if r {
            self.next_token();
        }
        r
    }
}

impl Parser {
    /// Pratt parsing: a prefix rule, then operators and calls while they bind tighter
    /// than `precedence`. The cursor ends on the expression's last token.
    #[verifier::rlimit(40)]
    fn parse_expression(&mut self, precedence: Precedence) -> (r: Option<Expression>)
        requires
            old(self).wf(),
        ensures
            ({
                let (v, p, e) = p_expr(old(self).toks(), old(self).pos(), precedence);
                expr_opt(r) == v && old(self).followed(*final(self), p, e)
            }),
        decreases old(self).toks().len() - old(self).pos(), 4nat,
    {
        let ghost t = self.toks();
        let ghost target = p_expr(t, self.pos(), precedence);
        let ghost e0 = self.diagnostics();
        let first = self.parse_prefix();
        let mut left = match first {
            None => return None,
            Some(l) => l,
        };
        proof {
            let (_, q1, e1) = p_prefix(t, old(self).pos());
            let (_, _, e2) = p_infix(t, q1, precedence, view_expr(left));
            assert(e0 + (e1 + e2) =~= (e0 + e1) + e2);
        }
        loop
            invariant
                self.wf(),
                self.toks() == t,
                old(self).pos() <= self.pos(),
                old(self).toks() == t,
                e0 == old(self).diagnostics(),
                target == p_expr(t, old(self).pos(), precedence),
                ({
                    let (v, p, e) = p_infix(t, self.pos(), precedence, view_expr(left));
                    target.0 == v && target.1 == p && e0 + target.2 == self.diagnostics() + e
                }),
            decreases t.len() - self.pos(),
        {
            let ghost pos = self.pos();
            let ghost e_before = self.diagnostics();
            let next = self.peek_token();
            let stop = matches!(next, Token::SEMICOLON) || !precedence_of_token(next).binds_tighter(
                precedence,
            );
            let is_call = matches!(next, Token::LPAREN);
            let op = infix_operator(next);
            let next_precedence = precedence_of_token(next);
            if stop {
                assert(self.diagnostics() + seq![] =~= self.diagnostics());
                return Some(left);
            }
            if is_call {
                self.next_token();
                let args = self.parse_call_arguments();
                match args {
                    None => {
                        return None;
                    },
                    Some(a) => {
                        proof {
                            let (_, q1, e1) = p_args(t, pos + 1);
                            let call = ExprV::Call(Box::new(view_expr(left)), view_exprs(a@));
                            let (_, _, e2) = p_infix(t, q1, precedence, call);
                            assert(e_before + (e1 + e2) =~= (e_before + e1) + e2);
                        }
                        left = Expression::Call(CallExpression { function: Box::new(left), arguments: a });
                    },
                }
            } else {
                match op {
                    None => {
                        assert(self.diagnostics() + seq![] =~= self.diagnostics());
                        return Some(left);
                    },
                    Some(o) => {
                        self.next_token();
                        self.next_token();
                        let right = self.parse_expression(next_precedence);
                        match right {
                            None => {
                                return None;
                            },
                            Some(rt) => {
                                proof {
                                    let (_, q1, e1) = p_expr(t, pos + 2, next_precedence);
                                    let node = ExprV::Infix(
                                        o,
                                        Box::new(view_expr(left)),
                                        Box::new(view_expr(rt)),
                                    );
                                    let (_, _, e2) = p_infix(t, q1, precedence, node);
                                    assert(e_before + (e1 + e2) =~= (e_before + e1) + e2);
                                }
                                left = Expression::Infix(
                                    InfixExpression { operator: o, left: Box::new(left), right: Box::new(rt) },
                                );
                            },
                        }
                    },
                }
            }
        }
    }

    /// The prefix rule chosen by the current token.
    fn parse_prefix(&mut self) -> (r: Option<Expression>)
        requires
            old(self).wf(),
        ensures
            ({
                let (v, p, e) = p_prefix(old(self).toks(), old(self).pos());
                expr_opt(r) == v && old(self).followed(*final(self), p, e)
            }),
        decreases old(self).toks().len() - old(self).pos(), 3nat,
    {
        let c = self.cur_token().duplicate();
        match c {
            Token::IDENTIFIER(s) => {
                assert(self.diagnostics() =~= old(self).diagnostics() + seq![]);
                Some(Expression::Identifier(IdentifierLiteral { value: s }))
            },
            Token::TRUE | Token::FALSE => self.parse_boolean_literal(),
            Token::INTEGER(s) => self.parse_integer_literal(s),
            Token::BANG => self.parse_prefix_expression(PrefixOperator::BANG),
            Token::MINUS => self.parse_prefix_expression(PrefixOperator::MINUS),
            Token::LPAREN => self.parse_grouped_expression(),
            Token::IF => self.parse_if_expression(),
            Token::FUNCTION => self.parse_function_literal(),
            other => {
                let ghost g = other;
                self.errors.push(ParseError::NoPrefixParse { token: other });
                assert(self.diagnostics() =~= old(self).diagnostics() + seq![
                    ParseError::NoPrefixParse { token: g },
                ]);
                None
            },
        }
    }

    fn parse_boolean_literal(&mut self) -> (r: Option<Expression>)
        requires
            old(self).wf(),
            tok(old(self).toks(), old(self).pos()) is TRUE || tok(
                old(self).toks(),
                old(self).pos(),
            ) is FALSE,
        ensures
            ({
                let (v, p, e) = p_prefix(old(self).toks(), old(self).pos());
                expr_opt(r) == v && old(self).followed(*final(self), p, e)
            }),
    {
        let value = matches!(self.cur_token(), Token::TRUE);
        assert(self.diagnostics() + seq![] =~= self.diagnostics());
        Some(Expression::Boolean(BooleanLiteral { value }))
    }

    fn parse_integer_literal(&mut self, text: String) -> (r: Option<Expression>)
        requires
            old(self).wf(),
            tok(old(self).toks(), old(self).pos()) == Token::INTEGER(text),
        ensures
            ({
                let (v, p, e) = p_prefix(old(self).toks(), old(self).pos());
                expr_opt(r) == v && old(self).followed(*final(self), p, e)
            }),
    {
        let ghost g = text;
        match parse_i64(&text) {
            Some(value) => {
                assert(self.diagnostics() =~= old(self).diagnostics() + seq![]);
                Some(Expression::Integer(IntegerLiteral { value }))
            },
            None => {
                self.errors.push(ParseError::InvalidInteger { text });
                assert(self.diagnostics() =~= old(self).diagnostics() + seq![
                    ParseError::InvalidInteger { text: g },
                ]);
                None
            },
        }
    }

    fn parse_prefix_expression(&mut self, operator: PrefixOperator) -> (r: Option<Expression>)
        requires
            old(self).wf(),
            operator == PrefixOperator::BANG ==> tok(old(self).toks(), old(self).pos()) is BANG,
            operator == PrefixOperator::MINUS ==> tok(old(self).toks(), old(self).pos()) is MINUS,
        ensures
            ({
                let (v, p, e) = p_prefix(old(self).toks(), old(self).pos());
                expr_opt(r) == v && old(self).followed(*final(self), p, e)
            }),
        decreases old(self).toks().len() - old(self).pos(), 2nat,
    {
        self.next_token();
        match self.parse_expression(Precedence::PREFIX) {
            Some(right) => Some(Expression::Prefix(PrefixExpression { operator, right: Box::new(right) })),
            None => None,
        }
    }

    fn parse_grouped_expression(&mut self) -> (r: Option<Expression>)
        requires
            old(self).wf(),
            tok(old(self).toks(), old(self).pos()) is LPAREN,
        ensures
            ({
                let (v, p, e) = p_prefix(old(self).toks(), old(self).pos());
                expr_opt(r) == v && old(self).followed(*final(self), p, e)
            }),
        decreases old(self).toks().len() - old(self).pos(), 2nat,
    {
        self.next_token();
        let inner = self.parse_expression(Precedence::LOWEST);
        match inner {
            None => None,
            Some(x) => {
                let ghost e1 = self.diagnostics();
                if self.expect_peek(Token::RPAREN) {
                    Some(x)
                } else {
                    assert(self.diagnostics() =~= old(self).diagnostics() + (
                        p_expr(self.toks(), old(self).pos() + 1, Precedence::LOWEST).2 + missing(
                            self.toks(),
                            self.pos(),
                            Token::RPAREN,
                        )));
                    None
                }
            },
        }
    }

    /// Call arguments up to the closing `)`, with the cursor on `(`.
    #[verifier::rlimit(40)]
    fn parse_call_arguments(&mut self) -> (r: Option<Vec<Expression>>)
        requires
            old(self).wf(),
            tok(old(self).toks(), old(self).pos()) is LPAREN,
        ensures
            ({
                let (v, p, e) = p_args(old(self).toks(), old(self).pos());
                exprs_opt(r) == v && old(self).followed(*final(self), p, e)
            }),
        decreases old(self).toks().len() - old(self).pos(), 1nat,
    {
        let ghost t = self.toks();
        let ghost e0 = self.diagnostics();
        let ghost target = p_args(t, self.pos());
        if self.peek_token_is(&Token::RPAREN) {
            self.next_token();
            let none: Vec<Expression> = Vec::new();
            assert(e0 + seq![] =~= e0);
            assert(view_exprs(none@) =~= seq![]);
            return Some(none);
        }
        self.next_token();
        let first = self.parse_expression(Precedence::LOWEST);
        let mut args: Vec<Expression> = Vec::new();
        match first {
            None => {
                return None;
            },
            Some(x) => {
                proof {
                    lemma_view_exprs_push(args@, x);
                }
                args.push(x);
            },
        }
        proof {
            let (_, q1, e1) = p_expr(t, old(self).pos() + 1, Precedence::LOWEST);
            let (_, _, e2) = p_args_rest(t, q1, view_exprs(args@));
            assert(view_exprs(args@) =~= seq![view_exprs(args@)[0]]);
            assert(e0 + (e1 + e2) =~= (e0 + e1) + e2);
        }
        loop
            invariant
                self.wf(),
                self.toks() == t,
                old(self).toks() == t,
                old(self).pos() < self.pos(),
                e0 == old(self).diagnostics(),
                target == p_args(t, old(self).pos()),
                ({
                    let (v, p, e) = p_args_rest(t, self.pos(), view_exprs(args@));
                    target.0 == v && target.1 == p && e0 + target.2 == self.diagnostics() + e
                }),
            decreases t.len() - self.pos(),
        {
            let ghost pos = self.pos();
            let ghost e_before = self.diagnostics();
            let comma = matches!(self.peek_token(), Token::COMMA);
            if comma {
                self.next_token();
                self.next_token();
                match self.parse_expression(Precedence::LOWEST) {
                    None => {
                        return None;
                    },
                    Some(x) => {
                        proof {
                            let (_, q1, e1) = p_expr(t, pos + 2, Precedence::LOWEST);
                            let (_, _, e2) = p_args_rest(
                                t,
                                q1,
                                view_exprs(args@).push(view_expr(x)),
                            );
                            assert(e_before + (e1 + e2) =~= (e_before + e1) + e2);
                            lemma_view_exprs_push(args@, x);
                        }
                        args.push(x);
                    },
                }
            } else if self.peek_token_is(&Token::RPAREN) {
                self.next_token();
                assert(self.diagnostics() + seq![] =~= self.diagnostics());
                return Some(args);
            } else {
                self.peek_error(Token::RPAREN);
                return None;
            }
        }
    }
}

impl Parser {
    /// `if ( cond ) { block } [else { block }]`, with the cursor on `if`.
    #[verifier::rlimit(40)]
    fn parse_if_expression(&mut self) -> (r: Option<Expression>)
        requires
            old(self).wf(),
            tok(old(self).toks(), old(self).pos()) is IF,
        ensures
            ({
                let (v, p, e) = p_if(old(self).toks(), old(self).pos());
                expr_opt(r) == v && old(self).followed(*final(self), p, e)
            }),
        decreases old(self).toks().len() - old(self).pos(), 2nat,
    {
        let ghost t = self.toks();
        let ghost pos = self.pos();
        let ghost e0 = self.diagnostics();
        if !self.expect_peek(Token::LPAREN) {
            return None;
        }
        self.next_token();
        let condition = match self.parse_expression(Precedence::LOWEST) {
            None => return None,
            Some(c) => c,
        };
        let ghost q1 = self.pos();
        let ghost e1 = p_expr(t, pos + 2, Precedence::LOWEST).2;
        if !self.expect_peek(Token::RPAREN) {
            assert(self.diagnostics() =~= e0 + (e1 + missing(t, q1, Token::RPAREN)));
            return None;
        }
        if !self.expect_peek(Token::LBRACE) {
            assert(self.diagnostics() =~= e0 + (e1 + missing(t, q1 + 1, Token::LBRACE)));
            return None;
        }
        let consequence = self.parse_block_statement();
        let ghost q2 = self.pos();
        let ghost e2 = p_block(t, q1 + 2).2;
        if self.peek_token_is(&Token::ELSE) {
            self.next_token();
            if !self.expect_peek(Token::LBRACE) {
                assert(self.diagnostics() =~= e0 + (e1 + e2 + missing(t, q2 + 1, Token::LBRACE)));
                return None;
            }
            let alternative = self.parse_block_statement();
            assert(self.diagnostics() =~= e0 + (e1 + e2 + p_block(t, q2 + 2).2));
            Some(
                Expression::If(
                    IfExpression {
                        condition: Box::new(condition),
                        consequence,
                        alternative: Some(alternative),
                    },
                ),
            )
        } else {
            assert(self.diagnostics() =~= e0 + (e1 + e2));
            Some(
                Expression::If(
                    IfExpression { condition: Box::new(condition), consequence, alternative: None },
                ),
            )
        }
    }

    /// `fn ( params ) { block }`, with the cursor on `fn`.
    fn parse_function_literal(&mut self) -> (r: Option<Expression>)
        requires
            old(self).wf(),
            tok(old(self).toks(), old(self).pos()) is FUNCTION,
        ensures
            ({
                let (v, p, e) = p_function(old(self).toks(), old(self).pos());
                expr_opt(r) == v && old(self).followed(*final(self), p, e)
            }),
        decreases old(self).toks().len() - old(self).pos(), 2nat,
    {
        let ghost t = self.toks();
        let ghost pos = self.pos();
        let ghost e0 = self.diagnostics();
        if !self.expect_peek(Token::LPAREN) {
            return None;
        }
        let parameters = match self.parse_function_parameters() {
            None => return None,
            Some(p) => p,
        };
        let ghost q1 = self.pos();
        let ghost e1 = p_params(t, pos + 1).2;
        if !self.expect_peek(Token::LBRACE) {
            assert(self.diagnostics() =~= e0 + (e1 + missing(t, q1, Token::LBRACE)));
            return None;
        }
        let body = self.parse_block_statement();
        assert(self.diagnostics() =~= e0 + (e1 + p_block(t, q1 + 1).2));
        Some(Expression::Function(FunctionLiteral { parameters, body }))
    }

    /// Parameter names up to the closing `)`, with the cursor on `(`.
    fn parse_function_parameters(&mut self) -> (r: Option<Vec<IdentifierLiteral>>)
        requires
            old(self).wf(),
        ensures
            ({
                let (v, p, e) = p_params(old(self).toks(), old(self).pos());
                names_opt(r) == v && old(self).followed(*final(self), p, e)
            }),
    {
        let ghost t = self.toks();
        let ghost e0 = self.diagnostics();
        let mut params: Vec<IdentifierLiteral> = Vec::new();
        if self.peek_token_is(&Token::RPAREN) {
            self.next_token();
            assert(e0 + seq![] =~= e0);
            assert(view_names(params@) =~= seq![]);
            return Some(params);
        }
        self.next_token();
        let c = self.cur_token().duplicate();
        match c {
            Token::IDENTIFIER(s) => {
                let ghost v = s@;
                proof {
                    lemma_view_names_push(params@, IdentifierLiteral { value: s });
                }
                params.push(IdentifierLiteral { value: s });
                assert(view_names(params@) =~= seq![v]);
            },
            other => {
                self.errors.push(ParseError::ExpectedIdentifier { got: other });
                assert(self.diagnostics() =~= e0 + seq![ParseError::ExpectedIdentifier { got: other }]);
                return None;
            },
        }
        let ghost target = p_params(t, old(self).pos());
        loop
            invariant
                self.wf(),
                self.toks() == t,
                old(self).toks() == t,
                old(self).pos() < self.pos(),
                e0 == old(self).diagnostics(),
                self.diagnostics() == e0,
                target == p_params(t, old(self).pos()),
                target == p_params_rest(t, self.pos(), view_names(params@)),
            decreases t.len() - self.pos(),
        {
            let comma = matches!(self.peek_token(), Token::COMMA);
            if comma {
                self.next_token();
                self.next_token();
                let c = self.cur_token().duplicate();
                match c {
                    Token::IDENTIFIER(s) => {
                        proof {
                            lemma_view_names_push(params@, IdentifierLiteral { value: s });
                        }
                        params.push(IdentifierLiteral { value: s });
                    },
                    other => {
                        self.errors.push(ParseError::ExpectedIdentifier { got: other });
                        assert(self.diagnostics() =~= e0 + seq![
                            ParseError::ExpectedIdentifier { got: other },
                        ]);
                        return None;
                    },
                }
            } else if self.peek_token_is(&Token::RPAREN) {
                self.next_token();
                assert(e0 + seq![] =~= e0);
                return Some(params);
            } else {
                self.peek_error(Token::RPAREN);
                return None;
            }
        }
    }

    /// A block, with the cursor on `{`: statements up to `}` or the end of input.
    #[verifier::rlimit(40)]
    fn parse_block_statement(&mut self) -> (r: BlockStatement)
        requires
            old(self).wf(),
        ensures
            ({
                let (v, p, e) = p_block(old(self).toks(), old(self).pos());
                view_stmts(r.statements@) == v && old(self).followed(*final(self), p, e)
            }),
        decreases old(self).toks().len() - old(self).pos(), 8nat,
    {
        let ghost t = self.toks();
        let ghost e0 = self.diagnostics();
        let ghost target = p_block(t, self.pos());
        self.next_token();
        let mut statements: Vec<Statement> = Vec::new();
        assert(view_stmts(statements@) =~= seq![]);
        assert(e0 + target.2 =~= self.diagnostics() + target.2);
        loop
            invariant
                self.wf(),
                self.toks() == t,
                old(self).toks() == t,
                old(self).pos() <= self.pos(),
                e0 == old(self).diagnostics(),
                target == p_block(t, old(self).pos()),
                ({
                    let (v, p, e) = p_block_loop(t, self.pos(), view_stmts(statements@));
                    target.0 == v && target.1 == p && e0 + target.2 == self.diagnostics() + e
                }),
            decreases t.len() - self.pos(),
        {
            let c = self.cur_token();
            if matches!(c, Token::RBRACE) || matches!(c, Token::EOF) {
                assert(self.diagnostics() + seq![] =~= self.diagnostics());
                return BlockStatement { statements };
            }
            let ghost pos = self.pos();
            let ghost e_before = self.diagnostics();
            let ghost acc = view_stmts(statements@);
            let s = self.parse_statement();
            match s {
                Some(x) => {
                    proof {
                        lemma_view_stmts_push(statements@, x);
                    }
                    statements.push(x);
                },
                None => {},
            }
            proof {
                lemma_block_loop_step(t, pos, acc);
                let (_, q1, e1) = p_statement(t, pos);
                let (_, _, e2) = p_block_loop(t, adv(t, q1), view_stmts(statements@));
                assert(e_before + (e1 + e2) =~= (e_before + e1) + e2);
            }
            self.next_token();
        }
    }

    /// One statement, chosen by the current token.
    fn parse_statement(&mut self) -> (r: Option<Statement>)
        requires
            old(self).wf(),
        ensures
            ({
                let (v, p, e) = p_statement(old(self).toks(), old(self).pos());
                stmt_opt(r) == v && old(self).followed(*final(self), p, e)
            }),
        decreases old(self).toks().len() - old(self).pos(), 6nat,
    {
        reveal(p_statement);
        let c = self.cur_token();
        if matches!(c, Token::LET) {
            self.parse_let_statement()
        } else if matches!(c, Token::RETURN) {
            self.parse_return_statement()
        } else {
            self.parse_expression_statement()
        }
    }

    /// `let [mut] name = value ;`, with the cursor on `let`.
    #[verifier::rlimit(40)]
    fn parse_let_statement(&mut self) -> (r: Option<Statement>)
        requires
            old(self).wf(),
            tok(old(self).toks(), old(self).pos()) is LET,
        ensures
            ({
                let (v, p, e) = p_let(old(self).toks(), old(self).pos());
                stmt_opt(r) == v && old(self).followed(*final(self), p, e)
            }),
        decreases old(self).toks().len() - old(self).pos(), 5nat,
    {
        let ghost t = self.toks();
        let ghost e0 = self.diagnostics();
        let mutable = self.optional_peek(Token::MUT);
        let next = self.peek_token().duplicate();
        let name = match next {
            Token::IDENTIFIER(s) => s,
            other => {
                self.errors.push(ParseError::ExpectedIdentifier { got: other });
                assert(self.diagnostics() =~= e0 + seq![ParseError::ExpectedIdentifier { got: other }]);
                return None;
            },
        };
        self.next_token();
        if !self.expect_peek(Token::ASSIGN) {
            return None;
        }
        self.next_token();
        let ghost p = self.pos();
        let value = match self.parse_expression(Precedence::LOWEST) {
            None => return None,
            Some(v) => v,
        };
        let ghost q1 = self.pos();
        let ghost e1 = p_expr(t, p, Precedence::LOWEST).2;
        if !self.expect_peek(Token::SEMICOLON) {
            assert(self.diagnostics() =~= e0 + (e1 + missing(t, q1, Token::SEMICOLON)));
            return None;
        }
        Some(Statement::Let(LetStatement { mutable, name: IdentifierLiteral { value: name }, value }))
    }

    /// `return value [;]`, with the cursor on `return`.
    fn parse_return_statement(&mut self) -> (r: Option<Statement>)
        requires
            old(self).wf(),
        ensures
            ({
                let (v, p, e) = p_return(old(self).toks(), old(self).pos());
                stmt_opt(r) == v && old(self).followed(*final(self), p, e)
            }),
        decreases old(self).toks().len() - old(self).pos(), 5nat,
    {
        self.next_token();
        let expression = match self.parse_expression(Precedence::LOWEST) {
            None => return None,
            Some(v) => v,
        };
        self.optional_peek(Token::SEMICOLON);
        Some(Statement::Return(ReturnStatement { expression }))
    }

    /// `value [;]`, with the cursor on the value's first token.
    fn parse_expression_statement(&mut self) -> (r: Option<Statement>)
        requires
            old(self).wf(),
        ensures
            ({
                let (v, p, e) = p_expression_statement(old(self).toks(), old(self).pos());
                stmt_opt(r) == v && old(self).followed(*final(self), p, e)
            }),
        decreases old(self).toks().len() - old(self).pos(), 5nat,
    {
        let expression = match self.parse_expression(Precedence::LOWEST) {
            None => return None,
            Some(v) => v,
        };
        self.optional_peek(Token::SEMICOLON);
        Some(Statement::Expression(ExpressionStatement { expression }))
    }

    /// Parses statements from the cursor to the end of input. A statement that fails
    /// is dropped, its diagnostics are kept, and parsing goes on after it.
    #[verifier::rlimit(40)]
    pub fn parse_program(&mut self) -> (r: Program)
        requires
            old(self).wf(),
        ensures
            ({
                let (v, p, e) = p_program_loop(old(self).toks(), old(self).pos(), seq![]);
                r.view() == v && old(self).followed(*final(self), p, e)
            }),
    {
        let ghost t = self.toks();
        let ghost e0 = self.diagnostics();
        let ghost target = p_program_loop(t, self.pos(), seq![]);
        let mut statements: Vec<Statement> = Vec::new();
        assert(view_stmts(statements@) =~= seq![]);
        loop
            invariant
                self.wf(),
                self.toks() == t,
                old(self).toks() == t,
                old(self).pos() <= self.pos(),
                e0 == old(self).diagnostics(),
                target == p_program_loop(t, old(self).pos(), seq![]),
                ({
                    let (v, p, e) = p_program_loop(t, self.pos(), view_stmts(statements@));
                    target.0 == v && target.1 == p && e0 + target.2 == self.diagnostics() + e
                }),
            decreases t.len() - self.pos(),
        {
            if matches!(self.cur_token(), Token::EOF) {
                assert(self.diagnostics() + seq![] =~= self.diagnostics());
                return Program { statements };
            }
            let ghost pos = self.pos();
            let ghost e_before = self.diagnostics();
            let ghost acc = view_stmts(statements@);
            let s = self.parse_statement();
            match s {
                Some(x) => {
                    proof {
                        lemma_view_stmts_push(statements@, x);
                    }
                    statements.push(x);
                },
                None => {},
            }
            proof {
                lemma_program_loop_step(t, pos, acc);
                let (_, q1, e1) = p_statement(t, pos);
                let (_, _, e2) = p_program_loop(t, adv(t, q1), view_stmts(statements@));
                assert(e_before + (e1 + e2) =~= (e_before + e1) + e2);
            }
            self.next_token();
        }
    }
}

/// Lexes and parses a whole source text: the program and the diagnostics, in order.
pub fn lex_and_parse(input: String) -> (r: (Program, Vec<ParseError>))
    ensures
        exists|toks: Seq<Token>|
            lexes(trimmed(input@), 0, toks) && parse_tokens(toks) == (r.0.view(), r.1@),
{
    let mut lexer = Lexer::new(input);
    let mut parser = Parser::new(&mut lexer);
    let ghost toks = parser.toks();
    let program = parser.parse_program();
    assert(parse_tokens(toks) == (program.view(), parser.errors@));
    (program, parser.errors)
}

proof fn lemma_block_loop_step(t: Seq<Token>, pos: int, acc: Seq<StmtV>)
    requires
        !(tok(t, pos) is RBRACE || tok(t, pos) is EOF),
        within(t, pos, p_statement(t, pos).1),
    ensures
        ({
            let (s, q1, e1) = p_statement(t, pos);
            let acc1 = match s {
                Some(x) => acc.push(x),
                None => acc,
            };
            let (r, q2, e2) = p_block_loop(t, adv(t, q1), acc1);
            p_block_loop(t, pos, acc) == (r, q2, e1 + e2)
        }),
{
    reveal(p_statement);
}

proof fn lemma_program_loop_step(t: Seq<Token>, pos: int, acc: Seq<StmtV>)
    requires
        !(tok(t, pos) is EOF),
        within(t, pos, p_statement(t, pos).1),
    ensures
        ({
            let (s, q1, e1) = p_statement(t, pos);
            let acc1 = match s {
                Some(x) => acc.push(x),
                None => acc,
            };
            let (r, q2, e2) = p_program_loop(t, adv(t, q1), acc1);
            p_program_loop(t, pos, acc) == (r, q2, e1 + e2)
        }),
{
}

} // verus!
