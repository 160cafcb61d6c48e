use vstd::prelude::*;
use crate::ast::{ExprV, StmtV, Precedence, PrefixOperator, InfixOperator, infix_spelling, prefix_spelling};
use crate::lexer::{Token, Lexeme, lexes, scan, skip_ws, word_end, number_end, keyword, single, denotes, trimmed, trim_back};
use crate::render::{render_expr, render_args, render_stmts, render_stmt, digits, digit_char};
use crate::text::{alphabetic, numeric, whitespace};
use crate::grammar::{
    p_let, p_return, adv,
    tok, integer_of, infix_op, precedence_of, p_expr, p_prefix, p_infix, p_args, p_args_rest,
    p_statement, p_program_loop, parse_tokens, ParseError, is_digit, decimal_value,
};

verus! {

broadcast use vstd::seq::group_seq_axioms;

/// Whether token `t` spells the prefix operator `op`.
pub open spec fn spells_prefix(t: Token, op: PrefixOperator) -> bool {
    match op {
        PrefixOperator::BANG => t is BANG,
        PrefixOperator::MINUS => t is MINUS,
    }
}

/// Tokens that may follow an operand in canonical text.
pub open spec fn closes(t: Token) -> bool {
    t is RPAREN || t is COMMA || t is SEMICOLON || t is EOF
}

/// If the tokens of `t` from index `i` spell `e` in canonical form (every operator
/// application in parentheses), the index just after them.
pub open spec fn canon_end(e: ExprV, t: Seq<Token>, i: int) -> Option<int>
    decreases e,
{
    match e {
        ExprV::Int(v) => match tok(t, i) {
            Token::INTEGER(s) => if integer_of(s@) == Some(v) { Some(i + 1) } else { None },
            _ => None,
        },
        ExprV::Ident(n) => match tok(t, i) {
            Token::IDENTIFIER(s) => if s@ == n { Some(i + 1) } else { None },
            _ => None,
        },
        ExprV::Bool(b) => if (b && tok(t, i) is TRUE) || (!b && tok(t, i) is FALSE) {
            Some(i + 1)
        } else {
            None
        },
        ExprV::Prefix(op, r) => if tok(t, i) is LPAREN && spells_prefix(tok(t, i + 1), op) {
            match canon_end(*r, t, i + 2) {
                Some(j) => if tok(t, j) is RPAREN { Some(j + 1) } else { None },
                None => None,
            }
        } else {
            None
        },
        ExprV::Infix(op, l, r) => if tok(t, i) is LPAREN {
            match canon_end(*l, t, i + 1) {
                Some(j) => if infix_op(tok(t, j)) == Some(op) {
                    match canon_end(*r, t, j + 1) {
                        Some(k) => if tok(t, k) is RPAREN { Some(k + 1) } else { None },
                        None => None,
                    }
                } else {
                    None
                },
                None => None,
            }
        } else {
            None
        },
        ExprV::Call(f, args) => match canon_end(*f, t, i) {
            Some(j) => if tok(t, j) is LPAREN {
                match canon_args(args, t, j + 1) {
                    Some(k) => if tok(t, k) is RPAREN { Some(k + 1) } else { None },
                    None => None,
                }
            } else {
                None
            },
            None => None,
        },
        _ => None,
    }
}

/// If the tokens from `i` spell `args` in canonical form, separated by commas, the
/// index just after them.
pub open spec fn canon_args(args: Seq<ExprV>, t: Seq<Token>, i: int) -> Option<int>
    decreases args,
{
    if args.len() == 0 {
        Some(i)
    } else {
        match canon_end(args[0], t, i) {
            Some(j) => canon_more_args(args.drop_first(), t, j),
            None => None,
        }
    }
}

/// If the tokens from `i` spell `, a` for each `a` of `rest`, the index just after them.
pub open spec fn canon_more_args(rest: Seq<ExprV>, t: Seq<Token>, i: int) -> Option<int>
    decreases rest,
{
    if rest.len() == 0 {
        Some(i)
    } else if tok(t, i) is COMMA {
        match canon_end(rest[0], t, i + 1) {
            Some(j) => canon_more_args(rest.drop_first(), t, j),
            None => None,
        }
    } else {
        None
    }
}

proof fn lemma_canon_bounds(e: ExprV, t: Seq<Token>, i: int)
    requires
        canon_end(e, t, i) is Some,
    ensures
        0 <= i < canon_end(e, t, i)->0 <= t.len(),
        !(tok(t, i) is RPAREN),
        !(tok(t, i) is COMMA),
        !(tok(t, i) is EOF),
        !(tok(t, i) is LET),
        !(tok(t, i) is RETURN),
    decreases e,
{
    match e {
        ExprV::Prefix(op, r) => {
            lemma_canon_bounds(*r, t, i + 2);
        },
        ExprV::Infix(op, l, r) => {
            lemma_canon_bounds(*l, t, i + 1);
            let j = canon_end(*l, t, i + 1)->0;
            lemma_canon_bounds(*r, t, j + 1);
        },
        ExprV::Call(f, args) => {
            lemma_canon_bounds(*f, t, i);
            let j = canon_end(*f, t, i)->0;
            lemma_args_bounds(args, t, j + 1);
        },
        _ => {},
    }
}

proof fn lemma_args_bounds(args: Seq<ExprV>, t: Seq<Token>, i: int)
    requires
        canon_args(args, t, i) is Some,
    ensures
        i <= canon_args(args, t, i)->0,
    decreases args,
{
    if args.len() > 0 {
        lemma_canon_bounds(args[0], t, i);
        lemma_more_args_bounds(args.drop_first(), t, canon_end(args[0], t, i)->0);
    }
}

proof fn lemma_more_args_bounds(rest: Seq<ExprV>, t: Seq<Token>, i: int)
    requires
        canon_more_args(rest, t, i) is Some,
    ensures
        i <= canon_more_args(rest, t, i)->0,
    decreases rest,
{
    if rest.len() > 0 {
        lemma_canon_bounds(rest[0], t, i + 1);
        lemma_more_args_bounds(rest.drop_first(), t, canon_end(rest[0], t, i + 1)->0);
    }
}

/// Parsing from the start of a canonical spelling of `e` builds `e` and then goes on
/// exactly as if `e` had been read as a left operand ending on its last token.
#[verifier::rlimit(40)]
proof fn lemma_expr_reads_canonical(e: ExprV, t: Seq<Token>, i: int, prec: Precedence)
    requires
        canon_end(e, t, i) is Some,
        prec.rank() < 6,
    ensures
        p_expr(t, i, prec) == p_infix(t, canon_end(e, t, i)->0 - 1, prec, e),
    decreases e,
{
    lemma_canon_bounds(e, t, i);
    match e {
        ExprV::Prefix(op, r) => {
            lemma_canon_bounds(*r, t, i + 2);
            lemma_expr_reads_canonical(*r, t, i + 2, Precedence::PREFIX);
            lemma_prefix_step(e, t, i, prec);
        },
        ExprV::Infix(op, l, r) => {
            let jl = canon_end(*l, t, i + 1)->0;
            lemma_canon_bounds(*l, t, i + 1);
            lemma_canon_bounds(*r, t, jl + 1);
            lemma_expr_reads_canonical(*l, t, i + 1, Precedence::LOWEST);
            lemma_expr_reads_canonical(*r, t, jl + 1, precedence_of(tok(t, jl)));
            lemma_infix_step(e, t, i, prec);
        },
        ExprV::Call(f, args) => {
            let jf = canon_end(*f, t, i)->0;
            lemma_canon_bounds(*f, t, i);
            lemma_args_bounds(args, t, jf + 1);
            lemma_expr_reads_canonical(*f, t, i, prec);
            lemma_args_read_canonical(args, t, jf);
            lemma_call_step(e, t, i, prec);
        },
        _ => {
            lemma_atom_step(e, t, i, prec);
        },
    }
}

proof fn lemma_atom_step(e: ExprV, t: Seq<Token>, i: int, prec: Precedence)
    requires
        canon_end(e, t, i) is Some,
        e is Int || e is Ident || e is Bool,
        0 <= i < t.len(),
    ensures
        p_expr(t, i, prec) == p_infix(t, canon_end(e, t, i)->0 - 1, prec, e),
{
    assert(p_prefix(t, i) == (Some(e), i, Seq::<ParseError>::empty()));
    let (r, q2, e2) = p_infix(t, i, prec, e);
    assert(Seq::<ParseError>::empty() + e2 =~= e2);
}

proof fn lemma_prefix_step(e: ExprV, t: Seq<Token>, i: int, prec: Precedence)
    requires
        canon_end(e, t, i) is Some,
        e is Prefix,
        0 <= i < t.len(),
        canon_end(*e->Prefix_1, t, i + 2) is Some,
        i + 2 < canon_end(*e->Prefix_1, t, i + 2)->0 <= t.len(),
        p_expr(t, i + 2, Precedence::PREFIX) == p_infix(
            t,
            canon_end(*e->Prefix_1, t, i + 2)->0 - 1,
            Precedence::PREFIX,
            *e->Prefix_1,
        ),
    ensures
        p_expr(t, i, prec) == p_infix(t, canon_end(e, t, i)->0 - 1, prec, e),
{
    let r = *e->Prefix_1;
    let k = canon_end(r, t, i + 2)->0;
    assert(p_expr(t, i + 2, Precedence::PREFIX) == (Some(r), k - 1, Seq::<ParseError>::empty()));
    assert(p_prefix(t, i + 1) == (Some(e), k - 1, Seq::<ParseError>::empty()));
    assert(Seq::<ParseError>::empty() + Seq::<ParseError>::empty() =~= Seq::<ParseError>::empty());
    assert(p_expr(t, i + 1, Precedence::LOWEST) == (Some(e), k - 1, Seq::<ParseError>::empty()));
    assert(p_prefix(t, i) == (Some(e), k, Seq::<ParseError>::empty()));
    let (_, _, e2) = p_infix(t, k, prec, e);
    assert(Seq::<ParseError>::empty() + e2 =~= e2);
}

#[verifier::rlimit(40)]
proof fn lemma_infix_step(e: ExprV, t: Seq<Token>, i: int, prec: Precedence)
    requires
        canon_end(e, t, i) is Some,
        e is Infix,
        0 <= i < t.len(),
        ({
            let l = *e->Infix_1;
            let r = *e->Infix_2;
            let jl = canon_end(l, t, i + 1)->0;
            let np = precedence_of(tok(t, jl));
            &&& i + 1 < jl <= t.len()
            &&& jl + 1 < canon_end(r, t, jl + 1)->0 <= t.len()
            &&& p_expr(t, i + 1, Precedence::LOWEST) == p_infix(t, jl - 1, Precedence::LOWEST, l)
            &&& p_expr(t, jl + 1, np) == p_infix(t, canon_end(r, t, jl + 1)->0 - 1, np, r)
        }),
    ensures
        p_expr(t, i, prec) == p_infix(t, canon_end(e, t, i)->0 - 1, prec, e),
{
    let l = *e->Infix_1;
    let r = *e->Infix_2;
    let jl = canon_end(l, t, i + 1)->0;
    let k = canon_end(r, t, jl + 1)->0;
    let np = precedence_of(tok(t, jl));
    assert(np.rank() >= 1 && np.rank() <= 4);
    assert(p_expr(t, jl + 1, np) == (Some(r), k - 1, Seq::<ParseError>::empty()));
    assert(p_infix(t, k - 1, Precedence::LOWEST, e) == (Some(e), k - 1, Seq::<ParseError>::empty()));
    assert(Seq::<ParseError>::empty() + Seq::<ParseError>::empty() =~= Seq::<ParseError>::empty());
    assert(p_infix(t, jl - 1, Precedence::LOWEST, l) == (Some(e), k - 1, Seq::<ParseError>::empty()));
    assert(p_prefix(t, i) == (Some(e), k, Seq::<ParseError>::empty()));
    let (_, _, e2) = p_infix(t, k, prec, e);
    assert(Seq::<ParseError>::empty() + e2 =~= e2);
}

proof fn lemma_call_step(e: ExprV, t: Seq<Token>, i: int, prec: Precedence)
    requires
        canon_end(e, t, i) is Some,
        e is Call,
        prec.rank() < 6,
        ({
            let f = *e->Call_0;
            let args = e->Call_1;
            let jf = canon_end(f, t, i)->0;
            &&& i < jf <= t.len()
            &&& jf + 1 <= canon_args(args, t, jf + 1)->0
            &&& p_expr(t, i, prec) == p_infix(t, jf - 1, prec, f)
            &&& p_args(t, jf) == (Some(args), canon_args(args, t, jf + 1)->0, Seq::<ParseError>::empty())
        }),
    ensures
        p_expr(t, i, prec) == p_infix(t, canon_end(e, t, i)->0 - 1, prec, e),
{
    let f = *e->Call_0;
    let args = e->Call_1;
    let jf = canon_end(f, t, i)->0;
    let ka = canon_args(args, t, jf + 1)->0;
    assert(ExprV::Call(Box::new(f), args) == e);
    let (_, _, e2) = p_infix(t, ka, prec, e);
    assert(Seq::<ParseError>::empty() + e2 =~= e2);
}

proof fn lemma_args_read_canonical(args: Seq<ExprV>, t: Seq<Token>, c: int)
    requires
        tok(t, c) is LPAREN,
        canon_args(args, t, c + 1) is Some,
        tok(t, canon_args(args, t, c + 1)->0) is RPAREN,
    ensures
        p_args(t, c) == (Some(args), canon_args(args, t, c + 1)->0, Seq::<ParseError>::empty()),
    decreases args,
{
    let k = canon_args(args, t, c + 1)->0;
    if args.len() == 0 {
        assert(args =~= Seq::<ExprV>::empty());
    } else {
        lemma_canon_bounds(args[0], t, c + 1);
        let j0 = canon_end(args[0], t, c + 1)->0;
        lemma_more_args_bounds(args.drop_first(), t, j0);
        lemma_expr_reads_canonical(args[0], t, c + 1, Precedence::LOWEST);
        if args.drop_first().len() > 0 {
            assert(tok(t, j0) is COMMA);
        }
        assert(p_expr(t, c + 1, Precedence::LOWEST) == (Some(args[0]), j0 - 1, Seq::<ParseError>::empty()));
        lemma_more_args_read_canonical(args.drop_first(), t, j0, seq![args[0]]);
        assert(seq![args[0]] + args.drop_first() =~= args);
        assert(Seq::<ParseError>::empty() + Seq::<ParseError>::empty() =~= Seq::<ParseError>::empty());
    }
}

proof fn lemma_more_args_read_canonical(
    rest: Seq<ExprV>,
    t: Seq<Token>,
    j: int,
    acc: Seq<ExprV>,
)
    requires
        canon_more_args(rest, t, j) is Some,
        tok(t, canon_more_args(rest, t, j)->0) is RPAREN,
        0 < j,
    ensures
        p_args_rest(t, j - 1, acc) == (Some(acc + rest), canon_more_args(rest, t, j)->0, Seq::<ParseError>::empty()),
    decreases rest,
{
    if rest.len() == 0 {
        assert(acc + rest =~= acc);
    } else {
        lemma_canon_bounds(rest[0], t, j + 1);
        let j2 = canon_end(rest[0], t, j + 1)->0;
        lemma_more_args_bounds(rest.drop_first(), t, j2);
        lemma_expr_reads_canonical(rest[0], t, j + 1, Precedence::LOWEST);
        if rest.drop_first().len() > 0 {
            assert(tok(t, j2) is COMMA);
        }
        assert(p_expr(t, j + 1, Precedence::LOWEST) == (Some(rest[0]), j2 - 1, Seq::<ParseError>::empty()));
        lemma_more_args_read_canonical(rest.drop_first(), t, j2, acc.push(rest[0]));
        assert(acc.push(rest[0]) + rest.drop_first() =~= acc + rest);
        assert(Seq::<ParseError>::empty() + Seq::<ParseError>::empty() =~= Seq::<ParseError>::empty());
    }
}

/// Canonical tokens parse back to the tree they spell: when the tokens from `i` spell
/// `e` in canonical form and are followed by `)`, `,`, `;` or the end of input, the
/// expression parsed from `i` is `e`, with no diagnostics, and the cursor ends on the
/// last of those tokens.
pub proof fn lemma_canonical_tokens_parse_back(e: ExprV, t: Seq<Token>, i: int, prec: Precedence)
    requires
        canon_end(e, t, i) is Some,
        closes(tok(t, canon_end(e, t, i)->0)),
        prec.rank() < 6,
    ensures
        p_expr(t, i, prec) == (Some(e), canon_end(e, t, i)->0 - 1, Seq::<ParseError>::empty()),
{
    lemma_expr_reads_canonical(e, t, i, prec);
}

/// A name that the lexer reads back as one identifier token.
pub open spec fn is_word(n: Seq<char>) -> bool {
    &&& n.len() > 0
    &&& alphabetic(n[0])
    &&& forall|k: int| 0 <= k < n.len() ==> (alphabetic(#[trigger] n[k]) || numeric(n[k])) && !whitespace(n[k])
    &&& keyword(n) is None
}

/// Expressions whose canonical text reads back as themselves: no `if` or `fn`
/// expressions, no negative literals, and names that lex as identifiers.
pub open spec fn spellable(e: ExprV) -> bool
    decreases e,
{
    match e {
        ExprV::Int(v) => 0 <= v <= i64::MAX,
        ExprV::Ident(n) => is_word(n),
        ExprV::Bool(_) => true,
        ExprV::Prefix(_, r) => spellable(*r),
        ExprV::Infix(_, l, r) => spellable(*l) && spellable(*r),
        ExprV::Call(f, args) => spellable(*f) && spellable_all(args),
        _ => false,
    }
}

pub open spec fn spellable_all(args: Seq<ExprV>) -> bool
    decreases args,
{
    args.len() > 0 ==> spellable(args[0]) && spellable_all(args.drop_first())
}

/// `, a` for each `a` of `rest`.
pub open spec fn render_more(rest: Seq<ExprV>) -> Seq<char>
    decreases rest,
{
    if rest.len() == 0 {
        seq![]
    } else {
        seq![',', ' '] + render_expr(rest[0]) + render_more(rest.drop_first())
    }
}

/// `c` holds `p` from index `a` on.
pub open spec fn holds_at(c: Seq<char>, a: int, p: Seq<char>) -> bool {
    0 <= a && a + p.len() <= c.len() && c.subrange(a, a + p.len()) == p
}

/// The char at `k`, if any, ends a word or a number and is not `=`.
pub open spec fn boundary(c: Seq<char>, k: int) -> bool {
    k == c.len() || (0 <= k < c.len() && (c[k] == ')' || c[k] == '(' || c[k] == ',' || c[k] == ' '
        || c[k] == ';'))
}

pub open spec fn infix_token(op: InfixOperator) -> Token {
    match op {
        InfixOperator::PLUS => Token::PLUS,
        InfixOperator::MINUS => Token::MINUS,
        InfixOperator::MULTIPLY => Token::MULTIPLY,
        InfixOperator::DIVIDE => Token::DIVIDE,
        InfixOperator::EQUAL => Token::EQUAL,
        InfixOperator::NOT_EQUAL => Token::NOT_EQUAL,
        InfixOperator::LESS_THAN => Token::LESS_THAN,
        InfixOperator::LESS_THAN_EQUAL => Token::LESS_THAN_EQUAL,
        InfixOperator::GREATER_THAN => Token::GREATER_THAN,
        InfixOperator::GREATER_THAN_EQUAL => Token::GREATER_THAN_EQUAL,
    }
}

proof fn lemma_holds_split(c: Seq<char>, a: int, x: Seq<char>, y: Seq<char>)
    requires
        holds_at(c, a, x + y),
    ensures
        holds_at(c, a, x),
        holds_at(c, a + x.len(), y),
{
    let whole = c.subrange(a, a + x.len() + y.len());
    assert(whole == x + y);
    assert forall|k: int| 0 <= k < x.len() implies c.subrange(a, a + x.len())[k] == x[k] by {
        assert(whole[k] == c[a + k]);
        assert((x + y)[k] == x[k]);
    }
    assert(c.subrange(a, a + x.len()) =~= x);
    assert forall|k: int| 0 <= k < y.len() implies c.subrange(a + x.len(), a + x.len() + y.len())[k]
        == y[k] by {
        assert(whole[x.len() + k] == c[a + x.len() + k]);
        assert((x + y)[x.len() + k] == y[k]);
    }
    assert(c.subrange(a + x.len(), a + x.len() + y.len()) =~= y);
}

proof fn lemma_digit_char(d: nat)
    requires
        d < 10,
    ensures
        is_digit(digit_char(d)),
        digit_char(d) as int - '0' as int == d,
{
}

proof fn lemma_holds_char(c: Seq<char>, a: int, p: Seq<char>, k: int)
    requires
        holds_at(c, a, p),
        0 <= k < p.len(),
    ensures
        c[a + k] == p[k],
{
    assert(c.subrange(a, a + p.len())[k] == c[a + k]);
}

proof fn lemma_digits_facts(n: nat)
    ensures
        digits(n).len() > 0,
        forall|k: int| 0 <= k < digits(n).len() ==> is_digit(#[trigger] digits(n)[k]),
        decimal_value(digits(n)) == n,
    decreases n,
{
    lemma_digit_char(n % 10);
    if n < 10 {
        assert(digits(n).drop_last() =~= Seq::<char>::empty());
        assert(decimal_value(Seq::<char>::empty()) == 0);
        assert(digits(n).last() == digit_char(n));
        assert(decimal_value(digits(n)) == decimal_value(digits(n).drop_last()) * 10 + (digits(
            n,
        ).last() as int - '0' as int));
    } else {
        lemma_digits_facts(n / 10);
        let d = digits(n);
        assert(d.drop_last() =~= digits(n / 10));
        assert(d.last() == digit_char(n % 10));
        assert forall|k: int| 0 <= k < d.len() implies is_digit(#[trigger] d[k]) by {
            if k < d.len() - 1 {
                assert(d[k] == digits(n / 10)[k]);
            }
        }
        assert((n / 10) * 10 + n % 10 == n) by (nonlinear_arith);
        assert(decimal_value(d) == decimal_value(d.drop_last()) * 10 + (d.last() as int - '0' as int));
    }
}

proof fn lemma_render_start(e: ExprV)
    requires
        spellable(e),
    ensures
        render_expr(e).len() > 0,
        !whitespace(render_expr(e)[0]),
        render_expr(e)[0] != '=',
        !whitespace(render_expr(e).last()),
    decreases e,
{
    match e {
        ExprV::Int(v) => {
            lemma_digits_facts(v as nat);
        },
        ExprV::Call(f, args) => {
            lemma_render_start(*f);
        },
        _ => {},
    }
}

proof fn lemma_render_args_split(args: Seq<ExprV>)
    requires
        args.len() > 0,
    ensures
        render_args(args) == render_expr(args[0]) + render_more(args.drop_first()),
    decreases args.len(),
{
    if args.len() > 1 {
        let q = args.drop_last();
        lemma_render_args_split(q);
        lemma_render_more_push(q.drop_first(), args.last());
        assert(q.drop_first().push(args.last()) =~= args.drop_first());
        assert(q[0] == args[0]);
    } else {
        assert(args.drop_first().len() == 0);
    }
}

proof fn lemma_render_more_push(q: Seq<ExprV>, x: ExprV)
    ensures
        render_more(q.push(x)) == render_more(q) + seq![',', ' '] + render_expr(x),
    decreases q.len(),
{
    if q.len() == 0 {
        assert(q.push(x).drop_first() =~= Seq::<ExprV>::empty());
        assert(q.push(x)[0] == x);
        assert(render_more(q.push(x).drop_first()) == Seq::<char>::empty());
        assert(render_more(q) == Seq::<char>::empty());
        assert(render_more(q.push(x)) =~= render_more(q) + seq![',', ' '] + render_expr(x));
    } else {
        lemma_render_more_push(q.drop_first(), x);
        assert(q.push(x).drop_first() =~= q.drop_first().push(x));
        assert(q.push(x)[0] == q[0]);
        assert(render_more(q.push(x)) =~= render_more(q) + seq![',', ' '] + render_expr(x));
    }
}

proof fn lemma_word_run(c: Seq<char>, a: int, len: int)
    requires
        0 <= a,
        0 <= len,
        a + len <= c.len(),
        forall|k: int| a <= k < a + len ==> alphabetic(#[trigger] c[k]) || numeric(c[k]),
        boundary(c, a + len),
    ensures
        word_end(c, a) == a + len,
    decreases len,
{
    if len > 0 {
        lemma_word_run(c, a + 1, len - 1);
    }
}

proof fn lemma_number_run(c: Seq<char>, a: int, len: int)
    requires
        0 <= a,
        0 <= len,
        a + len <= c.len(),
        forall|k: int| a <= k < a + len ==> numeric(#[trigger] c[k]),
        boundary(c, a + len),
    ensures
        number_end(c, a) == a + len,
    decreases len,
{
    if len > 0 {
        lemma_number_run(c, a + 1, len - 1);
    }
}

/// One token read from `a0`: it is the next token of the stream.
proof fn lemma_lex_one(c: Seq<char>, a0: int, ts: Seq<Token>, i: int)
    requires
        0 <= i <= ts.len(),
        lexes(c, a0, ts.subrange(i, ts.len() as int)),
        !(scan(c, skip_ws(c, a0)).0 is End),
    ensures
        i < ts.len(),
        denotes(ts[i], scan(c, skip_ws(c, a0)).0),
        lexes(c, scan(c, skip_ws(c, a0)).1, ts.subrange(i + 1, ts.len() as int)),
{
    let r = ts.subrange(i, ts.len() as int);
    assert(r.drop_first() =~= ts.subrange(i + 1, ts.len() as int));
}

/// A char that forms a token alone, read from `a0` where only whitespace precedes it.
proof fn lemma_lex_single(c: Seq<char>, a0: int, a: int, ts: Seq<Token>, i: int)
    requires
        0 <= i <= ts.len(),
        lexes(c, a0, ts.subrange(i, ts.len() as int)),
        skip_ws(c, a0) == a,
        0 <= a < c.len(),
        single(c[a]) is Some,
    ensures
        i < ts.len(),
        ts[i] == single(c[a])->0,
        lexes(c, a + 1, ts.subrange(i + 1, ts.len() as int)),
{
    lemma_lex_one(c, a0, ts, i);
}

#[verifier::rlimit(40)]
proof fn lemma_lex_expr(e: ExprV, c: Seq<char>, a0: int, a: int, ts: Seq<Token>, i: int)
    requires
        spellable(e),
        0 <= a0,
        skip_ws(c, a0) == a,
        holds_at(c, a, render_expr(e)),
        boundary(c, a + render_expr(e).len()),
        0 <= i <= ts.len(),
        lexes(c, a0, ts.subrange(i, ts.len() as int)),
    ensures
        canon_end(e, ts, i) is Some,
        canon_end(e, ts, i)->0 <= ts.len(),
        lexes(c, a + render_expr(e).len(), ts.subrange(canon_end(e, ts, i)->0, ts.len() as int)),
    decreases e,
{
    lemma_render_start(e);
    lemma_holds_char(c, a, render_expr(e), 0);
    match e {
        ExprV::Int(v) => {
            let d = digits(v as nat);
            lemma_digits_facts(v as nat);
            assert forall|k: int| a <= k < a + d.len() implies numeric(#[trigger] c[k]) by {
                lemma_holds_char(c, a, d, k - a);
            }
            lemma_number_run(c, a, d.len() as int);
            lemma_lex_one(c, a0, ts, i);
        },
        ExprV::Ident(n) => {
            assert forall|k: int| a <= k < a + n.len() implies alphabetic(#[trigger] c[k]) || numeric(
                c[k],
            ) by {
                lemma_holds_char(c, a, n, k - a);
            }
            lemma_word_run(c, a, n.len() as int);
            lemma_lex_one(c, a0, ts, i);
        },
        ExprV::Bool(b) => {
            let w = render_expr(e);
            assert forall|k: int| a <= k < a + w.len() implies alphabetic(#[trigger] c[k]) || numeric(
                c[k],
            ) by {
                lemma_holds_char(c, a, w, k - a);
            }
            lemma_word_run(c, a, w.len() as int);
            lemma_lex_one(c, a0, ts, i);
            assert(c.subrange(a, a + w.len()) == w);
        },
        ExprV::Prefix(op, r) => {
            lemma_lex_prefix(e, c, a0, a, ts, i);
        },
        ExprV::Infix(op, l, r) => {
            lemma_lex_infix(e, c, a0, a, ts, i);
        },
        ExprV::Call(f, args) => {
            lemma_lex_call(e, c, a0, a, ts, i);
        },
        _ => {},
    }
}

#[verifier::rlimit(40)]
proof fn lemma_lex_prefix(e: ExprV, c: Seq<char>, a0: int, a: int, ts: Seq<Token>, i: int)
    requires
        e is Prefix,
        spellable(e),
        0 <= a0,
        skip_ws(c, a0) == a,
        holds_at(c, a, render_expr(e)),
        boundary(c, a + render_expr(e).len()),
        0 <= i <= ts.len(),
        lexes(c, a0, ts.subrange(i, ts.len() as int)),
    ensures
        canon_end(e, ts, i) is Some,
        canon_end(e, ts, i)->0 <= ts.len(),
        lexes(c, a + render_expr(e).len(), ts.subrange(canon_end(e, ts, i)->0, ts.len() as int)),
    decreases e, 0nat,
{
    let op = e->Prefix_0;
    let r = *e->Prefix_1;
    let rr = render_expr(r);
    let sp = prefix_spelling(op);
    assert(render_expr(e) == seq!['('] + sp + rr + seq![')']);
    lemma_holds_split(c, a, seq!['('] + sp + rr, seq![')']);
    lemma_holds_split(c, a, seq!['('] + sp, rr);
    lemma_holds_split(c, a, seq!['('], sp);
    lemma_holds_char(c, a, seq!['('], 0);
    lemma_holds_char(c, a + 1, sp, 0);
    lemma_holds_char(c, a + 3 + rr.len() - 1, seq![')'], 0);
    lemma_render_start(r);
    lemma_holds_char(c, a + 2, rr, 0);
    lemma_lex_single(c, a0, a, ts, i);
    lemma_lex_one(c, a + 1, ts, i + 1);
    lemma_lex_expr(r, c, a + 2, a + 2, ts, i + 2);
    let k = canon_end(r, ts, i + 2)->0;
    lemma_lex_single(c, a + 2 + rr.len(), a + 2 + rr.len(), ts, k);
}

#[verifier::rlimit(40)]
proof fn lemma_lex_infix(e: ExprV, c: Seq<char>, a0: int, a: int, ts: Seq<Token>, i: int)
    requires
        e is Infix,
        spellable(e),
        0 <= a0,
        skip_ws(c, a0) == a,
        holds_at(c, a, render_expr(e)),
        boundary(c, a + render_expr(e).len()),
        0 <= i <= ts.len(),
        lexes(c, a0, ts.subrange(i, ts.len() as int)),
    ensures
        canon_end(e, ts, i) is Some,
        canon_end(e, ts, i)->0 <= ts.len(),
        lexes(c, a + render_expr(e).len(), ts.subrange(canon_end(e, ts, i)->0, ts.len() as int)),
    decreases e, 0nat,
{
    let op = e->Infix_0;
    let l = *e->Infix_1;
    let r = *e->Infix_2;
    let rl = render_expr(l);
    let rr = render_expr(r);
    let sp = infix_spelling(op);
    let x1 = seq!['('] + rl;
    let x2 = x1 + seq![' '];
    let x3 = x2 + sp;
    let x4 = x3 + seq![' '];
    let x5 = x4 + rr;
    assert(render_expr(e) == x5 + seq![')']);
    lemma_holds_split(c, a, x5, seq![')']);
    lemma_holds_split(c, a, x4, rr);
    lemma_holds_split(c, a, x3, seq![' ']);
    lemma_holds_split(c, a, x2, sp);
    lemma_holds_split(c, a, x1, seq![' ']);
    lemma_holds_split(c, a, seq!['('], rl);
    lemma_render_start(l);
    lemma_render_start(r);
    let pl = a + 1;
    let ps = pl + rl.len();
    let po = ps + 1;
    let pr = po + sp.len() + 1;
    let pe = pr + rr.len();
    lemma_holds_char(c, a, seq!['('], 0);
    lemma_holds_char(c, pl, rl, 0);
    lemma_holds_char(c, ps, seq![' '], 0);
    lemma_holds_char(c, po, sp, 0);
    if sp.len() == 2 {
        lemma_holds_char(c, po, sp, 1);
    }
    lemma_holds_char(c, po + sp.len(), seq![' '], 0);
    lemma_holds_char(c, pr, rr, 0);
    lemma_holds_char(c, pe, seq![')'], 0);
    lemma_lex_single(c, a0, a, ts, i);
    lemma_lex_expr(l, c, pl, pl, ts, i + 1);
    let jl = canon_end(l, ts, i + 1)->0;
    assert(skip_ws(c, po) == po);
    assert(skip_ws(c, ps) == skip_ws(c, po));
    lemma_lex_one(c, ps, ts, jl);
    assert(ts[jl] == infix_token(op));
    assert(skip_ws(c, pr) == pr);
    assert(skip_ws(c, po + sp.len()) == skip_ws(c, pr));
    lemma_lex_expr(r, c, po + sp.len(), pr, ts, jl + 1);
    let k = canon_end(r, ts, jl + 1)->0;
    lemma_lex_single(c, pe, pe, ts, k);
}

#[verifier::rlimit(40)]
proof fn lemma_lex_call(e: ExprV, c: Seq<char>, a0: int, a: int, ts: Seq<Token>, i: int)
    requires
        e is Call,
        spellable(e),
        0 <= a0,
        skip_ws(c, a0) == a,
        holds_at(c, a, render_expr(e)),
        boundary(c, a + render_expr(e).len()),
        0 <= i <= ts.len(),
        lexes(c, a0, ts.subrange(i, ts.len() as int)),
    ensures
        canon_end(e, ts, i) is Some,
        canon_end(e, ts, i)->0 <= ts.len(),
        lexes(c, a + render_expr(e).len(), ts.subrange(canon_end(e, ts, i)->0, ts.len() as int)),
    decreases e, 0nat,
{
    let f = *e->Call_0;
    let args = e->Call_1;
    let rf = render_expr(f);
    let ra = render_args(args);
    assert(render_expr(e) == rf + seq!['('] + ra + seq![')']);
    lemma_holds_split(c, a, rf + seq!['('] + ra, seq![')']);
    lemma_holds_split(c, a, rf + seq!['('], ra);
    lemma_holds_split(c, a, rf, seq!['(']);
    let pp = a + rf.len();
    let pa = pp + 1;
    let pe = pa + ra.len();
    lemma_holds_char(c, pp, seq!['('], 0);
    lemma_holds_char(c, pe, seq![')'], 0);
    lemma_lex_expr(f, c, a0, a, ts, i);
    let jf = canon_end(f, ts, i)->0;
    lemma_lex_single(c, pp, pp, ts, jf);
    lemma_lex_args(args, c, pa, ts, jf + 1);
    lemma_args_bounds(args, ts, jf + 1);
    let ka = canon_args(args, ts, jf + 1)->0;
    lemma_lex_single(c, pe, pe, ts, ka);
}

proof fn lemma_lex_args(args: Seq<ExprV>, c: Seq<char>, p: int, ts: Seq<Token>, j: int)
    requires
        spellable_all(args),
        holds_at(c, p, render_args(args)),
        p + render_args(args).len() < c.len(),
        c[p + render_args(args).len()] == ')',
        0 <= j <= ts.len(),
        lexes(c, p, ts.subrange(j, ts.len() as int)),
    ensures
        canon_args(args, ts, j) is Some,
        canon_args(args, ts, j)->0 <= ts.len(),
        lexes(c, p + render_args(args).len(), ts.subrange(canon_args(args, ts, j)->0, ts.len() as int)),
    decreases args,
{
    if args.len() > 0 {
        lemma_render_args_split(args);
        let r0 = render_expr(args[0]);
        let rm = render_more(args.drop_first());
        lemma_holds_split(c, p, r0, rm);
        lemma_render_start(args[0]);
        lemma_holds_char(c, p, r0, 0);
        if rm.len() > 0 {
            assert(rm[0] == ',');
            lemma_holds_char(c, p + r0.len(), rm, 0);
        }
        lemma_lex_expr(args[0], c, p, p, ts, j);
        let j1 = canon_end(args[0], ts, j)->0;
        lemma_lex_more(args.drop_first(), c, p + r0.len(), ts, j1);
    }
}

proof fn lemma_lex_more(rest: Seq<ExprV>, c: Seq<char>, p: int, ts: Seq<Token>, j: int)
    requires
        spellable_all(rest),
        holds_at(c, p, render_more(rest)),
        p + render_more(rest).len() < c.len(),
        c[p + render_more(rest).len()] == ')',
        0 <= j <= ts.len(),
        lexes(c, p, ts.subrange(j, ts.len() as int)),
    ensures
        canon_more_args(rest, ts, j) is Some,
        canon_more_args(rest, ts, j)->0 <= ts.len(),
        lexes(
            c,
            p + render_more(rest).len(),
            ts.subrange(canon_more_args(rest, ts, j)->0, ts.len() as int),
        ),
    decreases rest,
{
    if rest.len() > 0 {
        let r0 = render_expr(rest[0]);
        let rm = render_more(rest.drop_first());
        assert(render_more(rest) == seq![',', ' '] + r0 + rm);
        lemma_holds_split(c, p, seq![',', ' '] + r0, rm);
        lemma_holds_split(c, p, seq![',', ' '], r0);
        lemma_holds_char(c, p, seq![',', ' '], 0);
        lemma_holds_char(c, p, seq![',', ' '], 1);
        lemma_render_start(rest[0]);
        lemma_holds_char(c, p + 2, r0, 0);
        if rm.len() > 0 {
            assert(rm[0] == ',');
            lemma_holds_char(c, p + 2 + r0.len(), rm, 0);
        }
        lemma_lex_single(c, p, p, ts, j);
        assert(skip_ws(c, p + 2) == p + 2);
        assert(skip_ws(c, p + 1) == skip_ws(c, p + 2));
        lemma_lex_expr(rest[0], c, p + 1, p + 2, ts, j + 1);
        let j1 = canon_end(rest[0], ts, j + 1)->0;
        lemma_lex_more(rest.drop_first(), c, p + 2 + r0.len(), ts, j1);
    }
}

/// A `let` or `return` statement whose canonical text reads back as itself.
pub open spec fn spellable_closed(s: StmtV) -> bool {
    match s {
        StmtV::Let(_, n, v) => is_word(n) && spellable(v),
        StmtV::Return(v) => spellable(v),
        _ => false,
    }
}

/// Programs whose canonical text reads back as themselves: `let` and `return`
/// statements over spellable expressions, the last of which may instead be an
/// expression statement.
pub open spec fn spellable_program(p: Seq<StmtV>) -> bool {
    forall|k: int|
        0 <= k < p.len() ==> spellable_closed(#[trigger] p[k]) || (k == p.len() - 1 && p[k] is Expr
            && spellable(p[k]->Expr_0))
}

/// If the tokens from `i` spell the `let` or `return` statement `s` in canonical form,
/// the index just after them.
pub open spec fn canon_closed_end(s: StmtV, t: Seq<Token>, i: int) -> Option<int> {
    match s {
        StmtV::Let(m, n, v) => {
            let p = if m { i + 1 } else { i };
            if tok(t, i) is LET && (m ==> tok(t, i + 1) is MUT) && tok(t, p + 1) is IDENTIFIER
                && tok(t, p + 1)->IDENTIFIER_0@ == n && tok(t, p + 2) is ASSIGN {
                match canon_end(v, t, p + 3) {
                    Some(j) => if tok(t, j) is SEMICOLON { Some(j + 1) } else { None },
                    None => None,
                }
            } else {
                None
            }
        },
        StmtV::Return(v) => if tok(t, i) is RETURN {
            match canon_end(v, t, i + 1) {
                Some(j) => if tok(t, j) is SEMICOLON { Some(j + 1) } else { None },
                None => None,
            }
        } else {
            None
        },
        _ => None,
    }
}

proof fn lemma_render_stmts_front(p: Seq<StmtV>)
    requires
        p.len() > 0,
    ensures
        render_stmts(p) == render_stmt(p[0]) + render_stmts(p.drop_first()),
    decreases p.len(),
{
    if p.len() == 1 {
        assert(p.drop_first() =~= Seq::<StmtV>::empty());
        assert(p.drop_last() =~= Seq::<StmtV>::empty());
        assert(render_stmts(p) =~= render_stmt(p[0]) + render_stmts(p.drop_first()));
    } else {
        lemma_render_stmts_front(p.drop_last());
        assert(p.drop_last().drop_first() =~= p.drop_first().drop_last());
        assert(p.drop_first().last() == p.last());
        assert(p.drop_last()[0] == p[0]);
        assert(render_stmts(p) =~= render_stmt(p[0]) + render_stmts(p.drop_first()));
    }
}

proof fn lemma_lex_word(c: Seq<char>, a0: int, a: int, w: Seq<char>, ts: Seq<Token>, i: int)
    requires
        0 <= i <= ts.len(),
        lexes(c, a0, ts.subrange(i, ts.len() as int)),
        skip_ws(c, a0) == a,
        holds_at(c, a, w),
        w.len() > 0,
        alphabetic(w[0]),
        forall|k: int| 0 <= k < w.len() ==> alphabetic(#[trigger] w[k]) || numeric(w[k]),
        boundary(c, a + w.len()),
    ensures
        i < ts.len(),
        denotes(ts[i], Lexeme::Word(w)),
        lexes(c, a + w.len(), ts.subrange(i + 1, ts.len() as int)),
{
    assert forall|k: int| a <= k < a + w.len() implies alphabetic(#[trigger] c[k]) || numeric(c[k]) by {
        lemma_holds_char(c, a, w, k - a);
    }
    lemma_holds_char(c, a, w, 0);
    lemma_word_run(c, a, w.len() as int);
    lemma_lex_one(c, a0, ts, i);
}

#[verifier::rlimit(40)]
proof fn lemma_lex_let(s: StmtV, c: Seq<char>, a: int, ts: Seq<Token>, i: int)
    requires
        s is Let,
        spellable_closed(s),
        holds_at(c, a, render_stmt(s)),
        0 <= i <= ts.len(),
        lexes(c, a, ts.subrange(i, ts.len() as int)),
    ensures
        canon_closed_end(s, ts, i) is Some,
        canon_closed_end(s, ts, i)->0 <= ts.len(),
        lexes(c, a + render_stmt(s).len(), ts.subrange(canon_closed_end(s, ts, i)->0, ts.len() as int)),
{
    let m = s->Let_0;
    let n = s->Let_1;
    let v = s->Let_2;
    let kw = seq!['l', 'e', 't'];
    let mk = if m { seq!['m', 'u', 't', ' '] } else { Seq::<char>::empty() };
    let rv = render_expr(v);
    let x1 = kw + seq![' '];
    let x2 = x1 + mk;
    let x3 = x2 + n;
    let x4 = x3 + seq![' ', '=', ' '];
    let x5 = x4 + rv;
    assert(seq!['l', 'e', 't', ' '] =~= x1);
    assert(render_stmt(s) == x5 + seq![';']);
    lemma_holds_split(c, a, x5, seq![';']);
    lemma_holds_split(c, a, x4, rv);
    lemma_holds_split(c, a, x3, seq![' ', '=', ' ']);
    lemma_holds_split(c, a, x2, n);
    lemma_holds_split(c, a, x1, mk);
    lemma_holds_split(c, a, kw, seq![' ']);
    lemma_holds_char(c, a, kw, 0);
    lemma_holds_char(c, a + 3, seq![' '], 0);
    lemma_render_start(v);
    let q = a + 4 + mk.len();
    let pe = q + n.len();
    lemma_holds_char(c, q, n, 0);
    lemma_holds_char(c, pe, seq![' ', '=', ' '], 0);
    lemma_holds_char(c, pe, seq![' ', '=', ' '], 1);
    lemma_holds_char(c, pe, seq![' ', '=', ' '], 2);
    lemma_holds_char(c, pe + 3, rv, 0);
    lemma_holds_char(c, pe + 3 + rv.len(), seq![';'], 0);
    assert(skip_ws(c, a) == a);
    lemma_lex_word(c, a, a, kw, ts, i);
    assert(keyword(kw) == Some(Token::LET));
    let j = if m { i + 2 } else { i + 1 };
    if m {
        let mw = seq!['m', 'u', 't'];
        assert(mk =~= mw + seq![' ']);
        lemma_holds_split(c, a + 4, mw, seq![' ']);
        lemma_holds_char(c, a + 4, mw, 0);
        lemma_holds_char(c, a + 7, seq![' '], 0);
        assert(skip_ws(c, a + 4) == a + 4);
        assert(skip_ws(c, a + 3) == skip_ws(c, a + 4));
        lemma_lex_word(c, a + 3, a + 4, mw, ts, i + 1);
        assert(keyword(mw) == Some(Token::MUT));
    }
    assert(skip_ws(c, q) == q);
    assert(skip_ws(c, q - 1) == skip_ws(c, q));
    lemma_lex_word(c, q - 1, q, n, ts, j);
    assert(skip_ws(c, pe + 1) == pe + 1);
    assert(skip_ws(c, pe) == skip_ws(c, pe + 1));
    lemma_lex_one(c, pe, ts, j + 1);
    assert(ts[j + 1] == Token::ASSIGN);
    assert(skip_ws(c, pe + 3) == pe + 3);
    assert(skip_ws(c, pe + 2) == skip_ws(c, pe + 3));
    lemma_lex_expr(v, c, pe + 2, pe + 3, ts, j + 2);
    let k = canon_end(v, ts, j + 2)->0;
    lemma_canon_bounds(v, ts, j + 2);
    lemma_lex_single(c, pe + 3 + rv.len(), pe + 3 + rv.len(), ts, k);
}

#[verifier::rlimit(40)]
proof fn lemma_lex_return(s: StmtV, c: Seq<char>, a: int, ts: Seq<Token>, i: int)
    requires
        s is Return,
        spellable_closed(s),
        holds_at(c, a, render_stmt(s)),
        0 <= i <= ts.len(),
        lexes(c, a, ts.subrange(i, ts.len() as int)),
    ensures
        canon_closed_end(s, ts, i) is Some,
        canon_closed_end(s, ts, i)->0 <= ts.len(),
        lexes(c, a + render_stmt(s).len(), ts.subrange(canon_closed_end(s, ts, i)->0, ts.len() as int)),
{
    let v = s->Return_0;
    let kw = seq!['r', 'e', 't', 'u', 'r', 'n'];
    let rv = render_expr(v);
    let x1 = kw + seq![' '];
    let x2 = x1 + rv;
    assert(seq!['r', 'e', 't', 'u', 'r', 'n', ' '] =~= x1);
    assert(render_stmt(s) == x2 + seq![';']);
    lemma_holds_split(c, a, x2, seq![';']);
    lemma_holds_split(c, a, x1, rv);
    lemma_holds_split(c, a, kw, seq![' ']);
    lemma_holds_char(c, a, kw, 0);
    lemma_holds_char(c, a + 6, seq![' '], 0);
    lemma_render_start(v);
    lemma_holds_char(c, a + 7, rv, 0);
    lemma_holds_char(c, a + 7 + rv.len(), seq![';'], 0);
    assert(skip_ws(c, a) == a);
    lemma_lex_word(c, a, a, kw, ts, i);
    assert(keyword(kw) == Some(Token::RETURN));
    assert(skip_ws(c, a + 7) == a + 7);
    assert(skip_ws(c, a + 6) == skip_ws(c, a + 7));
    lemma_lex_expr(v, c, a + 6, a + 7, ts, i + 1);
    let k = canon_end(v, ts, i + 1)->0;
    lemma_canon_bounds(v, ts, i + 1);
    lemma_lex_single(c, a + 7 + rv.len(), a + 7 + rv.len(), ts, k);
}

proof fn lemma_parse_let(s: StmtV, t: Seq<Token>, i: int)
    requires
        s is Let,
        spellable_closed(s),
        canon_closed_end(s, t, i) is Some,
    ensures
        p_let(t, i) == (Some(s), canon_closed_end(s, t, i)->0 - 1, Seq::<ParseError>::empty()),
        0 <= i < canon_closed_end(s, t, i)->0 <= t.len(),
{
    let m = s->Let_0;
    let n = s->Let_1;
    let v = s->Let_2;
    let p = if m { i + 1 } else { i };
    lemma_canon_bounds(v, t, p + 3);
    lemma_canonical_tokens_parse_back(v, t, p + 3, Precedence::LOWEST);
    let j = canon_end(v, t, p + 3)->0;
    assert((tok(t, i + 1) is MUT) == m);
    lemma_let_shape(t, i, m, n, v, j);
}

proof fn lemma_let_shape(t: Seq<Token>, i: int, m: bool, n: Seq<char>, v: ExprV, j: int)
    requires
        tok(t, i) is LET,
        (tok(t, i + 1) is MUT) == m,
        ({
            let p = if m { i + 1 } else { i };
            &&& tok(t, p + 1) is IDENTIFIER
            &&& tok(t, p + 1)->IDENTIFIER_0@ == n
            &&& tok(t, p + 2) is ASSIGN
            &&& p_expr(t, p + 3, Precedence::LOWEST) == (Some(v), j - 1, Seq::<ParseError>::empty())
        }),
        tok(t, j) is SEMICOLON,
    ensures
        p_let(t, i) == (Some(StmtV::Let(m, n, v)), j, Seq::<ParseError>::empty()),
{
}

proof fn lemma_parse_return(s: StmtV, t: Seq<Token>, i: int)
    requires
        s is Return,
        spellable_closed(s),
        canon_closed_end(s, t, i) is Some,
    ensures
        p_return(t, i) == (Some(s), canon_closed_end(s, t, i)->0 - 1, Seq::<ParseError>::empty()),
        0 <= i < canon_closed_end(s, t, i)->0 <= t.len(),
{
    let v = s->Return_0;
    lemma_canon_bounds(v, t, i + 1);
    lemma_canonical_tokens_parse_back(v, t, i + 1, Precedence::LOWEST);
    assert(adv(t, i) == i + 1);
}

proof fn lemma_parse_closed(s: StmtV, t: Seq<Token>, i: int)
    requires
        spellable_closed(s),
        canon_closed_end(s, t, i) is Some,
    ensures
        p_statement(t, i) == (Some(s), canon_closed_end(s, t, i)->0 - 1, Seq::<ParseError>::empty()),
        0 <= i < canon_closed_end(s, t, i)->0 <= t.len(),
{
    reveal(p_statement);
    if s is Let {
        lemma_parse_let(s, t, i);
    } else {
        lemma_parse_return(s, t, i);
    }
}

/// If the tokens from `i` spell the program `p` in canonical form, the index just after them.
pub open spec fn canon_program(p: Seq<StmtV>, t: Seq<Token>, i: int) -> Option<int>
    decreases p.len(),
{
    if p.len() == 0 {
        Some(i)
    } else if spellable_closed(p[0]) {
        match canon_closed_end(p[0], t, i) {
            Some(j) => canon_program(p.drop_first(), t, j),
            None => None,
        }
    } else {
        match p[0] {
            StmtV::Expr(v) => if p.len() == 1 { canon_end(v, t, i) } else { None },
            _ => None,
        }
    }
}

proof fn lemma_spellable_rest(p: Seq<StmtV>)
    requires
        spellable_program(p),
        p.len() > 0,
    ensures
        spellable_program(p.drop_first()),
        spellable_closed(p[0]) || (p.len() == 1 && p[0] is Expr && spellable(p[0]->Expr_0)),
{
    let q = p.drop_first();
    assert forall|k: int| 0 <= k < q.len() implies spellable_closed(#[trigger] q[k]) || (k == q.len()
        - 1 && q[k] is Expr && spellable(q[k]->Expr_0)) by {
        assert(q[k] == p[k + 1]);
    }
    assert(spellable_closed(p[0]) || (0 == p.len() - 1 && p[0] is Expr && spellable(p[0]->Expr_0)));
}

#[verifier::rlimit(40)]
proof fn lemma_lex_program(p: Seq<StmtV>, c: Seq<char>, a: int, ts: Seq<Token>, i: int)
    requires
        spellable_program(p),
        holds_at(c, a, render_stmts(p)),
        a + render_stmts(p).len() == c.len(),
        0 <= i <= ts.len(),
        lexes(c, a, ts.subrange(i, ts.len() as int)),
    ensures
        canon_program(p, ts, i) is Some,
        tok(ts, canon_program(p, ts, i)->0) == Token::EOF,
    decreases p.len(),
{
    if p.len() == 0 {
        assert(skip_ws(c, a) == a);
        assert(ts.subrange(i, ts.len() as int)[0] == Token::EOF);
    } else {
        lemma_spellable_rest(p);
        lemma_render_stmts_front(p);
        let r0 = render_stmt(p[0]);
        let rest = render_stmts(p.drop_first());
        lemma_holds_split(c, a, r0, rest);
        if spellable_closed(p[0]) {
            if p[0] is Let {
                lemma_lex_let(p[0], c, a, ts, i);
            } else {
                lemma_lex_return(p[0], c, a, ts, i);
            }
            let j = canon_closed_end(p[0], ts, i)->0;
            lemma_parse_closed(p[0], ts, i);
            lemma_lex_program(p.drop_first(), c, a + r0.len(), ts, j);
        } else {
            let v = p[0]->Expr_0;
            lemma_render_start(v);
            lemma_holds_char(c, a, r0, 0);
            assert(skip_ws(c, a) == a);
            assert(p.drop_first().len() == 0);
            lemma_lex_expr(v, c, a, a, ts, i);
            let j = canon_end(v, ts, i)->0;
            assert(skip_ws(c, c.len() as int) == c.len());
            assert(ts.subrange(j, ts.len() as int)[0] == Token::EOF);
        }
    }
}

#[verifier::rlimit(40)]
proof fn lemma_parse_program(p: Seq<StmtV>, t: Seq<Token>, i: int, acc: Seq<StmtV>)
    requires
        spellable_program(p),
        0 <= i,
        canon_program(p, t, i) is Some,
        tok(t, canon_program(p, t, i)->0) == Token::EOF,
    ensures
        p_program_loop(t, i, acc) == (acc + p, canon_program(p, t, i)->0, Seq::<ParseError>::empty()),
    decreases p.len(),
{
    if p.len() == 0 {
        assert(acc + p =~= acc);
    } else {
        lemma_spellable_rest(p);
        if spellable_closed(p[0]) {
            lemma_parse_closed(p[0], t, i);
            let j = canon_closed_end(p[0], t, i)->0;
            lemma_parse_program(p.drop_first(), t, j, acc.push(p[0]));
            assert(acc.push(p[0]) + p.drop_first() =~= acc + p);
            lemma_program_step(t, i, acc, p[0], j);
        } else {
            lemma_parse_last_expression(p[0], t, i);
            let j = canon_end(p[0]->Expr_0, t, i)->0;
            assert(acc.push(p[0]) =~= acc + p);
            lemma_program_step(t, i, acc, p[0], j);
        }
    }
}

proof fn lemma_program_step(t: Seq<Token>, i: int, acc: Seq<StmtV>, s: StmtV, j: int)
    requires
        !(tok(t, i) is EOF),
        0 <= i < j <= t.len(),
        p_statement(t, i) == (Some(s), j - 1, Seq::<ParseError>::empty()),
    ensures
        p_program_loop(t, i, acc) == (
            p_program_loop(t, j, acc.push(s)).0,
            p_program_loop(t, j, acc.push(s)).1,
            p_program_loop(t, j, acc.push(s)).2,
        ),
{
    let none = Seq::<ParseError>::empty();
    assert(adv(t, j - 1) == j);
    assert(none + p_program_loop(t, j, acc.push(s)).2 =~= p_program_loop(t, j, acc.push(s)).2);
}

proof fn lemma_parse_last_expression(s: StmtV, t: Seq<Token>, i: int)
    requires
        s is Expr,
        spellable(s->Expr_0),
        canon_end(s->Expr_0, t, i) is Some,
        tok(t, canon_end(s->Expr_0, t, i)->0) == Token::EOF,
    ensures
        p_statement(t, i) == (Some(s), canon_end(s->Expr_0, t, i)->0 - 1, Seq::<ParseError>::empty()),
        !(tok(t, i) is EOF),
        0 <= i < canon_end(s->Expr_0, t, i)->0 <= t.len(),
{
    let v = s->Expr_0;
    lemma_canon_bounds(v, t, i);
    lemma_canonical_tokens_parse_back(v, t, i, Precedence::LOWEST);
    reveal(p_statement);
    assert(StmtV::Expr(v) == s);
}

#[verifier::rlimit(40)]
proof fn lemma_program_text_untrimmed(p: Seq<StmtV>)
    requires
        spellable_program(p),
    ensures
        trimmed(render_stmts(p)) == render_stmts(p),
{
    let s = render_stmts(p);
    if p.len() == 0 {
        assert(s =~= Seq::<char>::empty());
        assert(trimmed(s) =~= s);
    } else {
        lemma_spellable_rest(p);
        lemma_render_stmts_front(p);
        let first = p[0];
        let last = p.last();
        assert(spellable_closed(last) || (last is Expr && spellable(last->Expr_0))) by {
            assert(p[p.len() - 1] == last);
        }
        if first is Expr {
            lemma_render_start(first->Expr_0);
        }
        if last is Expr {
            lemma_render_start(last->Expr_0);
        }
        assert(render_stmt(first).len() > 0 && !whitespace(render_stmt(first)[0]));
        assert(render_stmt(last).len() > 0 && !whitespace(render_stmt(last).last()));
        assert(s[0] == render_stmt(first)[0]);
        assert(s == render_stmts(p.drop_last()) + render_stmt(last));
        assert(s.last() == render_stmt(last).last());
        assert(skip_ws(s, 0) == 0);
        assert(trim_back(s, s.len() as int) == s.len());
        assert(s.subrange(0, s.len() as int) =~= s);
    }
}

/// Canonical text is a fixed point of parsing then rendering. Take a program of `let`
/// and `return` statements, the last of which may instead be an expression statement,
/// whose expressions canonical text can spell (no `if` or `fn` expression, no negative
/// literal, every name one that lexes as an identifier). Its canonical text, lexed and
/// parsed, gives back that very program with no diagnostics, so rendering the result
/// gives the same text again.
pub proof fn lemma_canonical_program_is_fixed_point(p: Seq<StmtV>, toks: Seq<Token>)
    requires
        spellable_program(p),
        lexes(trimmed(render_stmts(p)), 0, toks),
    ensures
        parse_tokens(toks) == (p, Seq::<ParseError>::empty()),
        render_stmts(parse_tokens(toks).0) == render_stmts(p),
{
    let s = render_stmts(p);
    lemma_program_text_untrimmed(p);
    assert(toks.subrange(0, toks.len() as int) =~= toks);
    assert(s.subrange(0, s.len() as int) =~= s);
    lemma_lex_program(p, s, 0, toks, 0);
    lemma_parse_program(p, toks, 0, Seq::<StmtV>::empty());
    assert(Seq::<StmtV>::empty() + p =~= p);
}

} // verus!
