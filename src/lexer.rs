use vstd::prelude::*;
use crate::text::{alphabetic, numeric, whitespace, is_alphabetic, is_numeric, is_whitespace, chars_of, string_of};

verus! {

/// A lexical category; identifier and integer tokens keep their source text.
#[allow(non_camel_case_types)]
#[derive(Debug, Clone, PartialEq)]
pub enum Token {
    ILLEGAL(char),
    EOF,
    IDENTIFIER(String),
    INTEGER(String),
    ASSIGN,
    EQUAL,
    NOT_EQUAL,
    GREATER_THAN,
    GREATER_THAN_EQUAL,
    LESS_THAN,
    LESS_THAN_EQUAL,
    BANG,
    TRUE,
    FALSE,
    RANGE,
    PLUS,
    MINUS,
    MULTIPLY,
    DIVIDE,
    COMMA,
    SEMICOLON,
    LPAREN,
    RPAREN,
    LBRACE,
    RBRACE,
    LBRACKET,
    RBRACKET,
    FUNCTION,
    RETURN,
    MUT,
    LET,
    IF,
    ELSE,
    RUN,
    SPAWN,
}

impl Token {
    /// A copy of the token, equal to it.
    pub fn duplicate(&self) -> (r: Token)
        ensures
            r == *self,
    {
        match self {
            Token::IDENTIFIER(s) => Token::IDENTIFIER(s.clone()),
            Token::INTEGER(s) => Token::INTEGER(s.clone()),
            Token::ILLEGAL(c) => Token::ILLEGAL(*c),
            Token::EOF => Token::EOF,
            Token::ASSIGN => Token::ASSIGN,
            Token::EQUAL => Token::EQUAL,
            Token::NOT_EQUAL => Token::NOT_EQUAL,
            Token::GREATER_THAN => Token::GREATER_THAN,
            Token::GREATER_THAN_EQUAL => Token::GREATER_THAN_EQUAL,
            Token::LESS_THAN => Token::LESS_THAN,
            Token::LESS_THAN_EQUAL => Token::LESS_THAN_EQUAL,
            Token::BANG => Token::BANG,
            Token::TRUE => Token::TRUE,
            Token::FALSE => Token::FALSE,
            Token::RANGE => Token::RANGE,
            Token::PLUS => Token::PLUS,
            Token::MINUS => Token::MINUS,
            Token::MULTIPLY => Token::MULTIPLY,
            Token::DIVIDE => Token::DIVIDE,
            Token::COMMA => Token::COMMA,
            Token::SEMICOLON => Token::SEMICOLON,
            Token::LPAREN => Token::LPAREN,
            Token::RPAREN => Token::RPAREN,
            Token::LBRACE => Token::LBRACE,
            Token::RBRACE => Token::RBRACE,
            Token::LBRACKET => Token::LBRACKET,
            Token::RBRACKET => Token::RBRACKET,
            Token::FUNCTION => Token::FUNCTION,
            Token::RETURN => Token::RETURN,
            Token::MUT => Token::MUT,
            Token::LET => Token::LET,
            Token::IF => Token::IF,
            Token::ELSE => Token::ELSE,
            Token::RUN => Token::RUN,
            Token::SPAWN => Token::SPAWN,
        }
    }
}

/// What one scan step finds at a position, before keywords are told apart.
pub enum Lexeme {
    Fixed(Token),
    Word(Seq<char>),
    Number(Seq<char>),
    Stray(char),
    End,
}

/// First position at or after `pos` that does not hold whitespace.
pub open spec fn skip_ws(chars: Seq<char>, pos: int) -> int
    decreases chars.len() - pos,
{
    if 0 <= pos < chars.len() && whitespace(chars[pos]) {
        skip_ws(chars, pos + 1)
    } else {
        pos
    }
}

/// End of the maximal run of alphanumeric chars that starts at `pos`.
pub open spec fn word_end(chars: Seq<char>, pos: int) -> int
    decreases chars.len() - pos,
{
    if 0 <= pos < chars.len() && (alphabetic(chars[pos]) || numeric(chars[pos])) {
        word_end(chars, pos + 1)
    } else {
        pos
    }
}

/// End of the maximal run of numeric chars that starts at `pos`.
pub open spec fn number_end(chars: Seq<char>, pos: int) -> int
    decreases chars.len() - pos,
{
    if 0 <= pos < chars.len() && numeric(chars[pos]) {
        number_end(chars, pos + 1)
    } else {
        pos
    }
}

/// The token of a char that forms a token alone, whatever follows it.
pub open spec fn single(c: char) -> Option<Token> {
    if c == '+' {
        Some(Token::PLUS)
    } else if c == '-' {
        Some(Token::MINUS)
    } else if c == '*' {
        Some(Token::MULTIPLY)
    } else if c == '/' {
        Some(Token::DIVIDE)
    } else if c == ';' {
        Some(Token::SEMICOLON)
    } else if c == ',' {
        Some(Token::COMMA)
    } else if c == '(' {
        Some(Token::LPAREN)
    } else if c == ')' {
        Some(Token::RPAREN)
    } else if c == '{' {
        Some(Token::LBRACE)
    } else if c == '}' {
        Some(Token::RBRACE)
    } else if c == '[' {
        Some(Token::LBRACKET)
    } else if c == ']' {
        Some(Token::RBRACKET)
    } else {
        None
    }
}

/// The keyword token spelled by a word, if it is one.
pub open spec fn keyword(w: Seq<char>) -> Option<Token> {
    if w =~= seq!['f', 'n'] {
        Some(Token::FUNCTION)
    } else if w =~= seq!['l', 'e', 't'] {
        Some(Token::LET)
    } else if w =~= seq!['m', 'u', 't'] {
        Some(Token::MUT)
    } else if w =~= seq!['r', 'e', 't', 'u', 'r', 'n'] {
        Some(Token::RETURN)
    } else if w =~= seq!['r', 'u', 'n'] {
        Some(Token::RUN)
    } else if w =~= seq!['s', 'p', 'a', 'w', 'n'] {
        Some(Token::SPAWN)
    } else if w =~= seq!['t', 'r', 'u', 'e'] {
        Some(Token::TRUE)
    } else if w =~= seq!['f', 'a', 'l', 's', 'e'] {
        Some(Token::FALSE)
    } else if w =~= seq!['i', 'f'] {
        Some(Token::IF)
    } else if w =~= seq!['e', 'l', 's', 'e'] {
        Some(Token::ELSE)
    } else {
        None
    }
}

/// The lexeme that starts at `p` (no whitespace skipped) and the position just after it.
pub open spec fn scan(chars: Seq<char>, p: int) -> (Lexeme, int) {
    if !(0 <= p < chars.len()) {
        (Lexeme::End, p)
    } else {
        let c = chars[p];
        let eq_next = p + 1 < chars.len() && chars[p + 1] == '=';
        if c == '!' {
            if eq_next { (Lexeme::Fixed(Token::NOT_EQUAL), p + 2) } else { (Lexeme::Fixed(Token::BANG), p + 1) }
        } else if c == '=' {
            if eq_next { (Lexeme::Fixed(Token::EQUAL), p + 2) } else { (Lexeme::Fixed(Token::ASSIGN), p + 1) }
        } else if c == '>' {
            if eq_next {
                (Lexeme::Fixed(Token::GREATER_THAN_EQUAL), p + 2)
            } else {
                (Lexeme::Fixed(Token::GREATER_THAN), p + 1)
            }
        } else if c == '<' {
            if eq_next {
                (Lexeme::Fixed(Token::LESS_THAN_EQUAL), p + 2)
            } else {
                (Lexeme::Fixed(Token::LESS_THAN), p + 1)
            }
        } else if c == '.' && p + 1 < chars.len() && chars[p + 1] == '.' {
            (Lexeme::Fixed(Token::RANGE), p + 2)
        } else if single(c) is Some {
            (Lexeme::Fixed(single(c)->0), p + 1)
        } else if alphabetic(c) {
            (Lexeme::Word(chars.subrange(p, word_end(chars, p))), word_end(chars, p))
        } else if numeric(c) {
            (Lexeme::Number(chars.subrange(p, number_end(chars, p))), number_end(chars, p))
        } else {
            (Lexeme::Stray(c), p + 1)
        }
    }
}

/// Whether token `t` is what the lexeme `l` yields.
pub open spec fn denotes(t: Token, l: Lexeme) -> bool {
    match l {
        Lexeme::Fixed(k) => t == k,
        Lexeme::Word(w) => match keyword(w) {
            Some(k) => t == k,
            None => t is IDENTIFIER && t->IDENTIFIER_0@ == w,
        },
        Lexeme::Number(n) => t is INTEGER && t->INTEGER_0@ == n,
        Lexeme::Stray(c) => t == Token::ILLEGAL(c),
        Lexeme::End => t == Token::EOF,
    }
}

/// One call of `next_token` from cursor `pos` yields `t` and leaves the cursor at `end`.
pub open spec fn lex_step(chars: Seq<char>, pos: int, t: Token, end: int) -> bool {
    let (l, e) = scan(chars, skip_ws(chars, pos));
    denotes(t, l) && end == e
}

/// `toks` is the whole token stream from cursor `pos`: every token up to and including
/// the first `EOF`.
pub open spec fn lexes(chars: Seq<char>, pos: int, toks: Seq<Token>) -> bool
    decreases toks.len(),
{
    toks.len() > 0 && {
        let (l, e) = scan(chars, skip_ws(chars, pos));
        &&& denotes(toks[0], l)
        &&& if l is End {
            toks.len() == 1
        } else {
            lexes(chars, e, toks.drop_first())
        }
    }
}

/// Number of whitespace chars that open `s`.
pub open spec fn trim_front(s: Seq<char>) -> int {
    skip_ws(s, 0)
}

/// End of `s.subrange(0, e)` once trailing whitespace is dropped.
pub open spec fn trim_back(s: Seq<char>, e: int) -> int
    decreases e,
{
    if 0 < e <= s.len() && whitespace(s[e - 1]) {
        trim_back(s, e - 1)
    } else {
        e
    }
}

/// `s` without leading and trailing whitespace.
pub open spec fn trimmed(s: Seq<char>) -> Seq<char> {
    let a = trim_front(s);
    let b = trim_back(s, s.len() as int);
    if a < b {
        s.subrange(a, b)
    } else {
        seq![]
    }
}

/// A forward-only scanner over the chars of one source text.
pub struct Lexer {
    chars: Vec<char>,
    position: usize,
}

/// The token that a char forms alone, whatever follows it.
fn single_token(c: char) -> (r: Option<Token>)
    ensures
        r == single(c),
{
    if c == '+' {
        Some(Token::PLUS)
    } else if c == '-' {
        Some(Token::MINUS)
    } else if c == '*' {
        Some(Token::MULTIPLY)
    } else if c == '/' {
        Some(Token::DIVIDE)
    } else if c == ';' {
        Some(Token::SEMICOLON)
    } else if c == ',' {
        Some(Token::COMMA)
    } else if c == '(' {
        Some(Token::LPAREN)
    } else if c == ')' {
        Some(Token::RPAREN)
    } else if c == '{' {
        Some(Token::LBRACE)
    } else if c == '}' {
        Some(Token::RBRACE)
    } else if c == '[' {
        Some(Token::LBRACKET)
    } else if c == ']' {
        Some(Token::RBRACKET)
    } else {
        None
    }
}

fn spells2(w: &Vec<char>, a: char, b: char) -> (r: bool)
    ensures
        r == (w@ =~= seq![a, b]),
{
    w.len() == 2 && w[0] == a && w[1] == b
}

fn spells3(w: &Vec<char>, a: char, b: char, c: char) -> (r: bool)
    ensures
        r == (w@ =~= seq![a, b, c]),
{
    w.len() == 3 && w[0] == a && w[1] == b && w[2] == c
}

fn spells4(w: &Vec<char>, a: char, b: char, c: char, d: char) -> (r: bool)
    ensures
        r == (w@ =~= seq![a, b, c, d]),
{
    w.len() == 4 && w[0] == a && w[1] == b && w[2] == c && w[3] == d
}

fn spells5(w: &Vec<char>, a: char, b: char, c: char, d: char, e: char) -> (r: bool)
    ensures
        r == (w@ =~= seq![a, b, c, d, e]),
{
    w.len() == 5 && w[0] == a && w[1] == b && w[2] == c && w[3] == d && w[4] == e
}

fn spells6(w: &Vec<char>, a: char, b: char, c: char, d: char, e: char, f: char) -> (r: bool)
    ensures
        r == (w@ =~= seq![a, b, c, d, e, f]),
{
    w.len() == 6 && w[0] == a && w[1] == b && w[2] == c && w[3] == d && w[4] == e && w[5] == f
}

/// The keyword token a word spells, or an identifier token holding the word.
fn lookup_ident(w: Vec<char>) -> (r: Token)
    ensures
        denotes(r, Lexeme::Word(w@)),
{
    if spells2(&w, 'f', 'n') {
        Token::FUNCTION
    } else if spells3(&w, 'l', 'e', 't') {
        Token::LET
    } else if spells3(&w, 'm', 'u', 't') {
        Token::MUT
    } else if spells6(&w, 'r', 'e', 't', 'u', 'r', 'n') {
        Token::RETURN
    } else if spells3(&w, 'r', 'u', 'n') {
        Token::RUN
    } else if spells5(&w, 's', 'p', 'a', 'w', 'n') {
        Token::SPAWN
    } else if spells4(&w, 't', 'r', 'u', 'e') {
        Token::TRUE
    } else if spells5(&w, 'f', 'a', 'l', 's', 'e') {
        Token::FALSE
    } else if spells2(&w, 'i', 'f') {
        Token::IF
    } else if spells4(&w, 'e', 'l', 's', 'e') {
        Token::ELSE
    } else {
        Token::IDENTIFIER(string_of(&w))
    }
}

impl Lexer {
    /// The chars being scanned.
    pub closed spec fn text(&self) -> Seq<char> {
        self.chars@
    }

    /// Index of the next char to scan.
    pub closed spec fn cursor(&self) -> int {
        self.position as int
    }

    pub open spec fn wf(&self) -> bool {
        0 <= self.cursor() <= self.text().len()
    }

    /// A lexer over `input` with leading and trailing whitespace removed.
    pub fn new(input: String) -> (r: Lexer)
        ensures
            r.wf(),
            r.text() == trimmed(input@),
            r.cursor() == 0,
    {
        let all = chars_of(input.as_str());
        let n = all.len();
        let mut a: usize = 0;
        while a < n && is_whitespace(all[a])
            invariant
                n == all@.len(),
                a <= n,
                skip_ws(all@, 0) == skip_ws(all@, a as int),
            decreases n - a,
        {
            a = a + 1;
        }
        let mut b: usize = n;
        while b > a && is_whitespace(all[b - 1])
            invariant
                n == all@.len(),
                a <= b <= n,
                trim_back(all@, n as int) == trim_back(all@, b as int),
            decreases b,
        {
            b = b - 1;
        }
        proof {
            lemma_trim_back_le(all@, b as int);
        }
        let mut chars: Vec<char> = Vec::new();
        let mut i: usize = a;
        while i < b
            invariant
                a <= i <= b <= n,
                n == all@.len(),
                chars@ == all@.subrange(a as int, i as int),
            decreases b - i,
        {
            chars.push(all[i]);
            i = i + 1;
            assert(all@.subrange(a as int, i as int) =~= all@.subrange(a as int, i - 1).push(all@[i - 1]));
        }
        proof {
            if a >= b {
                assert(chars@ =~= seq![]);
            }
        }
        Lexer { chars, position: 0 }
    }

    /// Moves the cursor one char forward.
    fn read_char(&mut self)
        requires
            old(self).cursor() < old(self).text().len(),
        ensures
            final(self).text() == old(self).text(),
            final(self).cursor() == old(self).cursor() + 1,
    {
        if self.position < self.chars.len() {
            self.position = self.position + 1;
        }
    }

    /// Moves the cursor past any whitespace.
    fn skip_whitespace(&mut self)
        requires
            old(self).wf(),
        ensures
            final(self).wf(),
            final(self).text() == old(self).text(),
            final(self).cursor() == skip_ws(old(self).text(), old(self).cursor()),
    {
        while self.position < self.chars.len() && is_whitespace(self.chars[self.position])
            invariant
                self.wf(),
                self.text() == old(self).text(),
                skip_ws(old(self).text(), old(self).cursor()) == skip_ws(self.text(), self.cursor()),
            decreases self.text().len() - self.cursor(),
        {
            self.read_char();
        }
    }

    /// Reads the maximal alphanumeric run at the cursor.
    fn read_identifier(&mut self) -> (r: Vec<char>)
        requires
            old(self).wf(),
        ensures
            final(self).wf(),
            final(self).text() == old(self).text(),
            final(self).cursor() == word_end(old(self).text(), old(self).cursor()),
            r@ == old(self).text().subrange(old(self).cursor(), final(self).cursor()),
    {
        let start = self.position;
        let mut word: Vec<char> = Vec::new();
        while self.position < self.chars.len() && (is_alphabetic(self.chars[self.position])
            || is_numeric(self.chars[self.position]))
            invariant
                self.wf(),
                self.text() == old(self).text(),
                start <= self.cursor(),
                start == old(self).cursor(),
                word_end(self.text(), start as int) == word_end(self.text(), self.cursor()),
                word@ == self.text().subrange(start as int, self.cursor()),
            decreases self.text().len() - self.cursor(),
        {
            word.push(self.chars[self.position]);
            self.read_char();
            assert(self.text().subrange(start as int, self.cursor()) =~= self.text().subrange(
                start as int,
                self.cursor() - 1,
            ).push(self.text()[self.cursor() - 1]));
        }
        word
    }

    /// Reads the maximal numeric run at the cursor.
    fn read_number(&mut self) -> (r: Vec<char>)
        requires
            old(self).wf(),
        ensures
            final(self).wf(),
            final(self).text() == old(self).text(),
            final(self).cursor() == number_end(old(self).text(), old(self).cursor()),
            r@ == old(self).text().subrange(old(self).cursor(), final(self).cursor()),
    {
        let start = self.position;
        let mut digits: Vec<char> = Vec::new();
        while self.position < self.chars.len() && is_numeric(self.chars[self.position])
            invariant
                self.wf(),
                self.text() == old(self).text(),
                start <= self.cursor(),
                start == old(self).cursor(),
                number_end(self.text(), start as int) == number_end(self.text(), self.cursor()),
                digits@ == self.text().subrange(start as int, self.cursor()),
            decreases self.text().len() - self.cursor(),
        {
            digits.push(self.chars[self.position]);
            self.read_char();
            assert(self.text().subrange(start as int, self.cursor()) =~= self.text().subrange(
                start as int,
                self.cursor() - 1,
            ).push(self.text()[self.cursor() - 1]));
        }
        digits
    }

    /// Skips whitespace, then reads one token and moves the cursor past it.
    /// At the end of the text the token is `EOF` and the cursor stays.
    pub fn next_token(&mut self) -> (r: Token)
        requires
            old(self).wf(),
        ensures
            final(self).wf(),
            final(self).text() == old(self).text(),
            lex_step(old(self).text(), old(self).cursor(), r, final(self).cursor()),
            r != Token::EOF ==> final(self).cursor() > old(self).cursor(),
    {
        proof {
            lemma_runs_advance(self.text(), self.cursor());
        }
        self.skip_whitespace();
        let p = self.position;
        if p >= self.chars.len() {
            return Token::EOF;
        }
        let c = self.chars[p];
        proof {
            lemma_runs_advance(self.text(), p as int + 1);
        }
        let eq_next = p + 1 < self.chars.len() && self.chars[p + 1] == '=';
        let dot_next = p + 1 < self.chars.len() && self.chars[p + 1] == '.';
        if c == '!' || c == '=' || c == '>' || c == '<' {
            if eq_next {
                self.position = p + 2;
                if c == '!' {
                    Token::NOT_EQUAL
                } else if c == '=' {
                    Token::EQUAL
                } else if c == '>' {
                    Token::GREATER_THAN_EQUAL
                } else {
                    Token::LESS_THAN_EQUAL
                }
            } else {
                self.position = p + 1;
                if c == '!' {
                    Token::BANG
                } else if c == '=' {
                    Token::ASSIGN
                } else if c == '>' {
                    Token::GREATER_THAN
                } else {
                    Token::LESS_THAN
                }
            }
        } else if c == '.' && dot_next {
            self.position = p + 2;
            Token::RANGE
        } else {
            match single_token(c) {
                Some(t) => {
                    self.position = p + 1;
                    t
                },
                None => {
                    if is_alphabetic(c) {
                        let w = self.read_identifier();
                        lookup_ident(w)
                    } else if is_numeric(c) {
                        let d = self.read_number();
                        Token::INTEGER(string_of(&d))
                    } else {
                        self.position = p + 1;
                        Token::ILLEGAL(c)
                    }
                },
            }
        }
    }
}

proof fn lemma_trim_back_le(s: Seq<char>, e: int)
    ensures
        trim_back(s, e) <= e,
    decreases e,
{
    if 0 < e <= s.len() && whitespace(s[e - 1]) {
        lemma_trim_back_le(s, e - 1);
    }
}

proof fn lemma_runs_advance(chars: Seq<char>, p: int)
    ensures
        word_end(chars, p) >= p,
        number_end(chars, p) >= p,
        skip_ws(chars, p) >= p,
    decreases chars.len() - p,
{
    if 0 <= p < chars.len() {
        lemma_runs_advance(chars, p + 1);
    }
}

} // verus!
