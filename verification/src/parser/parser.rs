//! A parser for a Prolog-like syntax: facts `f(a, b).` and rules `h(X) :- b1(X), b2(X).`
use vstd::prelude::*;
use crate::types::{Term, TermModel, Fact, Rule, RuleModel, KnowledgeBase, KnowledgeBaseModel, with_fact, with_rule, terms_model};
use crate::text::{
    push_char, push_str, chars_of, alphanumeric, ascii_lower, ascii_upper, ascii_digit,
    char_is_alphanumeric, is_ascii_lower, is_ascii_upper, debug_text, char_debug_text,
    debug_str, debug_char,
};

verus! {

/// A token of the Prolog-like syntax.
#[derive(Debug)]
pub enum Token {
    Atom(String),
    Variable(String),
    LParen,
    RParen,
    Comma,
    Dot,
    ColonDash,
}

/// The mathematical value of a token.
pub enum TokenModel {
    Atom(Seq<char>),
    Variable(Seq<char>),
    LParen,
    RParen,
    Comma,
    Dot,
    ColonDash,
}

impl View for Token {
    type V = TokenModel;

    open spec fn view(&self) -> TokenModel {
        match self {
            Token::Atom(s) => TokenModel::Atom(s@),
            Token::Variable(s) => TokenModel::Variable(s@),
            Token::LParen => TokenModel::LParen,
            Token::RParen => TokenModel::RParen,
            Token::Comma => TokenModel::Comma,
            Token::Dot => TokenModel::Dot,
            Token::ColonDash => TokenModel::ColonDash,
        }
    }
}

/// Why the input could not be read.
#[derive(Debug)]
pub enum ParseError {
    UnexpectedChar(char),
    UnterminatedQuotedAtom,
    UnexpectedTokenAfterColon,
    UnexpectedToken { expected: String, got: String },
    UnexpectedEof,
}

/// The mathematical value of a parse error.
pub enum ParseErrorModel {
    UnexpectedChar(char),
    UnterminatedQuotedAtom,
    UnexpectedTokenAfterColon,
    UnexpectedToken(Seq<char>, Seq<char>),
    UnexpectedEof,
}

impl View for ParseError {
    type V = ParseErrorModel;

    open spec fn view(&self) -> ParseErrorModel {
        match self {
            ParseError::UnexpectedChar(c) => ParseErrorModel::UnexpectedChar(*c),
            ParseError::UnterminatedQuotedAtom => ParseErrorModel::UnterminatedQuotedAtom,
            ParseError::UnexpectedTokenAfterColon => ParseErrorModel::UnexpectedTokenAfterColon,
            ParseError::UnexpectedToken { expected, got } => ParseErrorModel::UnexpectedToken(expected@, got@),
            ParseError::UnexpectedEof => ParseErrorModel::UnexpectedEof,
        }
    }
}

/// The message of a parse error.
pub open spec fn error_message(e: ParseErrorModel) -> Seq<char> {
    match e {
        ParseErrorModel::UnexpectedChar(c) => "Unexpected character: "@ + char_debug_text(c),
        ParseErrorModel::UnterminatedQuotedAtom => "Unterminated quoted atom"@,
        ParseErrorModel::UnexpectedTokenAfterColon => "Unexpected character after ':'"@,
        ParseErrorModel::UnexpectedToken(expected, got) => "Expected "@ + expected + ", got "@ + got,
        ParseErrorModel::UnexpectedEof => "Unexpected end of input"@,
    }
}

impl ParseError {
    /// The message of the error, as `error_message` gives it.
    pub fn to_string(&self) -> (r: String)
        ensures
            r@ == error_message(self@),
    {
        let mut out = String::new();
        match self {
            ParseError::UnexpectedChar(c) => {
                push_str(&mut out, "Unexpected character: ");
                let d = debug_char(*c);
                push_str(&mut out, d.as_str());
            },
            ParseError::UnterminatedQuotedAtom => push_str(&mut out, "Unterminated quoted atom"),
            ParseError::UnexpectedTokenAfterColon => push_str(&mut out, "Unexpected character after ':'"),
            ParseError::UnexpectedToken { expected, got } => {
                push_str(&mut out, "Expected ");
                push_str(&mut out, expected.as_str());
                push_str(&mut out, ", got ");
                push_str(&mut out, got.as_str());
            },
            ParseError::UnexpectedEof => push_str(&mut out, "Unexpected end of input"),
        }
        out
    }
}

/// The text that `Debug` gives of a token.
pub open spec fn token_debug(t: TokenModel) -> Seq<char> {
    match t {
        TokenModel::Atom(n) => "Atom("@ + debug_text(n) + ")"@,
        TokenModel::Variable(n) => "Variable("@ + debug_text(n) + ")"@,
        TokenModel::LParen => "LParen"@,
        TokenModel::RParen => "RParen"@,
        TokenModel::Comma => "Comma"@,
        TokenModel::Dot => "Dot"@,
        TokenModel::ColonDash => "ColonDash"@,
    }
}

impl Token {
    /// The text that `Debug` gives of the token.
    pub fn debug_string(&self) -> (r: String)
        ensures
            r@ == token_debug(self@),
    {
        let mut out = String::new();
        match self {
            Token::Atom(n) => {
                push_str(&mut out, "Atom(");
                let d = debug_str(n.as_str());
                push_str(&mut out, d.as_str());
                push_str(&mut out, ")");
            },
            Token::Variable(n) => {
                push_str(&mut out, "Variable(");
                let d = debug_str(n.as_str());
                push_str(&mut out, d.as_str());
                push_str(&mut out, ")");
            },
            Token::LParen => push_str(&mut out, "LParen"),
            Token::RParen => push_str(&mut out, "RParen"),
            Token::Comma => push_str(&mut out, "Comma"),
            Token::Dot => push_str(&mut out, "Dot"),
            Token::ColonDash => push_str(&mut out, "ColonDash"),
        }
        out
    }

    /// A copy of the token.
    pub fn duplicate(&self) -> (r: Token)
        ensures
            r@ == self@,
    {
        match self {
            Token::Atom(n) => Token::Atom(n.clone()),
            Token::Variable(n) => Token::Variable(n.clone()),
            Token::LParen => Token::LParen,
            Token::RParen => Token::RParen,
            Token::Comma => Token::Comma,
            Token::Dot => Token::Dot,
            Token::ColonDash => Token::ColonDash,
        }
    }
}

// ---------------------------------------------------------------------------------------
// The lexer
// ---------------------------------------------------------------------------------------

/// A blank between tokens.
pub open spec fn is_blank(c: char) -> bool {
    c == ' ' || c == '\t' || c == '\n' || c == '\r'
}

/// A character that continues a name: alphanumeric or `_`. Among ASCII characters these are
/// the letters, the digits and `_`.
pub open spec fn ident_char(c: char) -> bool {
    if (c as u32) < 128 {
        ascii_lower(c) || ascii_upper(c) || ascii_digit(c) || c == '_'
    } else {
        alphanumeric(c)
    }
}

/// The number of name characters at the start of `s`.
pub open spec fn ident_len(s: Seq<char>) -> nat
    decreases s.len(),
{
    if s.len() > 0 && ident_char(s[0]) {
        1 + ident_len(s.drop_first())
    } else {
        0
    }
}

/// The number of characters up to and including the first newline of `s` (all of `s` when
/// there is none).
pub open spec fn line_len(s: Seq<char>) -> nat
    decreases s.len(),
{
    if s.len() == 0 {
        0
    } else if s[0] == '\n' {
        1
    } else {
        1 + line_len(s.drop_first())
    }
}

/// The number of characters before the first `'` of `s` (the length of `s` when there is none).
pub open spec fn quote_len(s: Seq<char>) -> nat
    decreases s.len(),
{
    if s.len() == 0 {
        0
    } else if s[0] == '\'' {
        0
    } else {
        1 + quote_len(s.drop_first())
    }
}

pub proof fn lemma_ident_len_bound(s: Seq<char>)
    ensures
        ident_len(s) <= s.len(),
    decreases s.len(),
{
    if s.len() > 0 && ident_char(s[0]) {
        lemma_ident_len_bound(s.drop_first());
    }
}

pub proof fn lemma_line_len_bound(s: Seq<char>)
    ensures
        line_len(s) <= s.len(),
    decreases s.len(),
{
    if s.len() > 0 && s[0] != '\n' {
        lemma_line_len_bound(s.drop_first());
    }
}

pub proof fn lemma_quote_len_bound(s: Seq<char>)
    ensures
        quote_len(s) <= s.len(),
    decreases s.len(),
{
    if s.len() > 0 && s[0] != '\'' {
        lemma_quote_len_bound(s.drop_first());
    }
}

/// `ts` in front of the tokens of a successful result.
pub open spec fn prepend(ts: Seq<TokenModel>, r: Result<Seq<TokenModel>, ParseErrorModel>) -> Result<Seq<TokenModel>, ParseErrorModel> {
    match r {
        Ok(rest) => Ok(ts + rest),
        Err(e) => Err(e),
    }
}

/// The tokens of `s`, or the first lexical error. Blanks separate tokens; `%` starts a comment
/// that runs to the end of the line; `(`, `)`, `,`, `.` and `:-` are tokens; `'..'` is an
/// atom; a name that starts with a lowercase ASCII letter is an atom, one that starts with an
/// uppercase ASCII letter or `_` is a variable.
pub open spec fn lex(s: Seq<char>) -> Result<Seq<TokenModel>, ParseErrorModel>
    decreases s.len(),
{
    if s.len() == 0 {
        Ok(Seq::empty())
    } else {
        let c = s[0];
        if is_blank(c) {
            lex(s.drop_first())
        } else if c == '%' {
            proof {
                lemma_line_len_bound(s.drop_first());
            }
            lex(s.skip(1 + line_len(s.drop_first()) as int))
        } else if c == '(' {
            prepend(seq![TokenModel::LParen], lex(s.drop_first()))
        } else if c == ')' {
            prepend(seq![TokenModel::RParen], lex(s.drop_first()))
        } else if c == ',' {
            prepend(seq![TokenModel::Comma], lex(s.drop_first()))
        } else if c == '.' {
            prepend(seq![TokenModel::Dot], lex(s.drop_first()))
        } else if c == ':' {
            if s.len() > 1 && s[1] == '-' {
                prepend(seq![TokenModel::ColonDash], lex(s.skip(2)))
            } else {
                Err(ParseErrorModel::UnexpectedTokenAfterColon)
            }
        } else if c == '\'' {
            let q = quote_len(s.drop_first()) as int;
            proof {
                lemma_quote_len_bound(s.drop_first());
            }
            if q == s.len() - 1 {
                Err(ParseErrorModel::UnterminatedQuotedAtom)
            } else {
                prepend(seq![TokenModel::Atom(s.subrange(1, q + 1))], lex(s.skip(q + 2)))
            }
        } else if ascii_lower(c) {
            let n = 1 + ident_len(s.drop_first()) as int;
            proof {
                lemma_ident_len_bound(s.drop_first());
            }
            prepend(seq![TokenModel::Atom(s.take(n))], lex(s.skip(n)))
        } else if ascii_upper(c) || c == '_' {
            let n = 1 + ident_len(s.drop_first()) as int;
            proof {
                lemma_ident_len_bound(s.drop_first());
            }
            prepend(seq![TokenModel::Variable(s.take(n))], lex(s.skip(n)))
        } else {
            Err(ParseErrorModel::UnexpectedChar(c))
        }
    }
}

pub proof fn lemma_prepend_prepend(a: Seq<TokenModel>, b: Seq<TokenModel>, r: Result<Seq<TokenModel>, ParseErrorModel>)
    ensures
        prepend(a, prepend(b, r)) == prepend(a + b, r),
{
    if let Ok(x) = r {
        assert(a + (b + x) =~= (a + b) + x);
    }
}

fn is_ident_char(c: char) -> (r: bool)
    ensures
        r == ident_char(c),
{
    char_is_alphanumeric(c) || c == '_'
}

proof fn lemma_ident_run(s: Seq<char>, a: int, b: int)
    requires
        0 <= a <= b <= s.len(),
        forall|k: int| a <= k < b ==> ident_char(#[trigger] s[k]),
        b == s.len() || !ident_char(s[b]),
    ensures
        ident_len(s.skip(a)) == b - a,
    decreases b - a,
{
    if a < b {
        lemma_ident_run(s, a + 1, b);
        assert(s.skip(a).drop_first() =~= s.skip(a + 1));
    }
}

proof fn lemma_quote_run(s: Seq<char>, a: int, b: int)
    requires
        0 <= a <= b <= s.len(),
        forall|k: int| a <= k < b ==> #[trigger] s[k] != '\'',
        b == s.len() || s[b] == '\'',
    ensures
        quote_len(s.skip(a)) == b - a,
    decreases b - a,
{
    if a < b {
        lemma_quote_run(s, a + 1, b);
        assert(s.skip(a).drop_first() =~= s.skip(a + 1));
    }
}

proof fn lemma_line_run(s: Seq<char>, a: int, b: int)
    requires
        0 <= a <= b <= s.len(),
        forall|k: int| a <= k < b ==> #[trigger] s[k] != '\n',
        b == s.len(),
    ensures
        line_len(s.skip(a)) == b - a,
    decreases b - a,
{
    if a < b {
        lemma_line_run(s, a + 1, b);
        assert(s.skip(a).drop_first() =~= s.skip(a + 1));
    }
}

proof fn lemma_line_run_nl(s: Seq<char>, a: int, b: int)
    requires
        0 <= a <= b < s.len(),
        forall|k: int| a <= k < b ==> #[trigger] s[k] != '\n',
        s[b] == '\n',
    ensures
        line_len(s.skip(a)) == b - a + 1,
    decreases b - a,
{
    if a < b {
        lemma_line_run_nl(s, a + 1, b);
        assert(s.skip(a).drop_first() =~= s.skip(a + 1));
    }
}

/// The characters `chars[from..to]` as a string.
fn collect_chars(chars: &Vec<char>, from: usize, to: usize) -> (r: String)
    requires
        from <= to <= chars@.len(),
    ensures
        r@ == chars@.subrange(from as int, to as int),
{
    let mut out = String::new();
    let mut k = from;
    while k < to
        invariant
            from <= k <= to <= chars@.len(),
            out@ == chars@.subrange(from as int, k as int),
        decreases to - k,
    {
        push_char(&mut out, chars[k]);
        proof {
            assert(chars@.subrange(from as int, k + 1) =~= chars@.subrange(from as int, k as int).push(chars@[k as int]));
        }
        k += 1;
    }
    out
}

/// The tokens of the input, as `lex` describes them.
fn tokenize(input: &str) -> (r: Result<Vec<Token>, ParseError>)
    ensures
        lex(input@) == (match r {
            Ok(ts) => Ok(ts@.map_values(|t: Token| t@)),
            Err(e) => Err(e@),
        }),
{
    let chars = chars_of(input);
    let ghost s = chars@;
    let n = chars.len();
    let mut tokens: Vec<Token> = Vec::new();
    let mut i: usize = 0;
    proof {
        assert(s.skip(0) =~= s);
        assert(tokens@.map_values(|t: Token| t@) =~= Seq::<TokenModel>::empty());
        assert(prepend(Seq::<TokenModel>::empty(), lex(s)) == lex(s)) by {
            if let Ok(x) = lex(s) {
                assert(Seq::<TokenModel>::empty() + x =~= x);
            }
        }
    }
    while i < n
        invariant
            s == chars@,
            s == input@,
            n == s.len(),
            i <= n,
            lex(s) == prepend(tokens@.map_values(|t: Token| t@), lex(s.skip(i as int))),
        decreases n - i,
    {
        let ghost rest = s.skip(i as int);
        let ghost before = tokens@.map_values(|t: Token| t@);
        let c = chars[i];
        proof {
            assert(rest[0] == c);
            assert(rest.drop_first() =~= s.skip(i + 1));
        }
        if c == ' ' || c == '\t' || c == '\n' || c == '\r' {
            i += 1;
        } else if c == '%' {
            let mut j = i + 1;
            while j < n && chars[j] != '\n'
                invariant
                    s == chars@,
                    n == s.len(),
                    i < j <= n,
                    forall|k: int| i + 1 <= k < j ==> #[trigger] s[k] != '\n',
                decreases n - j,
            {
                j += 1;
            }
            proof {
                if j < n {
                    lemma_line_run_nl(s, i + 1, j as int);
                } else {
                    lemma_line_run(s, i + 1, j as int);
                }
                assert(rest.drop_first() =~= s.skip(i + 1));
            }
            if j < n {
                j += 1;
            }
            proof {
                assert(rest.skip(1 + line_len(rest.drop_first()) as int) =~= s.skip(j as int));
            }
            i = j;
        } else if c == '(' || c == ')' || c == ',' || c == '.' {
            let tok = if c == '(' {
                Token::LParen
            } else if c == ')' {
                Token::RParen
            } else if c == ',' {
                Token::Comma
            } else {
                Token::Dot
            };
            let ghost tm = tok@;
            tokens.push(tok);
            proof {
                assert(tokens@.map_values(|t: Token| t@) =~= before + seq![tm]);
                lemma_prepend_prepend(before, seq![tm], lex(s.skip(i + 1)));
            }
            i += 1;
        } else if c == ':' {
            if i + 1 < n && chars[i + 1] == '-' {
                tokens.push(Token::ColonDash);
                proof {
                    assert(tokens@.map_values(|t: Token| t@) =~= before + seq![TokenModel::ColonDash]);
                    assert(rest.skip(2) =~= s.skip(i + 2));
                    lemma_prepend_prepend(before, seq![TokenModel::ColonDash], lex(s.skip(i + 2)));
                }
                i += 2;
            } else {
                return Err(ParseError::UnexpectedTokenAfterColon);
            }
        } else if c == '\'' {
            let mut j = i + 1;
            while j < n && chars[j] != '\''
                invariant
                    s == chars@,
                    n == s.len(),
                    i < j <= n,
                    forall|k: int| i + 1 <= k < j ==> #[trigger] s[k] != '\'',
                decreases n - j,
            {
                j += 1;
            }
            proof {
                lemma_quote_run(s, i + 1, j as int);
                assert(rest.drop_first() =~= s.skip(i + 1));
            }
            if j == n {
                return Err(ParseError::UnterminatedQuotedAtom);
            }
            let name = collect_chars(&chars, i + 1, j);
            let ghost tm = TokenModel::Atom(name@);
            tokens.push(Token::Atom(name));
            proof {
                assert(tokens@.map_values(|t: Token| t@) =~= before + seq![tm]);
                assert(rest.subrange(1, (j - i) as int) =~= s.subrange(i + 1, j as int));
                assert(rest.skip((j - i + 1) as int) =~= s.skip(j + 1));
                lemma_prepend_prepend(before, seq![tm], lex(s.skip(j + 1)));
            }
            i = j + 1;
        } else if is_ascii_lower(c) || is_ascii_upper(c) || c == '_' {
            let mut j = i + 1;
            while j < n && is_ident_char(chars[j])
                invariant
                    s == chars@,
                    n == s.len(),
                    i < j <= n,
                    forall|k: int| i + 1 <= k < j ==> ident_char(#[trigger] s[k]),
                decreases n - j,
            {
                j += 1;
            }
            proof {
                lemma_ident_run(s, i + 1, j as int);
                assert(rest.drop_first() =~= s.skip(i + 1));
                assert(rest.take((j - i) as int) =~= s.subrange(i as int, j as int));
                assert(rest.skip((j - i) as int) =~= s.skip(j as int));
            }
            let name = collect_chars(&chars, i, j);
            let tok = if is_ascii_lower(c) {
                Token::Atom(name)
            } else {
                Token::Variable(name)
            };
            let ghost tm = tok@;
            tokens.push(tok);
            proof {
                assert(tokens@.map_values(|t: Token| t@) =~= before + seq![tm]);
                lemma_prepend_prepend(before, seq![tm], lex(s.skip(j as int)));
            }
            i = j;
        } else {
            return Err(ParseError::UnexpectedChar(c));
        }
    }
    proof {
        assert(s.skip(n as int) =~= Seq::<char>::empty());
        assert(before_all_tokens(tokens@.map_values(|t: Token| t@)));
    }
    Ok(tokens)
}

spec fn before_all_tokens(ts: Seq<TokenModel>) -> bool {
    ts + Seq::<TokenModel>::empty() =~= ts
}

// ---------------------------------------------------------------------------------------
// The parser
// ---------------------------------------------------------------------------------------

/// A clause: a fact or a rule.
pub enum ClauseModel {
    Fact(TermModel),
    Rule(RuleModel),
}

/// The term that starts at `ts[pos]`, and the position after it, or the first error. A
/// variable token is a variable; an atom token followed by `(` is a compound whose arguments
/// are terms separated by `,` and closed by `)`; an atom token otherwise is an atom.
pub open spec fn term_at(ts: Seq<TokenModel>, pos: int) -> Result<(TermModel, int), ParseErrorModel>
    decreases ts.len() - pos, 1int,
{
    if pos < 0 || pos >= ts.len() {
        Err(ParseErrorModel::UnexpectedEof)
    } else {
        match ts[pos] {
            TokenModel::Variable(n) => Ok((TermModel::Variable(n), pos + 1)),
            TokenModel::Atom(n) => if pos + 1 < ts.len() && ts[pos + 1] == TokenModel::LParen {
                match term_at(ts, pos + 2) {
                    Ok((t, p)) => if pos < p <= ts.len() {
                        more_args_at(ts, p, n, seq![t])
                    } else {
                        Err(ParseErrorModel::UnexpectedEof)
                    },
                    Err(e) => Err(e),
                }
            } else {
                Ok((TermModel::Atom(n), pos + 1))
            },
            other => Err(ParseErrorModel::UnexpectedToken("a term"@, token_debug(other))),
        }
    }
}

/// The rest of the arguments of the compound `f(acc..` from `ts[pos]` on: more `, term`, then `)`.
pub open spec fn more_args_at(ts: Seq<TokenModel>, pos: int, f: Seq<char>, acc: Seq<TermModel>) -> Result<(TermModel, int), ParseErrorModel>
    decreases ts.len() - pos, 0int,
{
    if 0 <= pos < ts.len() && ts[pos] == TokenModel::Comma {
        match term_at(ts, pos + 1) {
            Ok((t, p)) => if pos < p <= ts.len() {
                more_args_at(ts, p, f, acc.push(t))
            } else {
                Err(ParseErrorModel::UnexpectedEof)
            },
            Err(e) => Err(e),
        }
    } else if pos < 0 || pos >= ts.len() {
        Err(ParseErrorModel::UnexpectedEof)
    } else if ts[pos] == TokenModel::RParen {
        Ok((TermModel::Compound(f, acc), pos + 1))
    } else {
        Err(ParseErrorModel::UnexpectedToken(token_debug(TokenModel::RParen), token_debug(ts[pos])))
    }
}

/// The terms, separated by `,`, that start at `ts[pos]`.
pub open spec fn list_at(ts: Seq<TokenModel>, pos: int) -> Result<(Seq<TermModel>, int), ParseErrorModel> {
    match term_at(ts, pos) {
        Ok((t, p)) => if pos < p <= ts.len() {
            more_list_at(ts, p, seq![t])
        } else {
            Err(ParseErrorModel::UnexpectedEof)
        },
        Err(e) => Err(e),
    }
}

/// More `, term` after the terms `acc`, from `ts[pos]` on.
pub open spec fn more_list_at(ts: Seq<TokenModel>, pos: int, acc: Seq<TermModel>) -> Result<(Seq<TermModel>, int), ParseErrorModel>
    decreases ts.len() - pos,
{
    if 0 <= pos < ts.len() && ts[pos] == TokenModel::Comma {
        match term_at(ts, pos + 1) {
            Ok((t, p)) => if pos < p <= ts.len() {
                more_list_at(ts, p, acc.push(t))
            } else {
                Err(ParseErrorModel::UnexpectedEof)
            },
            Err(e) => Err(e),
        }
    } else {
        Ok((acc, pos))
    }
}

/// The text that `Debug` gives of the token at `ts[p]` as an option.
pub open spec fn peek_debug(ts: Seq<TokenModel>, p: int) -> Seq<char> {
    if 0 <= p < ts.len() {
        "Some("@ + token_debug(ts[p]) + ")"@
    } else {
        "None"@
    }
}

/// The clause that starts at `ts[pos]`: a term then `.`, or a term, `:-`, terms and `.`.
pub open spec fn clause_at(ts: Seq<TokenModel>, pos: int) -> Result<(ClauseModel, int), ParseErrorModel> {
    match term_at(ts, pos) {
        Err(e) => Err(e),
        Ok((head, p)) => if 0 <= p < ts.len() && ts[p] == TokenModel::Dot {
            Ok((ClauseModel::Fact(head), p + 1))
        } else if 0 <= p < ts.len() && ts[p] == TokenModel::ColonDash {
            match list_at(ts, p + 1) {
                Err(e) => Err(e),
                Ok((body, q)) => if q < 0 || q >= ts.len() {
                    Err(ParseErrorModel::UnexpectedEof)
                } else if ts[q] == TokenModel::Dot {
                    Ok((ClauseModel::Rule(RuleModel { head, body }), q + 1))
                } else {
                    Err(ParseErrorModel::UnexpectedToken(token_debug(TokenModel::Dot), token_debug(ts[q])))
                },
            }
        } else {
            Err(ParseErrorModel::UnexpectedToken("'.' or ':-'"@, peek_debug(ts, p)))
        },
    }
}

/// The knowledge base with the clause added (a known fact or rule is not added twice).
pub open spec fn add_clause(kb: KnowledgeBaseModel, c: ClauseModel) -> KnowledgeBaseModel {
    match c {
        ClauseModel::Fact(t) => KnowledgeBaseModel { facts: with_fact(kb.facts, t), rules: kb.rules },
        ClauseModel::Rule(r) => KnowledgeBaseModel { facts: kb.facts, rules: with_rule(kb.rules, r) },
    }
}

/// The clauses from `ts[pos]` on, added to `kb` in order until the end or the first error.
pub open spec fn clauses_from(ts: Seq<TokenModel>, pos: int, kb: KnowledgeBaseModel) -> (KnowledgeBaseModel, Option<ParseErrorModel>)
    decreases ts.len() - pos,
{
    if pos < 0 || pos >= ts.len() {
        (kb, None)
    } else {
        match clause_at(ts, pos) {
            Err(e) => (kb, Some(e)),
            Ok((c, p)) => if pos < p <= ts.len() {
                clauses_from(ts, p, add_clause(kb, c))
            } else {
                (kb, None)
            },
        }
    }
}

/// The empty knowledge base.
pub open spec fn empty_kb() -> KnowledgeBaseModel {
    KnowledgeBaseModel { facts: Seq::empty(), rules: Seq::empty() }
}

/// What reading `input` gives: the knowledge base of the clauses read before the first error
/// (empty on a lexical error), and the message of that error, if any.
pub open spec fn parse_result(input: Seq<char>) -> (KnowledgeBaseModel, Option<Seq<char>>) {
    match lex(input) {
        Err(e) => (empty_kb(), Some(error_message(e))),
        Ok(ts) => {
            let (kb, e) = clauses_from(ts, 0, empty_kb());
            (kb, match e {
                Some(e) => Some(error_message(e)),
                None => None,
            })
        },
    }
}

impl Token {
    /// Whether two tokens are the same.
    pub fn same(&self, other: &Token) -> (r: bool)
        ensures
            r == (self@ === other@),
    {
        match self {
            Token::Atom(a) => match other {
                Token::Atom(b) => *a == *b,
                _ => false,
            },
            Token::Variable(a) => match other {
                Token::Variable(b) => *a == *b,
                _ => false,
            },
            Token::LParen => match other {
                Token::LParen => true,
                _ => false,
            },
            Token::RParen => match other {
                Token::RParen => true,
                _ => false,
            },
            Token::Comma => match other {
                Token::Comma => true,
                _ => false,
            },
            Token::Dot => match other {
                Token::Dot => true,
                _ => false,
            },
            Token::ColonDash => match other {
                Token::ColonDash => true,
                _ => false,
            },
        }
    }
}

struct Parser {
    tokens: Vec<Token>,
    pos: usize,
}

impl Parser {
    spec fn toks(&self) -> Seq<TokenModel> {
        self.tokens@.map_values(|t: Token| t@)
    }

    fn new(tokens: Vec<Token>) -> (p: Self)
        ensures
            p.tokens == tokens,
            p.pos == 0,
    {
        Self { tokens, pos: 0 }
    }

    fn peek(&self) -> (r: Option<&Token>)
        ensures
            match r {
                Some(t) => self.pos < self.tokens@.len() && t@ == self.toks()[self.pos as int],
                None => self.pos >= self.tokens@.len(),
            },
    {
        if self.pos < self.tokens.len() {
            Some(&self.tokens[self.pos])
        } else {
            None
        }
    }

    fn peek_is(&self, t: &Token) -> (r: bool)
        ensures
            r == (self.pos < self.tokens@.len() && self.toks()[self.pos as int] == t@),
    {
        match self.peek() {
            Some(x) => x.same(t),
            None => false,
        }
    }

    fn next_token(&mut self) -> (r: Result<Token, ParseError>)
        ensures
            final(self).tokens == old(self).tokens,
            old(self).pos <= old(self).tokens@.len() ==> final(self).pos <= final(self).tokens@.len(),
            match r {
                Ok(t) => old(self).pos < old(self).tokens@.len() && t@ == old(self).toks()[old(self).pos as int]
                    && final(self).pos == old(self).pos + 1,
                Err(e) => old(self).pos >= old(self).tokens@.len() && e@ == ParseErrorModel::UnexpectedEof
                    && final(self).pos == old(self).pos,
            },
    {
        if self.pos < self.tokens.len() {
            let tok = self.tokens[self.pos].duplicate();
            self.pos += 1;
            Ok(tok)
        } else {
            Err(ParseError::UnexpectedEof)
        }
    }

    fn expect(&mut self, expected: &Token) -> (r: Result<(), ParseError>)
        ensures
            final(self).tokens == old(self).tokens,
            old(self).pos <= old(self).tokens@.len() ==> final(self).pos <= final(self).tokens@.len(),
            match r {
                Ok(_) => old(self).pos < old(self).tokens@.len() && old(self).toks()[old(self).pos as int] == expected@
                    && final(self).pos == old(self).pos + 1,
                Err(e) => if old(self).pos >= old(self).tokens@.len() {
                    e@ == ParseErrorModel::UnexpectedEof
                } else {
                    old(self).toks()[old(self).pos as int] != expected@ && e@ == ParseErrorModel::UnexpectedToken(
                        token_debug(expected@),
                        token_debug(old(self).toks()[old(self).pos as int]),
                    )
                },
            },
    {
        let tok = self.next_token()?;
        if tok.same(expected) {
            Ok(())
        } else {
            Err(ParseError::UnexpectedToken { expected: expected.debug_string(), got: tok.debug_string() })
        }
    }

    fn parse_term(&mut self) -> (r: Result<Term, ParseError>)
        requires
            old(self).pos <= old(self).tokens@.len(),
        ensures
            final(self).tokens == old(self).tokens,
            final(self).pos <= final(self).tokens@.len(),
            match r {
                Ok(t) => term_at(old(self).toks(), old(self).pos as int) == Ok::<(TermModel, int), ParseErrorModel>((t@, final(self).pos as int))
                    && final(self).pos > old(self).pos,
                Err(e) => term_at(old(self).toks(), old(self).pos as int) == Err::<(TermModel, int), ParseErrorModel>(e@),
            },
        decreases old(self).tokens@.len() - old(self).pos,
    {
        let ghost ts = self.toks();
        let ghost p0 = self.pos as int;
        match self.next_token()? {
            Token::Variable(name) => Ok(Term::Variable(name)),
            Token::Atom(name) => {
                if self.peek_is(&Token::LParen) {
                    self.expect(&Token::LParen)?;
                    let first = self.parse_term()?;
                    let ghost f = name@;
                    let mut args: Vec<Term> = Vec::new();
                    args.push(first);
                    proof {
                        assert(args@.drop_last() =~= Seq::<Term>::empty());
                        assert(terms_model(args@.drop_last()) =~= Seq::<TermModel>::empty());
                        assert(terms_model(args@) =~= seq![args@[0]@]);
                    }
                    while self.peek_is(&Token::Comma)
                        invariant
                            self.tokens == old(self).tokens,
                            p0 == old(self).pos,
                            self.tokens@.map_values(|t: Token| t@) == ts,
                            p0 < self.pos <= self.tokens@.len(),
                            term_at(ts, p0) == more_args_at(ts, self.pos as int, f, terms_model(args@)),
                        decreases self.tokens@.len() - self.pos,
                    {
                        let ghost before = self.pos as int;
                        let ghost acc = args@;
                        self.expect(&Token::Comma)?;
                        let t = self.parse_term()?;
                        let ghost tm = t@;
                        args.push(t);
                        proof {
                            assert(args@.drop_last() =~= acc);
                            assert(terms_model(args@) == terms_model(acc).push(tm));
                            assert(more_args_at(ts, before, f, terms_model(acc)) == more_args_at(ts, self.pos as int, f, terms_model(acc).push(tm)));
                        }
                    }
                    self.expect(&Token::RParen)?;
                    Ok(Term::Compound { functor: name, args })
                } else {
                    Ok(Term::Atom(name))
                }
            },
            other => Err(ParseError::UnexpectedToken { expected: "a term".to_string(), got: other.debug_string() }),
        }
    }
}

impl Parser {
    fn parse_term_list(&mut self) -> (r: Result<Vec<Term>, ParseError>)
        requires
            old(self).pos <= old(self).tokens@.len(),
        ensures
            final(self).tokens == old(self).tokens,
            final(self).pos <= final(self).tokens@.len(),
            r is Ok ==> final(self).pos > old(self).pos,
            match r {
                Ok(ts) => list_at(old(self).toks(), old(self).pos as int) == Ok::<(Seq<TermModel>, int), ParseErrorModel>((terms_model(ts@), final(self).pos as int)),
                Err(e) => list_at(old(self).toks(), old(self).pos as int) == Err::<(Seq<TermModel>, int), ParseErrorModel>(e@),
            },
    {
        let ghost ts = self.toks();
        let ghost p0 = self.pos as int;
        let first = self.parse_term()?;
        let mut terms: Vec<Term> = Vec::new();
        terms.push(first);
        proof {
            assert(terms@.drop_last() =~= Seq::<Term>::empty());
            assert(terms_model(terms@.drop_last()) =~= Seq::<TermModel>::empty());
            assert(terms_model(terms@) =~= seq![terms@[0]@]);
        }
        while self.peek_is(&Token::Comma)
            invariant
                self.tokens == old(self).tokens,
                p0 == old(self).pos,
                self.tokens@.map_values(|t: Token| t@) == ts,
                p0 < self.pos <= self.tokens@.len(),
                list_at(ts, p0) == more_list_at(ts, self.pos as int, terms_model(terms@)),
            decreases self.tokens@.len() - self.pos,
        {
            let ghost before = self.pos as int;
            let ghost acc = terms@;
            self.expect(&Token::Comma)?;
            let t = self.parse_term()?;
            let ghost tm = t@;
            terms.push(t);
            proof {
                assert(terms@.drop_last() =~= acc);
                assert(terms_model(terms@) == terms_model(acc).push(tm));
            }
        }
        Ok(terms)
    }

    fn parse_clause(&mut self) -> (r: Result<(Option<Fact>, Option<Rule>), ParseError>)
        requires
            old(self).pos <= old(self).tokens@.len(),
        ensures
            final(self).tokens == old(self).tokens,
            final(self).pos <= final(self).tokens@.len(),
            r is Ok ==> final(self).pos > old(self).pos,
            match r {
                Ok((Some(f), None)) => clause_at(old(self).toks(), old(self).pos as int) == Ok::<(ClauseModel, int), ParseErrorModel>((ClauseModel::Fact(f@), final(self).pos as int)),
                Ok((None, Some(rule))) => clause_at(old(self).toks(), old(self).pos as int) == Ok::<(ClauseModel, int), ParseErrorModel>((ClauseModel::Rule(rule@), final(self).pos as int)),
                Ok(_) => false,
                Err(e) => clause_at(old(self).toks(), old(self).pos as int) == Err::<(ClauseModel, int), ParseErrorModel>(e@),
            },
    {
        let head = self.parse_term()?;
        if self.peek_is(&Token::Dot) {
            self.expect(&Token::Dot)?;
            Ok((Some(Fact { term: head }), None))
        } else if self.peek_is(&Token::ColonDash) {
            self.expect(&Token::ColonDash)?;
            let body = self.parse_term_list()?;
            self.expect(&Token::Dot)?;
            Ok((None, Some(Rule { head, body })))
        } else {
            let got = match self.peek() {
                Some(t) => {
                    let mut g = String::new();
                    push_str(&mut g, "Some(");
                    let d = t.debug_string();
                    push_str(&mut g, d.as_str());
                    push_str(&mut g, ")");
                    g
                },
                None => {
                    let mut g = String::new();
                    push_str(&mut g, "None");
                    g
                },
            };
            let mut expected = String::new();
            push_str(&mut expected, "'.' or ':-'");
            Err(ParseError::UnexpectedToken { expected, got })
        }
    }

    fn parse_knowledge_base(&mut self) -> (r: (KnowledgeBase, Option<String>))
        requires
            old(self).pos == 0,
        ensures
            ({
                let (kb, e) = clauses_from(old(self).toks(), 0, empty_kb());
                &&& r.0@ == kb
                &&& match e {
                    Some(e) => r.1 matches Some(m) && m@ == error_message(e),
                    None => r.1 is None,
                }
            }),
    {
        let ghost ts = self.toks();
        let mut kb = KnowledgeBase::new();
        while self.peek().is_some()
            invariant
                self.tokens@.map_values(|t: Token| t@) == ts,
                ts == old(self).toks(),
                self.pos <= self.tokens@.len(),
                clauses_from(ts, 0, empty_kb()) == clauses_from(ts, self.pos as int, kb@),
            decreases self.tokens@.len() - self.pos,
        {
            let ghost before = self.pos as int;
            let ghost kb0 = kb@;
            match self.parse_clause() {
                Ok((Some(fact), None)) => {
                    kb.add_fact(fact);
                    proof {
                        assert(kb@ == add_clause(kb0, ClauseModel::Fact(fact@)));
                    }
                },
                Ok((None, Some(rule))) => {
                    kb.add_rule(rule);
                    proof {
                        assert(kb@ == add_clause(kb0, ClauseModel::Rule(rule@)));
                    }
                },
                Ok(_) => return (kb, None),
                Err(e) => return (kb, Some(e.to_string())),
            }
        }
        (kb, None)
    }
}

/// Reads the input; gives the knowledge base of the clauses read before the first error, and
/// the message of that error, if any (see `parse_result`).
pub fn parse_with_error(input: &str) -> (r: (KnowledgeBase, Option<String>))
    ensures
        r.0@ == parse_result(input@).0,
        match parse_result(input@).1 {
            Some(m) => r.1 matches Some(x) && x@ == m,
            None => r.1 is None,
        },
{
    match tokenize(input) {
        Err(e) => (KnowledgeBase::new(), Some(e.to_string())),
        Ok(tokens) => {
            let mut parser = Parser::new(tokens);
            parser.parse_knowledge_base()
        },
    }
}

/// Reads the input: the knowledge base of the clauses read before the first error, if any.
pub fn parse(input: &str) -> (kb: KnowledgeBase)
    ensures
        kb@ == parse_result(input@).0,
{
    parse_with_error(input).0
}

} // verus!
