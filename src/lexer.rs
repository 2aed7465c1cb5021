use vstd::prelude::*;
use crate::scanner::{is_white, is_white_char};
use crate::numbering::{decimal, decimal_exec};
use crate::text::{chars_of, same_chars, slice_chars, string_of};
use vstd::string::StrSliceExecFns;

verus! {

/// The six lexical categories.
#[derive(Clone, Copy, Debug, PartialEq, Eq, Structural)]
pub enum TokenCategory {
    Keyword,
    Identifier,
    NumericConstant,
    Operator,
    StringLiteral,
    Separator,
}

#[derive(Clone, Copy, Debug, PartialEq, Eq, Structural)]
pub enum LexErrorKind {
    UnterminatedString,
    InvalidNumber,
    UnrecognizedCharacter,
}

/// A malformed token, and the character offset where it starts.
#[derive(Clone, Copy, Debug, PartialEq, Eq, Structural)]
pub struct LexicalError {
    pub kind: LexErrorKind,
    pub offset: usize,
}

pub open spec fn kind_text(k: LexErrorKind) -> Seq<char> {
    match k {
        LexErrorKind::UnterminatedString => "unterminated string"@,
        LexErrorKind::InvalidNumber => "invalid number"@,
        LexErrorKind::UnrecognizedCharacter => "unrecognized character"@,
    }
}

impl LexicalError {
    /// The error in words, with its offset.
    pub fn message(&self) -> (r: String)
        ensures
            r@ == kind_text(self.kind) + " at offset "@ + decimal(self.offset as nat),
    {
        let mut out = match self.kind {
            LexErrorKind::UnterminatedString => chars_of("unterminated string"),
            LexErrorKind::InvalidNumber => chars_of("invalid number"),
            LexErrorKind::UnrecognizedCharacter => chars_of("unrecognized character"),
        };
        let mut at = chars_of(" at offset ");
        out.append(&mut at);
        let mut d = decimal_exec(self.offset as u128);
        out.append(&mut d);
        string_of(&out)
    }
}

/// One classified token: its text, category and character offset in the text.
#[derive(Clone, Debug)]
pub struct Token {
    pub lexeme: String,
    pub category: TokenCategory,
    pub offset: usize,
}

/// What a token stands for.
pub struct TokenSpec {
    pub text: Seq<char>,
    pub category: TokenCategory,
    pub offset: nat,
}

impl View for Token {
    type V = TokenSpec;

    open spec fn view(&self) -> TokenSpec {
        TokenSpec { text: self.lexeme@, category: self.category, offset: self.offset as nat }
    }
}

pub open spec fn tokens_view(ts: Seq<Token>) -> Seq<TokenSpec> {
    ts.map_values(|t: Token| t@)
}

pub open spec fn is_digit(c: char) -> bool {
    '0' <= c && c <= '9'
}

pub open spec fn is_word_start(c: char) -> bool {
    ('a' <= c && c <= 'z') || ('A' <= c && c <= 'Z') || c == '_'
}

pub open spec fn is_word_char(c: char) -> bool {
    is_word_start(c) || is_digit(c)
}

/// Characters that a numeric run takes in before it is checked.
pub open spec fn is_number_char(c: char) -> bool {
    is_word_char(c) || c == '.'
}

/// A type suffix that may end a numeric constant.
pub open spec fn is_number_suffix(c: char) -> bool {
    c == 'f' || c == 'F' || c == 'l' || c == 'L' || c == 'u' || c == 'U'
}

pub open spec fn is_separator(c: char) -> bool {
    c == '(' || c == ')' || c == '{' || c == '}' || c == '[' || c == ']' || c == ';' || c == ','
        || c == '.'
}

pub open spec fn is_operator_char(c: char) -> bool {
    c == '+' || c == '-' || c == '*' || c == '/' || c == '%' || c == '=' || c == '<' || c == '>'
        || c == '!' || c == '&' || c == '|' || c == '^' || c == '~'
}

/// The two-character operators, matched before the single ones.
pub open spec fn is_double_operator(a: char, b: char) -> bool {
    ||| b == '=' && (a == '=' || a == '!' || a == '<' || a == '>' || a == '+' || a == '-' || a
        == '*' || a == '/' || a == '%' || a == '&' || a == '|' || a == '^')
    ||| (a == '&' && b == '&') || (a == '|' && b == '|') || (a == '+' && b == '+')
    ||| (a == '-' && b == '-') || (a == '<' && b == '<') || (a == '>' && b == '>')
    ||| (a == '-' && b == '>')
}

/// The reserved words of C.
#[verifier::opaque]
pub open spec fn is_keyword(w: Seq<char>) -> bool {
    ||| w == seq!['a', 'u', 't', 'o'] || w == seq!['b', 'r', 'e', 'a', 'k']
    ||| w == seq!['c', 'a', 's', 'e'] || w == seq!['c', 'h', 'a', 'r']
    ||| w == seq!['c', 'o', 'n', 's', 't'] || w == seq!['c', 'o', 'n', 't', 'i', 'n', 'u', 'e']
    ||| w == seq!['d', 'e', 'f', 'a', 'u', 'l', 't'] || w == seq!['d', 'o']
    ||| w == seq!['d', 'o', 'u', 'b', 'l', 'e'] || w == seq!['e', 'l', 's', 'e']
    ||| w == seq!['e', 'n', 'u', 'm'] || w == seq!['e', 'x', 't', 'e', 'r', 'n']
    ||| w == seq!['f', 'l', 'o', 'a', 't'] || w == seq!['f', 'o', 'r']
    ||| w == seq!['g', 'o', 't', 'o'] || w == seq!['i', 'f']
    ||| w == seq!['i', 'n', 't'] || w == seq!['l', 'o', 'n', 'g']
    ||| w == seq!['r', 'e', 'g', 'i', 's', 't', 'e', 'r'] || w == seq!['r', 'e', 't', 'u', 'r', 'n']
    ||| w == seq!['s', 'h', 'o', 'r', 't'] || w == seq!['s', 'i', 'g', 'n', 'e', 'd']
    ||| w == seq!['s', 'i', 'z', 'e', 'o', 'f'] || w == seq!['s', 't', 'a', 't', 'i', 'c']
    ||| w == seq!['s', 't', 'r', 'u', 'c', 't'] || w == seq!['s', 'w', 'i', 't', 'c', 'h']
    ||| w == seq!['t', 'y', 'p', 'e', 'd', 'e', 'f'] || w == seq!['u', 'n', 'i', 'o', 'n']
    ||| w == seq!['u', 'n', 's', 'i', 'g', 'n', 'e', 'd'] || w == seq!['v', 'o', 'i', 'd']
    ||| w == seq!['v', 'o', 'l', 'a', 't', 'i', 'l', 'e'] || w == seq!['w', 'h', 'i', 'l', 'e']
}

/// A numeric constant: digits, at most one decimal point, then at most one type suffix.
/// A numeric run without its type suffix, if it has one.
pub open spec fn number_body(w: Seq<char>) -> Seq<char> {
    if w.len() > 0 && is_number_suffix(w.last()) {
        w.drop_last()
    } else {
        w
    }
}

pub open spec fn valid_number(w: Seq<char>) -> bool {
    let body = number_body(w);
    &&& body.len() > 0 && is_digit(body[0])
    &&& forall|k: int| 0 <= k < body.len() ==> is_digit(#[trigger] body[k]) || body[k] == '.'
    &&& forall|k1: int, k2: int|
        0 <= k1 < body.len() && 0 <= k2 < body.len() && #[trigger] body[k1] == '.' && #[trigger] body[k2]
            == '.' ==> k1 == k2
}

/// End of the run of word characters (or, with `number`, numeric-run characters) from `j`.
pub open spec fn run_end(s: Seq<char>, j: int, number: bool) -> int
    decreases s.len() - j,
{
    if 0 <= j < s.len() && (if number { is_number_char(s[j]) } else { is_word_char(s[j]) }) {
        run_end(s, j + 1, number)
    } else {
        j
    }
}

/// Index just past the quote that closes a string whose body starts at `j`.
pub open spec fn string_end(s: Seq<char>, j: int) -> Option<int>
    decreases s.len() - j,
{
    if j < 0 || j >= s.len() {
        None
    } else if s[j] == '"' {
        Some(j + 1)
    } else if s[j] == '\\' {
        if j + 1 >= s.len() {
            None
        } else {
            string_end(s, j + 2)
        }
    } else {
        string_end(s, j + 1)
    }
}

pub open spec fn token_at(s: Seq<char>, i: int, end: int, cat: TokenCategory) -> TokenSpec {
    TokenSpec { text: s.subrange(i, end), category: cat, offset: i as nat }
}

/// The token that starts at `i` (a character that is not whitespace), or the error there.
#[verifier::opaque]
pub open spec fn next_token(s: Seq<char>, i: int) -> Result<TokenSpec, LexicalError> {
    let c = s[i];
    let err = |k: LexErrorKind| LexicalError { kind: k, offset: i as usize };
    if is_word_start(c) {
        let e = run_end(s, i, false);
        let w = s.subrange(i, e);
        Ok(token_at(s, i, e, if is_keyword(w) { TokenCategory::Keyword } else { TokenCategory::Identifier }))
    } else if is_digit(c) {
        let e = run_end(s, i, true);
        if valid_number(s.subrange(i, e)) {
            Ok(token_at(s, i, e, TokenCategory::NumericConstant))
        } else {
            Err(err(LexErrorKind::InvalidNumber))
        }
    } else if c == '"' {
        match string_end(s, i + 1) {
            Some(e) => Ok(token_at(s, i, e, TokenCategory::StringLiteral)),
            None => Err(err(LexErrorKind::UnterminatedString)),
        }
    } else if i + 1 < s.len() && is_double_operator(c, s[i + 1]) {
        Ok(token_at(s, i, i + 2, TokenCategory::Operator))
    } else if is_operator_char(c) {
        Ok(token_at(s, i, i + 1, TokenCategory::Operator))
    } else if is_separator(c) {
        Ok(token_at(s, i, i + 1, TokenCategory::Separator))
    } else {
        Err(err(LexErrorKind::UnrecognizedCharacter))
    }
}

pub open spec fn prepend(t: TokenSpec, r: Result<Seq<TokenSpec>, LexicalError>) -> Result<Seq<TokenSpec>, LexicalError> {
    match r {
        Ok(v) => Ok(seq![t] + v),
        Err(e) => Err(e),
    }
}

/// The tokens of `s` from `i` on, or the first error among them.
pub open spec fn lex_from(s: Seq<char>, i: int) -> Result<Seq<TokenSpec>, LexicalError>
    decreases s.len() - i,
{
    if i < 0 || i >= s.len() {
        Ok(Seq::empty())
    } else if is_white(s[i]) {
        lex_from(s, i + 1)
    } else {
        match next_token(s, i) {
            Err(e) => Err(e),
            // every token holds at least one character
            Ok(t) => if t.text.len() > 0 && i + t.text.len() <= s.len() {
                prepend(t, lex_from(s, i + t.text.len()))
            } else {
                Err(LexicalError { kind: LexErrorKind::UnrecognizedCharacter, offset: i as usize })
            },
        }
    }
}

pub fn is_keyword_exec(w: &Vec<char>) -> (r: bool)
    ensures
        r == is_keyword(w@),
{
    reveal(is_keyword);
    same_chars(w, &['a', 'u', 't', 'o'])
        || same_chars(w, &['b', 'r', 'e', 'a', 'k'])
        || same_chars(w, &['c', 'a', 's', 'e'])
        || same_chars(w, &['c', 'h', 'a', 'r'])
        || same_chars(w, &['c', 'o', 'n', 's', 't'])
        || same_chars(w, &['c', 'o', 'n', 't', 'i', 'n', 'u', 'e'])
        || same_chars(w, &['d', 'e', 'f', 'a', 'u', 'l', 't'])
        || same_chars(w, &['d', 'o'])
        || same_chars(w, &['d', 'o', 'u', 'b', 'l', 'e'])
        || same_chars(w, &['e', 'l', 's', 'e'])
        || same_chars(w, &['e', 'n', 'u', 'm'])
        || same_chars(w, &['e', 'x', 't', 'e', 'r', 'n'])
        || same_chars(w, &['f', 'l', 'o', 'a', 't'])
        || same_chars(w, &['f', 'o', 'r'])
        || same_chars(w, &['g', 'o', 't', 'o'])
        || same_chars(w, &['i', 'f'])
        || same_chars(w, &['i', 'n', 't'])
        || same_chars(w, &['l', 'o', 'n', 'g'])
        || same_chars(w, &['r', 'e', 'g', 'i', 's', 't', 'e', 'r'])
        || same_chars(w, &['r', 'e', 't', 'u', 'r', 'n'])
        || same_chars(w, &['s', 'h', 'o', 'r', 't'])
        || same_chars(w, &['s', 'i', 'g', 'n', 'e', 'd'])
        || same_chars(w, &['s', 'i', 'z', 'e', 'o', 'f'])
        || same_chars(w, &['s', 't', 'a', 't', 'i', 'c'])
        || same_chars(w, &['s', 't', 'r', 'u', 'c', 't'])
        || same_chars(w, &['s', 'w', 'i', 't', 'c', 'h'])
        || same_chars(w, &['t', 'y', 'p', 'e', 'd', 'e', 'f'])
        || same_chars(w, &['u', 'n', 'i', 'o', 'n'])
        || same_chars(w, &['u', 'n', 's', 'i', 'g', 'n', 'e', 'd'])
        || same_chars(w, &['v', 'o', 'i', 'd'])
        || same_chars(w, &['v', 'o', 'l', 'a', 't', 'i', 'l', 'e'])
        || same_chars(w, &['w', 'h', 'i', 'l', 'e'])
}

pub fn valid_number_exec(w: &Vec<char>) -> (r: bool)
    ensures
        r == valid_number(w@),
{
    let ghost body = number_body(w@);
    let mut n: usize = w.len();
    if n > 0 {
        let c = w[n - 1];
        if c == 'f' || c == 'F' || c == 'l' || c == 'L' || c == 'u' || c == 'U' {
            n -= 1;
        }
    }
    assert(body =~= w@.take(n as int));
    if n == 0 || !('0' <= w[0] && w[0] <= '9') {
        return false;
    }
    let mut dot: Option<usize> = None;
    let mut k: usize = 0;
    while k < n
        invariant
            n <= w@.len(),
            body == w@.take(n as int),
            body == number_body(w@),
            n > 0 && is_digit(body[0]),
            k <= n,
            forall|q: int| 0 <= q < k ==> is_digit(#[trigger] body[q]) || body[q] == '.',
            match dot {
                Some(d) => d < k && body[d as int] == '.' && forall|q: int| 0 <= q < k && #[trigger] body[q] == '.' ==> q == d,
                None => forall|q: int| 0 <= q < k ==> #[trigger] body[q] != '.',
            },
        decreases n - k,
    {
        let c = w[k];
        assert(body[k as int] == c);
        if c == '.' {
            if let Some(d) = dot {
                assert(body[d as int] == '.' && body[k as int] == '.' && d != k);
                assert(!valid_number(w@));
                return false;
            }
            dot = Some(k);
        } else if !('0' <= c && c <= '9') {
            assert(!(is_digit(body[k as int]) || body[k as int] == '.'));
            assert(!valid_number(w@));
            return false;
        }
        k += 1;
    }
    true
}

fn run_end_exec(s: &Vec<char>, j: usize, number: bool) -> (r: usize)
    requires
        j <= s@.len(),
    ensures
        r as int == run_end(s@, j as int, number),
        j <= r <= s@.len(),
{
    let mut k: usize = j;
    while k < s.len() && in_run(s[k], number)
        invariant
            j <= k <= s@.len(),
            run_end(s@, j as int, number) == run_end(s@, k as int, number),
        decreases s@.len() - k,
    {
        k += 1;
    }
    k
}

fn in_run(c: char, number: bool) -> (r: bool)
    ensures
        r == (if number { is_number_char(c) } else { is_word_char(c) }),
{
    if number {
        c == '.' || is_word_char_exec(c)
    } else {
        is_word_char_exec(c)
    }
}

pub fn is_word_char_exec(c: char) -> (r: bool)
    ensures
        r == is_word_char(c),
{
    ('a' <= c && c <= 'z') || ('A' <= c && c <= 'Z') || c == '_' || ('0' <= c && c <= '9')
}

fn string_end_exec(s: &Vec<char>, j: usize) -> (r: Option<usize>)
    requires
        j <= s@.len(),
    ensures
        match r {
            Some(e) => string_end(s@, j as int) == Some(e as int) && j < e <= s@.len(),
            None => string_end(s@, j as int) is None,
        },
{
    let mut k: usize = j;
    while k < s.len()
        invariant
            j <= k <= s@.len(),
            string_end(s@, j as int) == string_end(s@, k as int),
        decreases s@.len() - k,
    {
        if s[k] == '"' {
            return Some(k + 1);
        } else if s[k] == '\\' {
            if k + 1 >= s.len() {
                return None;
            }
            k += 2;
        } else {
            k += 1;
        }
    }
    None
}

fn is_operator_char_exec(c: char) -> (r: bool)
    ensures
        r == is_operator_char(c),
{
    c == '+' || c == '-' || c == '*' || c == '/' || c == '%' || c == '=' || c == '<' || c == '>'
        || c == '!' || c == '&' || c == '|' || c == '^' || c == '~'
}

fn is_double_operator_exec(a: char, b: char) -> (r: bool)
    ensures
        r == is_double_operator(a, b),
{
    (b == '=' && (a == '=' || a == '!' || a == '<' || a == '>' || a == '+' || a == '-' || a == '*'
        || a == '/' || a == '%' || a == '&' || a == '|' || a == '^')) || (a == '&' && b == '&')
        || (a == '|' && b == '|') || (a == '+' && b == '+') || (a == '-' && b == '-') || (a == '<'
        && b == '<') || (a == '>' && b == '>') || (a == '-' && b == '>')
}

fn is_separator_exec(c: char) -> (r: bool)
    ensures
        r == is_separator(c),
{
    c == '(' || c == ')' || c == '{' || c == '}' || c == '[' || c == ']' || c == ';' || c == ','
        || c == '.'
}

fn make_token(s: &Vec<char>, i: usize, e: usize, cat: TokenCategory) -> (t: Token)
    requires
        i < e <= s@.len(),
    ensures
        t@ == token_at(s@, i as int, e as int, cat),
        t@.text.len() == e - i,
{
    let v = slice_chars(s, i, e);
    Token { lexeme: string_of(&v), category: cat, offset: i }
}

/// The token starting at `s[i]`, which is not whitespace.
fn next_token_exec(s: &Vec<char>, i: usize) -> (r: Result<Token, LexicalError>)
    requires
        i < s@.len(),
    ensures
        match r {
            Ok(t) => next_token(s@, i as int) == Ok::<TokenSpec, LexicalError>(t@) && t@.text.len() > 0
                && i + t@.text.len() <= s@.len(),
            Err(e) => next_token(s@, i as int) == Err::<TokenSpec, LexicalError>(e),
        },
{
    reveal(next_token);
    let n = s.len();
    let c = s[i];
    if ('a' <= c && c <= 'z') || ('A' <= c && c <= 'Z') || c == '_' {
        let e = run_end_exec(s, i + 1, false);
        assert(run_end(s@, i as int, false) == run_end(s@, i + 1, false));
        let w = slice_chars(s, i, e);
        let cat = if is_keyword_exec(&w) { TokenCategory::Keyword } else { TokenCategory::Identifier };
        Ok(make_token(s, i, e, cat))
    } else if '0' <= c && c <= '9' {
        let e = run_end_exec(s, i + 1, true);
        assert(run_end(s@, i as int, true) == run_end(s@, i + 1, true));
        let w = slice_chars(s, i, e);
        if valid_number_exec(&w) {
            Ok(make_token(s, i, e, TokenCategory::NumericConstant))
        } else {
            Err(LexicalError { kind: LexErrorKind::InvalidNumber, offset: i })
        }
    } else if c == '"' {
        match string_end_exec(s, i + 1) {
            Some(e) => Ok(make_token(s, i, e, TokenCategory::StringLiteral)),
            None => Err(LexicalError { kind: LexErrorKind::UnterminatedString, offset: i }),
        }
    } else if i + 1 < n && is_double_operator_exec(c, s[i + 1]) {
        Ok(make_token(s, i, i + 2, TokenCategory::Operator))
    } else if is_operator_char_exec(c) {
        Ok(make_token(s, i, i + 1, TokenCategory::Operator))
    } else if is_separator_exec(c) {
        Ok(make_token(s, i, i + 1, TokenCategory::Separator))
    } else {
        Err(LexicalError { kind: LexErrorKind::UnrecognizedCharacter, offset: i })
    }
}

pub open spec fn result_view(r: Result<Vec<Token>, LexicalError>) -> Result<Seq<TokenSpec>, LexicalError> {
    match r {
        Ok(v) => Ok(tokens_view(v@)),
        Err(e) => Err(e),
    }
}

/// Splits cleaned text into tokens by maximal munch, or reports the first
/// malformed token; no tokens come back on failure.
pub fn classify(text: &String) -> (r: Result<Vec<Token>, LexicalError>)
    ensures
        result_view(r) == lex_from(text@, 0),
{
    let s = chars_of(text.as_str());
    let mut toks: Vec<Token> = Vec::new();
    let mut i: usize = 0;
    while i < s.len()
        invariant
            i <= s@.len(),
            s@ == text@,
            lex_from(s@, 0) == match lex_from(s@, i as int) {
                Ok(v) => Ok(tokens_view(toks@) + v),
                Err(e) => Err::<Seq<TokenSpec>, LexicalError>(e),
            },
        decreases s@.len() - i,
    {
        if is_white_char(s[i]) {
            i += 1;
        } else {
            match next_token_exec(&s, i) {
                Ok(t) => {
                    let n = t.lexeme.as_str().unicode_len();
                    let ghost tv = t@;
                    proof {
                        assert(tokens_view(toks@.push(t)) =~= tokens_view(toks@).push(tv));
                        match lex_from(s@, i + tv.text.len()) {
                            Ok(v) => {
                                assert(tokens_view(toks@).push(tv) + v =~= tokens_view(toks@) + (seq![tv] + v));
                            },
                            Err(_) => {},
                        }
                    }
                    toks.push(t);
                    i += n;
                },
                Err(e) => {
                    return Err(e);
                },
            }
        }
    }
    Ok(toks)
}

/// What every lexeme of a category looks like.
#[verifier::opaque]
pub open spec fn fits_category(w: Seq<char>, c: TokenCategory) -> bool {
    match c {
        TokenCategory::Keyword => is_keyword(w),
        TokenCategory::Identifier => w.len() > 0 && is_word_start(w[0]) && (forall|k: int|
            0 <= k < w.len() ==> is_word_char(#[trigger] w[k])) && !is_keyword(w),
        TokenCategory::NumericConstant => valid_number(w),
        TokenCategory::Operator => (w.len() == 1 && is_operator_char(w[0])) || (w.len() == 2
            && is_double_operator(w[0], w[1])),
        TokenCategory::StringLiteral => w.len() >= 2 && w[0] == '"' && string_end(w, 1) == Some(
            w.len() as int,
        ),
        TokenCategory::Separator => w.len() == 1 && is_separator(w[0]),
    }
}

pub proof fn lemma_run_end(s: Seq<char>, j: int, number: bool)
    requires
        0 <= j <= s.len(),
    ensures
        j <= run_end(s, j, number) <= s.len(),
        forall|k: int| j <= k < run_end(s, j, number) ==> (if number { is_number_char(#[trigger] s[k]) } else { is_word_char(s[k]) }),
    decreases s.len() - j,
{
    if j < s.len() && (if number { is_number_char(s[j]) } else { is_word_char(s[j]) }) {
        lemma_run_end(s, j + 1, number);
    }
}

pub proof fn lemma_string_end(s: Seq<char>, j: int)
    requires
        0 <= j,
    ensures
        string_end(s, j) matches Some(e) ==> j < e <= s.len(),
    decreases s.len() - j,
{
    if 0 <= j < s.len() && s[j] != '"' {
        if s[j] == '\\' {
            if j + 1 < s.len() {
                lemma_string_end(s, j + 2);
            }
        } else {
            lemma_string_end(s, j + 1);
        }
    }
}

/// Closing a string depends only on the text from `j` up to the closing quote.
pub proof fn lemma_string_end_prefix(s: Seq<char>, j: int, n: int)
    requires
        0 <= j <= n <= s.len(),
        string_end(s, j) matches Some(e) && e <= n,
    ensures
        string_end(s.subrange(0, n), j) == string_end(s, j),
    decreases s.len() - j,
{
    let t = s.subrange(0, n);
    lemma_string_end(s, j);
    assert(t[j] == s[j]);
    if s[j] != '"' {
        if s[j] == '\\' {
            lemma_string_end(s, j + 2);
            lemma_string_end_prefix(s, j + 2, n);
        } else {
            lemma_string_end(s, j + 1);
            lemma_string_end_prefix(s, j + 1, n);
        }
    }
}

pub proof fn lemma_string_end_shift(s: Seq<char>, i: int, j: int)
    requires
        0 <= i <= j,
        i <= s.len(),
    ensures
        string_end(s.subrange(i, s.len() as int), j - i) == (match string_end(s, j) {
            Some(e) => Some(e - i),
            None => None::<int>,
        }),
    decreases s.len() - j,
{
    let sub = s.subrange(i, s.len() as int);
    if j < s.len() {
        assert(sub[j - i] == s[j]);
    }
    if j < s.len() && s[j] != '"' {
        if s[j] == '\\' {
            if j + 1 < s.len() {
                lemma_string_end_shift(s, i, j + 2);
            }
        } else {
            lemma_string_end_shift(s, i, j + 1);
        }
    }
}

/// A token found at `i` lies at `i`, is not empty, and is the text there.
pub proof fn lemma_next_token(s: Seq<char>, i: int)
    requires
        0 <= i < s.len(),
    ensures
        next_token(s, i) matches Ok(t) ==> {
            &&& t.offset == i
            &&& 0 < t.text.len()
            &&& i + t.text.len() <= s.len()
            &&& t.text == s.subrange(i, i + t.text.len())
            &&& fits_category(t.text, t.category)
        },
{
    reveal(next_token);
    reveal(fits_category);
    let c = s[i];
    if is_word_start(c) {
        lemma_run_end(s, i + 1, false);
        let e = run_end(s, i, false);
        let w = s.subrange(i, e);
        assert forall|k: int| 0 <= k < w.len() implies is_word_char(#[trigger] w[k]) by {
            if k > 0 {
                assert(w[k] == s[i + k]);
            }
        }
    } else if is_digit(c) {
        lemma_run_end(s, i + 1, true);
    } else if c == '"' {
        lemma_string_end(s, i + 1);
        if let Some(e) = string_end(s, i + 1) {
            let w = s.subrange(i, e);
            lemma_string_end_prefix(s, i + 1, e);
            lemma_string_end_shift(s.subrange(0, e), i, i + 1);
            assert(s.subrange(0, e).subrange(i, e) =~= w);
        }
    }
}

/// The tokens of `s` from `i` lie in order in `s`, each being the text at its offset
/// and fitting its category.
proof fn lemma_cons_laid_out(s: Seq<char>, i: int, t: TokenSpec, rest: Seq<TokenSpec>)
    requires
        t.offset == i,
        token_fits(s, t),
        forall|k: int| 0 <= k < rest.len() ==> t.offset + t.text.len() <= (#[trigger] rest[k]).offset,
        forall|k: int| 0 <= k < rest.len() ==> token_fits(s, #[trigger] rest[k]),
        forall|k: int| 0 < k < rest.len() ==> rest[k - 1].offset + rest[k - 1].text.len() <= (#[trigger] rest[k]).offset,
    ensures
        ({
            let v = seq![t] + rest;
            &&& forall|k: int| 0 <= k < v.len() ==> i <= (#[trigger] v[k]).offset
            &&& forall|k: int| 0 <= k < v.len() ==> token_fits(s, #[trigger] v[k])
            &&& forall|k: int| 0 < k < v.len() ==> v[k - 1].offset + v[k - 1].text.len() <= (#[trigger] v[k]).offset
        }),
{
    let v = seq![t] + rest;
    assert forall|k: int| 0 <= k < v.len() implies token_fits(s, #[trigger] v[k]) && i <= v[k].offset by {
        if k > 0 {
            assert(v[k] == rest[k - 1]);
        }
    }
    assert forall|k: int| 0 < k < v.len() implies v[k - 1].offset + v[k - 1].text.len() <= (#[trigger] v[k]).offset by {
        assert(v[k] == rest[k - 1]);
        if k > 1 {
            assert(v[k - 1] == rest[k - 2]);
        }
    }
}

#[verifier::spinoff_prover]
#[verifier::rlimit(100)]
pub proof fn lemma_lex_from(s: Seq<char>, i: int)
    requires
        0 <= i,
        lex_from(s, i) is Ok,
    ensures
        ({
            let v = lex_from(s, i)->Ok_0;
            &&& forall|k: int| 0 <= k < v.len() ==> i <= (#[trigger] v[k]).offset
            &&& forall|k: int| 0 <= k < v.len() ==> token_fits(s, #[trigger] v[k])
            &&& forall|k: int| 0 < k < v.len() ==> v[k - 1].offset + v[k - 1].text.len() <= (#[trigger] v[k]).offset
        }),
    decreases s.len() - i,
{
    if i < s.len() {
        if is_white(s[i]) {
            lemma_lex_from(s, i + 1);
        } else {
            lemma_next_token(s, i);
            let r = next_token(s, i);
            assert(r is Ok);
            let t = r->Ok_0;
            let e = i + t.text.len();
            assert(lex_from(s, i) == prepend(t, lex_from(s, e)));
            assert(lex_from(s, e) is Ok);
            lemma_lex_from(s, e);
            let rest = lex_from(s, e)->Ok_0;
            assert(lex_from(s, i)->Ok_0 == seq![t] + rest);
            lemma_cons_laid_out(s, i, t, rest);
        }
    }
}

/// A token that is the text of `s` at its offset and fits its category.
pub open spec fn token_fits(s: Seq<char>, t: TokenSpec) -> bool {
    &&& 0 < t.text.len()
    &&& t.offset + t.text.len() <= s.len()
    &&& t.text == s.subrange(t.offset as int, (t.offset + t.text.len()) as int)
    &&& fits_category(t.text, t.category)
}

/// A run of class characters from `j` up to `e`, where the class stops, ends at `e`.
proof fn lemma_run_end_at(s: Seq<char>, j: int, e: int, number: bool)
    requires
        0 <= j <= e <= s.len(),
        forall|k: int| j <= k < e ==> (if number { is_number_char(#[trigger] s[k]) } else { is_word_char(s[k]) }),
        e < s.len() ==> !(if number { is_number_char(s[e]) } else { is_word_char(s[e]) }),
    ensures
        run_end(s, j, number) == e,
    decreases e - j,
{
    if j < e {
        lemma_run_end_at(s, j + 1, e, number);
    }
}

/// A closing quote found in `t` is found at the same place when more text follows.
proof fn lemma_string_end_extend(t: Seq<char>, u: Seq<char>, j: int)
    requires
        0 <= j,
        string_end(t, j) is Some,
    ensures
        string_end(t + u, j) == string_end(t, j),
    decreases t.len() - j,
{
    assert((t + u)[j] == t[j]);
    if t[j] != '"' {
        if t[j] == '\\' {
            assert((t + u)[j + 1] == t[j + 1]);
            lemma_string_end_extend(t, u, j + 2);
        } else {
            lemma_string_end_extend(t, u, j + 1);
        }
    }
}

proof fn lemma_keyword_is_word(w: Seq<char>)
    requires
        is_keyword(w),
    ensures
        w.len() > 0 && is_word_start(w[0]),
        forall|k: int| 0 <= k < w.len() ==> is_word_char(#[trigger] w[k]),
{
    reveal(is_keyword);
}

/// A lexeme of some category, followed by whitespace, is read as one token of its length.
proof fn lemma_lexeme_then_space(s: Seq<char>, i: int, l: Seq<char>, c: TokenCategory)
    requires
        0 <= i,
        i + l.len() < s.len(),
        s.subrange(i, i + l.len()) == l,
        is_white(s[i + l.len()]),
        fits_category(l, c),
    ensures
        next_token(s, i) matches Ok(t) && t.text.len() == l.len(),
{
    reveal(next_token);
    reveal(fits_category);
    let e = i + l.len();
    assert forall|k: int| 0 <= k < l.len() implies s[i + k] == #[trigger] l[k] by {
        assert(s.subrange(i, e)[k] == s[i + k]);
    }
    assert(l.len() > 0) by {
        if c == TokenCategory::Keyword {
            lemma_keyword_is_word(l);
        }
        if c == TokenCategory::NumericConstant {
            assert(number_body(l).len() <= l.len());
        }
    }
    assert(s[i] == l[0]);
    match c {
        TokenCategory::Keyword | TokenCategory::Identifier => {
            if c == TokenCategory::Keyword {
                lemma_keyword_is_word(l);
            }
            assert forall|k: int| i + 1 <= k < e implies is_word_char(#[trigger] s[k]) by {
                assert(s[k] == l[k - i]);
            }
            lemma_run_end_at(s, i + 1, e, false);
            assert(run_end(s, i, false) == e);
        },
        TokenCategory::NumericConstant => {
            let body = number_body(l);
            assert forall|k: int| i <= k < e implies is_number_char(#[trigger] s[k]) by {
                assert(s[k] == l[k - i]);
                if k - i < body.len() {
                    assert(body[k - i] == l[k - i]);
                }
            }
            assert(is_digit(body[0]));
            assert(body[0] == l[0]);
            lemma_run_end_at(s, i + 1, e, true);
            assert(run_end(s, i, true) == e);
        },
        TokenCategory::StringLiteral => {
            let rest = s.subrange(e, s.len() as int);
            lemma_string_end_extend(l, rest, 1);
            assert(s.subrange(i, s.len() as int) =~= l + rest);
            lemma_string_end_shift(s, i, i + 1);
        },
        TokenCategory::Operator => {
            if l.len() == 2 {
                assert(s[i + 1] == l[1]);
            }
        },
        TokenCategory::Separator => {},
    }
}

/// A lexeme of one of the six categories.
pub open spec fn is_lexeme(l: Seq<char>) -> bool {
    exists|c: TokenCategory| fits_category(l, c)
}

/// Lexemes, each followed by its own run of whitespace.
pub open spec fn separated(ls: Seq<Seq<char>>, gaps: Seq<Seq<char>>) -> Seq<char>
    decreases ls.len(),
{
    if ls.len() == 0 || gaps.len() == 0 {
        Seq::empty()
    } else {
        ls[0] + gaps[0] + separated(ls.drop_first(), gaps.drop_first())
    }
}

/// A run of whitespace that is not empty.
pub open spec fn is_gap(g: Seq<char>) -> bool {
    g.len() > 0 && forall|k: int| 0 <= k < g.len() ==> is_white(#[trigger] g[k])
}

proof fn lemma_skip_white(s: Seq<char>, i: int, j: int)
    requires
        0 <= i <= j <= s.len(),
        forall|k: int| i <= k < j ==> is_white(#[trigger] s[k]),
    ensures
        lex_from(s, i) == lex_from(s, j),
    decreases j - i,
{
    if i < j {
        lemma_skip_white(s, i + 1, j);
    }
}

proof fn lemma_separated_lexes(s: Seq<char>, i: int, ls: Seq<Seq<char>>, gaps: Seq<Seq<char>>)
    requires
        0 <= i <= s.len(),
        ls.len() == gaps.len(),
        s.subrange(i, s.len() as int) == separated(ls, gaps),
        forall|k: int| 0 <= k < ls.len() ==> is_lexeme(#[trigger] ls[k]),
        forall|k: int| 0 <= k < gaps.len() ==> is_gap(#[trigger] gaps[k]),
    ensures
        lex_from(s, i) is Ok,
    decreases ls.len(),
{
    if ls.len() > 0 {
        let l = ls[0];
        let g = gaps[0];
        let rest = ls.drop_first();
        let grest = gaps.drop_first();
        let e = i + l.len();
        let f = e + g.len();
        let tail = s.subrange(i, s.len() as int);
        assert(is_gap(gaps[0]));
        assert(tail == l + g + separated(rest, grest));
        assert(tail.len() == l.len() + g.len() + separated(rest, grest).len());
        assert(s.subrange(i, e) =~= tail.subrange(0, l.len() as int));
        assert(tail.subrange(0, l.len() as int) =~= l);
        assert forall|k: int| e <= k < f implies is_white(#[trigger] s[k]) by {
            assert(s[k] == tail[k - i]);
            assert(tail[k - i] == g[k - e]);
        }
        assert(is_lexeme(ls[0]));
        let c = choose|c: TokenCategory| fits_category(ls[0], c);
        assert(is_white(s[e]));
        lemma_lexeme_then_space(s, i, l, c);
        assert(s.subrange(f, s.len() as int) =~= tail.subrange(f - i, tail.len() as int));
        assert(tail.subrange(f - i, tail.len() as int) =~= separated(rest, grest));
        assert forall|k: int| 0 <= k < rest.len() implies is_lexeme(#[trigger] rest[k]) by {
            assert(rest[k] == ls[k + 1]);
        }
        assert forall|k: int| 0 <= k < grest.len() implies is_gap(#[trigger] grest[k]) by {
            assert(grest[k] == gaps[k + 1]);
        }
        lemma_separated_lexes(s, f, rest, grest);
        lemma_skip_white(s, e, f);
        assert(!is_white(s[i])) by {
            reveal(fits_category);
            if c == TokenCategory::Keyword {
                lemma_keyword_is_word(l);
            }
            if c == TokenCategory::NumericConstant {
                assert(number_body(l)[0] == l[0]);
            }
            assert(s[i] == l[0]);
        }
        let t = next_token(s, i)->Ok_0;
        assert(t.text.len() == l.len());
        assert(lex_from(s, i) == prepend(t, lex_from(s, e)));
        assert(prepend(t, lex_from(s, e)) is Ok);
    } else {
        assert(s.subrange(i, s.len() as int).len() == 0);
    }
}

/// Text made only of lexemes of the six categories, each followed by whitespace, is
/// classified without error, and every token it gives fits its category.
pub proof fn lemma_lexemes_classify(ls: Seq<Seq<char>>, gaps: Seq<Seq<char>>)
    requires
        ls.len() == gaps.len(),
        forall|k: int| 0 <= k < ls.len() ==> is_lexeme(#[trigger] ls[k]),
        forall|k: int| 0 <= k < gaps.len() ==> is_gap(#[trigger] gaps[k]),
    ensures
        lex_from(separated(ls, gaps), 0) is Ok,
        forall|k: int| 0 <= k < lex_from(separated(ls, gaps), 0)->Ok_0.len() ==> fits_category(
            (#[trigger] lex_from(separated(ls, gaps), 0)->Ok_0[k]).text,
            lex_from(separated(ls, gaps), 0)->Ok_0[k].category,
        ),
{
    let s = separated(ls, gaps);
    assert(s.subrange(0, s.len() as int) =~= s);
    lemma_separated_lexes(s, 0, ls, gaps);
    lemma_lex_from(s, 0);
}

} // verus!
