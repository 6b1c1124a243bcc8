//! The executable scanner.
//!
//! [`tokenize_input`] walks the input characters in one forward pass with one
//! character of lookahead and returns the token sequence, or the first fatal
//! lexical error.  Its contract says that the result is exactly what the
//! ghost scanner [`crate::model::scan_from`] describes.

use vstd::prelude::*;

use crate::model::{
    all_digits, digit_val, digits_value, dot_count, is_digit_char, is_lower_letter, is_number_char,
    is_space_char, is_upper_letter, is_word_char, keyword_token, lemma_num_end_bounds,
    lemma_step_at_bounds, lemma_word_end_bounds, line_end, num_end, number_token, quote_end,
    scan_from, step_at, word_end, LexErrorModel, Step, TokenModel,
};

verus! {

/// A classified minimal unit of source text.  Literal payloads carry the
/// lexeme: an identifier or string literal carries its text, an integer
/// literal its value, and a floating-point literal the exact digit-and-dot
/// text it was scanned from.
#[derive(Debug, PartialEq, Eq)]
pub enum Token {
    IDENTIFIER(String),
    STRINGLITERAL(String),
    FPLITERAL(String),
    DIGITLITERAL(i128),
    ADD,
    DOT,
    DOUBLEDOT,
    SUBTRACT,
    MULTIPLY,
    DIVIDE,
    EXPONENT,
    COMMA,
    BITSLEFT,
    BITSRIGHT,
    EQUALS,
    LESSTHAN,
    GREATERTHAN,
    OPENPARENTHESES,
    CLOSEPARENTHESES,
    OPENBRACE,
    CLOSEBRACE,
    OPENBRACKET,
    CLOSEBRACKET,
    SEMICOLON,
    NEGATION,
    NOTEQUALS,
    DOUBLEEQUALS,
    GREATEREQUALS,
    LESSEQUALS,
    AND,
    OR,
    XOR,
    BITWISEAND,
    BITWISEOR,
    INVALID,
    DIGIT,
    FLOAT,
    STRING,
    LET,
    VAR,
    PUT,
    IF,
    ELSE,
    UNTIL,
    WHILE,
    FOR,
    BREAK,
    CONTINUE,
    FUNC,
    IN,
    INF,
    NIL,
}

impl View for Token {
    type V = TokenModel;

    open spec fn view(&self) -> TokenModel {
        match self {
            Token::IDENTIFIER(s) => TokenModel::Identifier(s@),
            Token::STRINGLITERAL(s) => TokenModel::StringLiteral(s@),
            Token::FPLITERAL(s) => TokenModel::FpLiteral(s@),
            Token::DIGITLITERAL(v) => TokenModel::DigitLiteral(*v as int),
            Token::ADD => TokenModel::Add,
            Token::DOT => TokenModel::Dot,
            Token::DOUBLEDOT => TokenModel::DoubleDot,
            Token::SUBTRACT => TokenModel::Subtract,
            Token::MULTIPLY => TokenModel::Multiply,
            Token::DIVIDE => TokenModel::Divide,
            Token::EXPONENT => TokenModel::Exponent,
            Token::COMMA => TokenModel::Comma,
            Token::BITSLEFT => TokenModel::BitsLeft,
            Token::BITSRIGHT => TokenModel::BitsRight,
            Token::EQUALS => TokenModel::Equals,
            Token::LESSTHAN => TokenModel::LessThan,
            Token::GREATERTHAN => TokenModel::GreaterThan,
            Token::OPENPARENTHESES => TokenModel::OpenParentheses,
            Token::CLOSEPARENTHESES => TokenModel::CloseParentheses,
            Token::OPENBRACE => TokenModel::OpenBrace,
            Token::CLOSEBRACE => TokenModel::CloseBrace,
            Token::OPENBRACKET => TokenModel::OpenBracket,
            Token::CLOSEBRACKET => TokenModel::CloseBracket,
            Token::SEMICOLON => TokenModel::Semicolon,
            Token::NEGATION => TokenModel::Negation,
            Token::NOTEQUALS => TokenModel::NotEquals,
            Token::DOUBLEEQUALS => TokenModel::DoubleEquals,
            Token::GREATEREQUALS => TokenModel::GreaterEquals,
            Token::LESSEQUALS => TokenModel::LessEquals,
            Token::AND => TokenModel::And,
            Token::OR => TokenModel::Or,
            Token::XOR => TokenModel::Xor,
            Token::BITWISEAND => TokenModel::BitwiseAnd,
            Token::BITWISEOR => TokenModel::BitwiseOr,
            Token::INVALID => TokenModel::Invalid,
            Token::DIGIT => TokenModel::KwDigit,
            Token::FLOAT => TokenModel::KwFloat,
            Token::STRING => TokenModel::KwString,
            Token::LET => TokenModel::KwLet,
            Token::VAR => TokenModel::KwVar,
            Token::PUT => TokenModel::KwPut,
            Token::IF => TokenModel::KwIf,
            Token::ELSE => TokenModel::KwElse,
            Token::UNTIL => TokenModel::KwUntil,
            Token::WHILE => TokenModel::KwWhile,
            Token::FOR => TokenModel::KwFor,
            Token::BREAK => TokenModel::KwBreak,
            Token::CONTINUE => TokenModel::KwContinue,
            Token::FUNC => TokenModel::KwFunc,
            Token::IN => TokenModel::KwIn,
            Token::INF => TokenModel::KwInf,
            Token::NIL => TokenModel::KwNil,
        }
    }
}

/// A fatal lexical error: the scan found the opening of a string or comment
/// whose end never comes, so it cannot tell where the lexeme ends.  The
/// payload is the offset of the construct's first character.
#[derive(Debug, PartialEq, Eq)]
pub enum LexError {
    UnterminatedString(usize),
    UnterminatedComment(usize),
}

impl View for LexError {
    type V = LexErrorModel;

    open spec fn view(&self) -> LexErrorModel {
        match self {
            LexError::UnterminatedString(i) => LexErrorModel::UnterminatedString(*i as int),
            LexError::UnterminatedComment(i) => LexErrorModel::UnterminatedComment(*i as int),
        }
    }
}

/// The token sequence a vector of tokens stands for.
pub open spec fn abstract_tokens(ts: Seq<Token>) -> Seq<TokenModel> {
    ts.map_values(|t: Token| t@)
}

/// The scan outcome an executable result stands for.
pub open spec fn result_model(r: Result<Vec<Token>, LexError>) -> Result<
    Seq<TokenModel>,
    LexErrorModel,
> {
    match r {
        Ok(ts) => Ok(abstract_tokens(ts@)),
        Err(e) => Err(e@),
    }
}

/// Full contract of the scanner: the outcome is exactly the one the ghost
/// scan describes — the same tokens in the same order on success, the same
/// first fatal error on failure.
pub open spec fn tokenize_post(
    input: Seq<char>,
    r: Result<Seq<TokenModel>, LexErrorModel>,
) -> bool {
    r == scan_from(input, 0)
}

/// Loop invariant of the scan: the tokens emitted so far, followed by
/// whatever the ghost scan yields from the current cursor, make up the whole
/// scan's outcome.
pub open spec fn scan_prefix(s: Seq<char>, done: Seq<TokenModel>, i: int) -> bool {
    &&& 0 <= i <= s.len()
    &&& match scan_from(s, i) {
        Ok(rest) => scan_from(s, 0) == Ok::<Seq<TokenModel>, LexErrorModel>(done + rest),
        Err(err) => scan_from(s, 0) == Err::<Seq<TokenModel>, LexErrorModel>(err),
    }
}

proof fn lemma_prefix_emit(s: Seq<char>, done: Seq<TokenModel>, i: int, t: TokenModel, next: int)
    requires
        scan_prefix(s, done, i),
        i < s.len(),
        step_at(s, i) == (Step::Emit { t, next }),
    ensures
        scan_prefix(s, done.push(t), next),
{
    lemma_step_at_bounds(s, i);
    match scan_from(s, next) {
        Ok(rest) => {
            assert(scan_from(s, i) == Ok::<Seq<TokenModel>, LexErrorModel>(seq![t] + rest));
            assert(done + (seq![t] + rest) =~= done.push(t) + rest);
        },
        Err(err) => {
            assert(scan_from(s, i) == Err::<Seq<TokenModel>, LexErrorModel>(err));
        },
    }
}

proof fn lemma_prefix_skip(s: Seq<char>, done: Seq<TokenModel>, i: int, next: int)
    requires
        scan_prefix(s, done, i),
        i < s.len(),
        step_at(s, i) == (Step::Skip { next }),
    ensures
        scan_prefix(s, done, next),
{
    lemma_step_at_bounds(s, i);
    assert(scan_from(s, i) == scan_from(s, next));
}

proof fn lemma_prefix_fail(s: Seq<char>, done: Seq<TokenModel>, i: int, err: LexErrorModel)
    requires
        scan_prefix(s, done, i),
        i < s.len(),
        step_at(s, i) == (Step::Fail { err }),
    ensures
        scan_from(s, 0) == Err::<Seq<TokenModel>, LexErrorModel>(err),
{
    assert(scan_from(s, i) == Err::<Seq<TokenModel>, LexErrorModel>(err));
}

// ---------------------------------------------------------------------------
// Character-class tests
// ---------------------------------------------------------------------------

fn is_lower(c: char) -> (b: bool)
    ensures
        b == is_lower_letter(c),
{
    let u: u32 = c as u32;
    97 <= u && u <= 122
}

fn is_upper(c: char) -> (b: bool)
    ensures
        b == is_upper_letter(c),
{
    let u: u32 = c as u32;
    65 <= u && u <= 90
}

fn is_digit(c: char) -> (b: bool)
    ensures
        b == is_digit_char(c),
{
    let u: u32 = c as u32;
    48 <= u && u <= 57
}

fn is_word(c: char) -> (b: bool)
    ensures
        b == is_word_char(c),
{
    is_lower(c) || is_upper(c) || is_digit(c)
}

fn is_number(c: char) -> (b: bool)
    ensures
        b == is_number_char(c),
{
    is_digit(c) || c == '.'
}

fn is_space(c: char) -> (b: bool)
    ensures
        b == is_space_char(c),
{
    let u: u32 = c as u32;
    u == 0x09 || u == 0x0A || u == 0x0B || u == 0x0C || u == 0x0D || u == 0x20 || u == 0x85
        || u == 0xA0 || u == 0x1680 || (0x2000 <= u && u <= 0x200A) || u == 0x2028 || u == 0x2029
        || u == 0x202F || u == 0x205F || u == 0x3000
}

// ---------------------------------------------------------------------------
// Run scanners
// ---------------------------------------------------------------------------

/// Relies on String's `FromIterator<char>` implementation, through
/// `Iterator::collect`: the collected string holds exactly the characters of
/// the vector, in order.
#[verifier::external_body]
fn chars_to_string(v: &Vec<char>) -> (s: String)
    ensures
        s@ == v@,
{
    v.iter().collect()
}

/// Collects the identifier run starting at `start`: the characters up to
/// the first non-word character, and the position right after them.
fn scan_word(input: &Vec<char>, start: usize) -> (res: (Vec<char>, usize))
    requires
        start <= input@.len(),
    ensures
        res.1 as int == word_end(input@, start as int),
        res.0@ == input@.subrange(start as int, res.1 as int),
{
    let n: usize = input.len();
    let mut j: usize = start;
    let mut buf: Vec<char> = Vec::new();
    while j < n && is_word(input[j])
        invariant
            start <= j <= n,
            n == input@.len(),
            word_end(input@, start as int) == word_end(input@, j as int),
            buf@ == input@.subrange(start as int, j as int),
        decreases n - j,
    {
        buf.push(input[j]);
        j = j + 1;
        proof {
            assert(input@.subrange(start as int, j as int) =~= input@.subrange(
                start as int,
                j - 1,
            ).push(input@[j - 1]));
        }
    }
    (buf, j)
}

/// Collects the numeric run starting at `start`: digits and decimal points
/// up to the first other character, and the position right after them.
fn scan_number(input: &Vec<char>, start: usize) -> (res: (Vec<char>, usize))
    requires
        start <= input@.len(),
    ensures
        res.1 as int == num_end(input@, start as int),
        res.0@ == input@.subrange(start as int, res.1 as int),
{
    let n: usize = input.len();
    let mut j: usize = start;
    let mut buf: Vec<char> = Vec::new();
    while j < n && is_number(input[j])
        invariant
            start <= j <= n,
            n == input@.len(),
            num_end(input@, start as int) == num_end(input@, j as int),
            buf@ == input@.subrange(start as int, j as int),
        decreases n - j,
    {
        buf.push(input[j]);
        j = j + 1;
        proof {
            assert(input@.subrange(start as int, j as int) =~= input@.subrange(
                start as int,
                j - 1,
            ).push(input@[j - 1]));
        }
    }
    (buf, j)
}

// ---------------------------------------------------------------------------
// Keyword lookup
// ---------------------------------------------------------------------------

/// The keyword table: the token for a reserved word, or `None` for any
/// other word.
fn keyword_lookup(w: &Vec<char>) -> (r: Option<Token>)
    ensures
        match r {
            Some(t) => keyword_token(w@) == Some(t@),
            None => keyword_token(w@) is None,
        },
{
    let n: usize = w.len();
    if n == 5 && w[0] == 'd' && w[1] == 'i' && w[2] == 'g' && w[3] == 'i' && w[4] == 't' {
        Some(Token::DIGIT)
    } else if n == 5 && w[0] == 'f' && w[1] == 'l' && w[2] == 'o' && w[3] == 'a' && w[4] == 't' {
        Some(Token::FLOAT)
    } else if n == 6 && w[0] == 's' && w[1] == 't' && w[2] == 'r' && w[3] == 'i' && w[4] == 'n'
        && w[5] == 'g' {
        Some(Token::STRING)
    } else if n == 3 && w[0] == 'l' && w[1] == 'e' && w[2] == 't' {
        Some(Token::LET)
    } else if n == 3 && w[0] == 'v' && w[1] == 'a' && w[2] == 'r' {
        Some(Token::VAR)
    } else if n == 2 && w[0] == 'i' && w[1] == 'f' {
        Some(Token::IF)
    } else if n == 4 && w[0] == 'e' && w[1] == 'l' && w[2] == 's' && w[3] == 'e' {
        Some(Token::ELSE)
    } else if n == 3 && w[0] == 'f' && w[1] == 'o' && w[2] == 'r' {
        Some(Token::FOR)
    } else if n == 5 && w[0] == 'w' && w[1] == 'h' && w[2] == 'i' && w[3] == 'l' && w[4] == 'e' {
        Some(Token::WHILE)
    } else if n == 5 && w[0] == 'b' && w[1] == 'r' && w[2] == 'e' && w[3] == 'a' && w[4] == 'k' {
        Some(Token::BREAK)
    } else if n == 3 && w[0] == 'p' && w[1] == 'u' && w[2] == 't' {
        Some(Token::PUT)
    } else if n == 5 && w[0] == 'u' && w[1] == 'n' && w[2] == 't' && w[3] == 'i' && w[4] == 'l' {
        Some(Token::UNTIL)
    } else if n == 8 && w[0] == 'c' && w[1] == 'o' && w[2] == 'n' && w[3] == 't' && w[4] == 'i'
        && w[5] == 'n' && w[6] == 'u' && w[7] == 'e' {
        Some(Token::CONTINUE)
    } else if n == 4 && w[0] == 'f' && w[1] == 'u' && w[2] == 'n' && w[3] == 'c' {
        Some(Token::FUNC)
    } else if n == 2 && w[0] == 'i' && w[1] == 'n' {
        Some(Token::IN)
    } else if n == 3 && w[0] == 'i' && w[1] == 'n' && w[2] == 'f' {
        Some(Token::INF)
    } else if n == 3 && w[0] == 'n' && w[1] == 'i' && w[2] == 'l' {
        Some(Token::NIL)
    } else {
        None
    }
}

// ---------------------------------------------------------------------------
// Numeric literals
// ---------------------------------------------------------------------------

proof fn lemma_digits_value_nonneg(s: Seq<char>)
    requires
        all_digits(s),
    ensures
        digits_value(s) >= 0,
    decreases s.len(),
{
    if s.len() > 0 {
        assert(all_digits(s.drop_last()));
        lemma_digits_value_nonneg(s.drop_last());
        assert(digit_val(s.last()) >= 0);
    }
}

proof fn lemma_all_digits_no_dots(s: Seq<char>)
    requires
        all_digits(s),
    ensures
        dot_count(s) == 0,
    decreases s.len(),
{
    if s.len() > 0 {
        assert(all_digits(s.drop_last()));
        lemma_all_digits_no_dots(s.drop_last());
        assert(is_digit_char(s.last()));
        assert(s.last() != '.');
    }
}

/// The value of a digit string is at least the value of any of its prefixes:
/// appending digits never shrinks it.
proof fn lemma_digits_prefix_le(s: Seq<char>, j: int)
    requires
        all_digits(s),
        0 <= j <= s.len(),
    ensures
        digits_value(s.subrange(0, j)) <= digits_value(s),
    decreases s.len() - j,
{
    if j < s.len() {
        let p = s.subrange(0, j);
        let q = s.subrange(0, j + 1);
        assert(q.drop_last() =~= p);
        assert(all_digits(p));
        lemma_digits_value_nonneg(p);
        assert(digits_value(q) == digits_value(p) * 10 + digit_val(q.last()));
        assert(digits_value(p) * 10 >= digits_value(p));
        lemma_digits_prefix_le(s, j + 1);
        assert(s.subrange(0, s.len() as int) =~= s);
    } else {
        assert(s.subrange(0, j) =~= s);
    }
}

/// Reads a pure digit string as a signed 128-bit integer, exactly as far as
/// the value fits: `None` exactly when the value exceeds the type's maximum.
fn parse_i128(buf: &Vec<char>) -> (r: Option<i128>)
    requires
        all_digits(buf@),
    ensures
        match r {
            Some(v) => v as int == digits_value(buf@) && digits_value(buf@) <= i128::MAX as int,
            None => digits_value(buf@) > i128::MAX as int,
        },
{
    let m: usize = buf.len();
    let limit: u128 = (i128::MAX as u128) / 10;
    let mut k: usize = 0;
    let mut acc: u128 = 0;
    while k < m
        invariant
            k <= m,
            m == buf@.len(),
            all_digits(buf@),
            limit == (i128::MAX as u128) / 10,
            acc <= i128::MAX as u128,
            acc as int == digits_value(buf@.subrange(0, k as int)),
        decreases m - k,
    {
        let c = buf[k];
        assert(is_digit_char(buf@[k as int]));
        let d: u32 = (c as u32) - 48;
        proof {
            assert(buf@.subrange(0, k + 1).drop_last() =~= buf@.subrange(0, k as int));
            assert(buf@.subrange(0, k + 1).last() == buf@[k as int]);
        }
        if acc > limit || (acc == limit && d > 7) {
            proof {
                assert(digits_value(buf@.subrange(0, k + 1)) == acc * 10 + d);
                assert(digits_value(buf@.subrange(0, k + 1)) > i128::MAX as int);
                lemma_digits_prefix_le(buf@, k + 1);
            }
            return None;
        }
        acc = acc * 10 + (d as u128);
        k = k + 1;
    }
    proof {
        assert(buf@.subrange(0, m as int) =~= buf@);
    }
    Some(acc as i128)
}

/// Classifies a completed numeric run, trying the integer reading first,
/// then the floating-point one, and falling back to the invalid marker.
fn classify_number(buf: &Vec<char>) -> (t: Token)
    ensures
        t@ == number_token(buf@),
{
    let m: usize = buf.len();
    let mut k: usize = 0;
    let mut dots: usize = 0;
    let mut alldig: bool = true;
    while k < m
        invariant
            k <= m,
            m == buf@.len(),
            dots <= k,
            alldig == all_digits(buf@.subrange(0, k as int)),
            dots as int == dot_count(buf@.subrange(0, k as int)),
        decreases m - k,
    {
        let c = buf[k];
        proof {
            assert(buf@.subrange(0, k + 1).drop_last() =~= buf@.subrange(0, k as int));
            assert(buf@.subrange(0, k + 1).last() == buf@[k as int]);
        }
        if !is_digit(c) {
            alldig = false;
            if c == '.' {
                dots = dots + 1;
            }
        }
        proof {
            if alldig {
                assert(all_digits(buf@.subrange(0, k + 1))) by {
                    assert(forall|x: int|
                        0 <= x < k + 1 ==> is_digit_char(
                            #[trigger] buf@.subrange(0, k + 1)[x],
                        ));
                }
            } else {
                assert(!all_digits(buf@.subrange(0, k + 1)));
            }
        }
        k = k + 1;
    }
    proof {
        assert(buf@.subrange(0, m as int) =~= buf@);
    }
    if alldig {
        match parse_i128(buf) {
            Some(v) => Token::DIGITLITERAL(v),
            None => {
                proof {
                    lemma_all_digits_no_dots(buf@);
                }
                Token::FPLITERAL(chars_to_string(buf))
            },
        }
    } else {
        if dots <= 1 {
            Token::FPLITERAL(chars_to_string(buf))
        } else {
            Token::INVALID
        }
    }
}

// ---------------------------------------------------------------------------
// The scanner
// ---------------------------------------------------------------------------

/// Appends the token the current step emits and re-establishes the scan
/// invariant at the step's successor position.
fn push_token(tokens: &mut Vec<Token>, input: &Vec<char>, cursor: usize, tok: Token, next: usize)
    requires
        cursor < input@.len(),
        scan_prefix(input@, abstract_tokens(old(tokens)@), cursor as int),
        step_at(input@, cursor as int) == (Step::Emit { t: tok@, next: next as int }),
    ensures
        scan_prefix(input@, abstract_tokens(final(tokens)@), next as int),
{
    let ghost tv = tok@;
    proof {
        lemma_prefix_emit(input@, abstract_tokens(tokens@), cursor as int, tv, next as int);
    }
    tokens.push(tok);
    proof {
        assert(abstract_tokens(tokens@) =~= abstract_tokens(old(tokens)@).push(tv));
    }
}

/// Scans the whole input in one forward pass and returns its token
/// sequence, or the first fatal lexical error.
///
/// The scan is total over recoverable faults: an unrecognized non-whitespace
/// character or an unparseable numeric run becomes an `INVALID` token and
/// the scan continues.  Only an unterminated string or comment stops it,
/// with the construct's start offset.  The contract pins the outcome to the
/// ghost scan [`scan_from`], token by token.
pub fn tokenize_input(file_contents: Vec<char>) -> (r: Result<Vec<Token>, LexError>)
    ensures
        tokenize_post(file_contents@, result_model(r)),
{
    let n: usize = file_contents.len();
    let mut tokens: Vec<Token> = Vec::new();
    let mut cursor: usize = 0;
    proof {
        assert(abstract_tokens(tokens@) =~= Seq::<TokenModel>::empty());
        match scan_from(file_contents@, 0) {
            Ok(rest) => {
                assert(Seq::<TokenModel>::empty() + rest =~= rest);
            },
            Err(err) => {},
        }
    }
    while cursor < n
        invariant
            n == file_contents@.len(),
            scan_prefix(file_contents@, abstract_tokens(tokens@), cursor as int),
        decreases n - cursor,
    {
        let c: char = file_contents[cursor];
        if c == ';' {
            push_token(&mut tokens, &file_contents, cursor, Token::SEMICOLON, cursor + 1);
            cursor = cursor + 1;
        } else if c == ',' {
            push_token(&mut tokens, &file_contents, cursor, Token::COMMA, cursor + 1);
            cursor = cursor + 1;
        } else if c == '+' {
            push_token(&mut tokens, &file_contents, cursor, Token::ADD, cursor + 1);
            cursor = cursor + 1;
        } else if c == '-' {
            push_token(&mut tokens, &file_contents, cursor, Token::SUBTRACT, cursor + 1);
            cursor = cursor + 1;
        } else if c == '^' {
            push_token(&mut tokens, &file_contents, cursor, Token::XOR, cursor + 1);
            cursor = cursor + 1;
        } else if c == '(' {
            push_token(&mut tokens, &file_contents, cursor, Token::OPENPARENTHESES, cursor + 1);
            cursor = cursor + 1;
        } else if c == ')' {
            push_token(&mut tokens, &file_contents, cursor, Token::CLOSEPARENTHESES, cursor + 1);
            cursor = cursor + 1;
        } else if c == '{' {
            push_token(&mut tokens, &file_contents, cursor, Token::OPENBRACE, cursor + 1);
            cursor = cursor + 1;
        } else if c == '}' {
            push_token(&mut tokens, &file_contents, cursor, Token::CLOSEBRACE, cursor + 1);
            cursor = cursor + 1;
        } else if c == '[' {
            push_token(&mut tokens, &file_contents, cursor, Token::OPENBRACKET, cursor + 1);
            cursor = cursor + 1;
        } else if c == ']' {
            push_token(&mut tokens, &file_contents, cursor, Token::CLOSEBRACKET, cursor + 1);
            cursor = cursor + 1;
        } else if c == '*' {
            if cursor + 1 < n && file_contents[cursor + 1] == '*' {
                push_token(&mut tokens, &file_contents, cursor, Token::EXPONENT, cursor + 2);
                cursor = cursor + 2;
            } else {
                push_token(&mut tokens, &file_contents, cursor, Token::MULTIPLY, cursor + 1);
                cursor = cursor + 1;
            }
        } else if c == '=' {
            if cursor + 1 < n && file_contents[cursor + 1] == '=' {
                push_token(&mut tokens, &file_contents, cursor, Token::DOUBLEEQUALS, cursor + 2);
                cursor = cursor + 2;
            } else {
                push_token(&mut tokens, &file_contents, cursor, Token::EQUALS, cursor + 1);
                cursor = cursor + 1;
            }
        } else if c == '/' {
            if cursor + 1 < n && file_contents[cursor + 1] == '/' {
                let mut j: usize = cursor + 2;
                while j < n && file_contents[j] != '\n'
                    invariant
                        cursor + 2 <= j <= n,
                        n == file_contents@.len(),
                        line_end(file_contents@, cursor as int + 2) == line_end(
                            file_contents@,
                            j as int,
                        ),
                    decreases n - j,
                {
                    j = j + 1;
                }
                if j < n {
                    proof {
                        lemma_prefix_skip(
                            file_contents@,
                            abstract_tokens(tokens@),
                            cursor as int,
                            j as int + 1,
                        );
                    }
                    cursor = j + 1;
                } else {
                    proof {
                        lemma_prefix_fail(
                            file_contents@,
                            abstract_tokens(tokens@),
                            cursor as int,
                            LexErrorModel::UnterminatedComment(cursor as int),
                        );
                    }
                    return Err(LexError::UnterminatedComment(cursor));
                }
            } else {
                push_token(&mut tokens, &file_contents, cursor, Token::DIVIDE, cursor + 1);
                cursor = cursor + 1;
            }
        } else if c == '>' {
            if cursor + 1 < n && file_contents[cursor + 1] == '=' {
                push_token(&mut tokens, &file_contents, cursor, Token::GREATEREQUALS, cursor + 2);
                cursor = cursor + 2;
            } else if cursor + 1 < n && file_contents[cursor + 1] == '>' {
                push_token(&mut tokens, &file_contents, cursor, Token::BITSRIGHT, cursor + 2);
                cursor = cursor + 2;
            } else {
                push_token(&mut tokens, &file_contents, cursor, Token::GREATERTHAN, cursor + 1);
                cursor = cursor + 1;
            }
        } else if c == '<' {
            if cursor + 1 < n && file_contents[cursor + 1] == '=' {
                push_token(&mut tokens, &file_contents, cursor, Token::LESSEQUALS, cursor + 2);
                cursor = cursor + 2;
            } else if cursor + 1 < n && file_contents[cursor + 1] == '<' {
                push_token(&mut tokens, &file_contents, cursor, Token::BITSLEFT, cursor + 2);
                cursor = cursor + 2;
            } else {
                push_token(&mut tokens, &file_contents, cursor, Token::LESSTHAN, cursor + 1);
                cursor = cursor + 1;
            }
        } else if c == '!' {
            if cursor + 1 < n && file_contents[cursor + 1] == '=' {
                push_token(&mut tokens, &file_contents, cursor, Token::NOTEQUALS, cursor + 2);
                cursor = cursor + 2;
            } else {
                push_token(&mut tokens, &file_contents, cursor, Token::NEGATION, cursor + 1);
                cursor = cursor + 1;
            }
        } else if c == '&' {
            if cursor + 1 < n && file_contents[cursor + 1] == '&' {
                push_token(&mut tokens, &file_contents, cursor, Token::AND, cursor + 2);
                cursor = cursor + 2;
            } else {
                push_token(&mut tokens, &file_contents, cursor, Token::BITWISEAND, cursor + 1);
                cursor = cursor + 1;
            }
        } else if c == '|' {
            if cursor + 1 < n && file_contents[cursor + 1] == '|' {
                push_token(&mut tokens, &file_contents, cursor, Token::OR, cursor + 2);
                cursor = cursor + 2;
            } else {
                push_token(&mut tokens, &file_contents, cursor, Token::BITWISEOR, cursor + 1);
                cursor = cursor + 1;
            }
        } else if c == '.' {
            if cursor + 1 < n && file_contents[cursor + 1] == '.' {
                push_token(&mut tokens, &file_contents, cursor, Token::DOUBLEDOT, cursor + 2);
                cursor = cursor + 2;
            } else {
                push_token(&mut tokens, &file_contents, cursor, Token::DOT, cursor + 1);
                cursor = cursor + 1;
            }
        } else if c == '"' {
            let mut j: usize = cursor + 1;
            let mut buf: Vec<char> = Vec::new();
            while j < n && file_contents[j] != '"'
                invariant
                    cursor + 1 <= j <= n,
                    n == file_contents@.len(),
                    quote_end(file_contents@, cursor as int + 1) == quote_end(
                        file_contents@,
                        j as int,
                    ),
                    buf@ == file_contents@.subrange(cursor as int + 1, j as int),
                decreases n - j,
            {
                buf.push(file_contents[j]);
                j = j + 1;
                proof {
                    assert(file_contents@.subrange(cursor as int + 1, j as int)
                        =~= file_contents@.subrange(cursor as int + 1, j - 1).push(
                        file_contents@[j - 1],
                    ));
                }
            }
            if j < n {
                let text = chars_to_string(&buf);
                push_token(&mut tokens, &file_contents, cursor, Token::STRINGLITERAL(text), j + 1);
                cursor = j + 1;
            } else {
                proof {
                    lemma_prefix_fail(
                        file_contents@,
                        abstract_tokens(tokens@),
                        cursor as int,
                        LexErrorModel::UnterminatedString(cursor as int),
                    );
                }
                return Err(LexError::UnterminatedString(cursor));
            }
        } else if is_lower(c) {
            let res = scan_word(&file_contents, cursor);
            let word = res.0;
            let j: usize = res.1;
            let tok: Token = match keyword_lookup(&word) {
                Some(t) => t,
                None => Token::IDENTIFIER(chars_to_string(&word)),
            };
            proof {
                lemma_word_end_bounds(file_contents@, cursor as int);
            }
            push_token(&mut tokens, &file_contents, cursor, tok, j);
            cursor = j;
        } else if is_upper(c) {
            let res = scan_word(&file_contents, cursor);
            let word = res.0;
            let j: usize = res.1;
            let tok: Token = Token::IDENTIFIER(chars_to_string(&word));
            proof {
                lemma_word_end_bounds(file_contents@, cursor as int);
            }
            push_token(&mut tokens, &file_contents, cursor, tok, j);
            cursor = j;
        } else if is_digit(c) {
            let res = scan_number(&file_contents, cursor);
            let buf = res.0;
            let j: usize = res.1;
            let tok: Token = classify_number(&buf);
            proof {
                lemma_num_end_bounds(file_contents@, cursor as int);
            }
            push_token(&mut tokens, &file_contents, cursor, tok, j);
            cursor = j;
        } else if is_space(c) {
            proof {
                lemma_prefix_skip(
                    file_contents@,
                    abstract_tokens(tokens@),
                    cursor as int,
                    cursor as int + 1,
                );
            }
            cursor = cursor + 1;
        } else {
            push_token(&mut tokens, &file_contents, cursor, Token::INVALID, cursor + 1);
            cursor = cursor + 1;
        }
    }
    proof {
        assert(scan_from(file_contents@, n as int) == Ok::<Seq<TokenModel>, LexErrorModel>(
            Seq::empty(),
        ));
        assert(abstract_tokens(tokens@) + Seq::<TokenModel>::empty() =~= abstract_tokens(
            tokens@,
        ));
    }
    Ok(tokens)
}

} // verus!
