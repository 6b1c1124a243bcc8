//! Mathematical model of the scanner.
//!
//! Everything in this module is specification-level: a ghost token type, the
//! character classes the scanner dispatches on, and a recursive description
//! of the whole scan, one step per cursor position.  The executable lexer is
//! proved to return exactly what [`scan_from`] describes.

use vstd::prelude::*;

verus! {

// ---------------------------------------------------------------------------
// Character classes
// ---------------------------------------------------------------------------

/// ASCII lowercase letter: a word in this class position starts an
/// identifier run that is eligible for keyword lookup.
pub open spec fn is_lower_letter(c: char) -> bool {
    let u: u32 = c as u32;
    97 <= u && u <= 122
}

/// ASCII uppercase letter: starts an identifier run that bypasses the
/// keyword table.
pub open spec fn is_upper_letter(c: char) -> bool {
    let u: u32 = c as u32;
    65 <= u && u <= 90
}

/// ASCII decimal digit.
pub open spec fn is_digit_char(c: char) -> bool {
    let u: u32 = c as u32;
    48 <= u && u <= 57
}

/// A character that continues an identifier run: ASCII letter or digit.
pub open spec fn is_word_char(c: char) -> bool {
    is_lower_letter(c) || is_upper_letter(c) || is_digit_char(c)
}

/// A character that continues a numeric run: digit or decimal point.
pub open spec fn is_number_char(c: char) -> bool {
    is_digit_char(c) || c == '.'
}

/// Whitespace, the Unicode `White_Space` set: skipped silently by the scan.
pub open spec fn is_space_char(c: char) -> bool {
    let u: u32 = c as u32;
    u == 0x09 || u == 0x0A || u == 0x0B || u == 0x0C || u == 0x0D || u == 0x20 || u == 0x85
        || u == 0xA0 || u == 0x1680 || (0x2000 <= u && u <= 0x200A) || u == 0x2028 || u == 0x2029
        || u == 0x202F || u == 0x205F || u == 0x3000
}

/// Numeric value of an ASCII digit character.
pub open spec fn digit_val(c: char) -> int {
    c as u32 - 48
}

// ---------------------------------------------------------------------------
// Run ends
// ---------------------------------------------------------------------------

/// First position at or after `i` whose character is not a word character,
/// or the input's length if the run reaches the end.
pub open spec fn word_end(s: Seq<char>, i: int) -> int
    decreases s.len() - i,
{
    if 0 <= i && i < s.len() && is_word_char(s[i]) {
        word_end(s, i + 1)
    } else {
        i
    }
}

/// First position at or after `i` whose character is neither a digit nor a
/// decimal point, or the input's length.
pub open spec fn num_end(s: Seq<char>, i: int) -> int
    decreases s.len() - i,
{
    if 0 <= i && i < s.len() && is_number_char(s[i]) {
        num_end(s, i + 1)
    } else {
        i
    }
}

/// First position at or after `i` holding a closing double quote, or the
/// input's length if there is none.
pub open spec fn quote_end(s: Seq<char>, i: int) -> int
    decreases s.len() - i,
{
    if 0 <= i && i < s.len() && s[i] != '"' {
        quote_end(s, i + 1)
    } else {
        i
    }
}

/// First position at or after `i` holding a newline, or the input's length
/// if there is none.
pub open spec fn line_end(s: Seq<char>, i: int) -> int
    decreases s.len() - i,
{
    if 0 <= i && i < s.len() && s[i] != '\n' {
        line_end(s, i + 1)
    } else {
        i
    }
}

pub proof fn lemma_word_end_bounds(s: Seq<char>, i: int)
    requires
        0 <= i <= s.len(),
    ensures
        i <= word_end(s, i) <= s.len(),
        i < s.len() && is_word_char(s[i]) ==> i + 1 <= word_end(s, i),
        word_end(s, i) < s.len() ==> !is_word_char(s[word_end(s, i)]),
        forall|k: int| i <= k < word_end(s, i) ==> is_word_char(s[k]),
    decreases s.len() - i,
{
    if i < s.len() && is_word_char(s[i]) {
        lemma_word_end_bounds(s, i + 1);
    }
}

pub proof fn lemma_num_end_bounds(s: Seq<char>, i: int)
    requires
        0 <= i <= s.len(),
    ensures
        i <= num_end(s, i) <= s.len(),
        i < s.len() && is_number_char(s[i]) ==> i + 1 <= num_end(s, i),
        num_end(s, i) < s.len() ==> !is_number_char(s[num_end(s, i)]),
        forall|k: int| i <= k < num_end(s, i) ==> is_number_char(s[k]),
    decreases s.len() - i,
{
    if i < s.len() && is_number_char(s[i]) {
        lemma_num_end_bounds(s, i + 1);
    }
}

pub proof fn lemma_quote_end_bounds(s: Seq<char>, i: int)
    requires
        0 <= i <= s.len(),
    ensures
        i <= quote_end(s, i) <= s.len(),
        quote_end(s, i) < s.len() ==> s[quote_end(s, i)] == '"',
        forall|k: int| i <= k < quote_end(s, i) ==> s[k] != '"',
    decreases s.len() - i,
{
    if i < s.len() && s[i] != '"' {
        lemma_quote_end_bounds(s, i + 1);
    }
}

pub proof fn lemma_line_end_bounds(s: Seq<char>, i: int)
    requires
        0 <= i <= s.len(),
    ensures
        i <= line_end(s, i) <= s.len(),
        line_end(s, i) < s.len() ==> s[line_end(s, i)] == '\n',
        forall|k: int| i <= k < line_end(s, i) ==> s[k] != '\n',
    decreases s.len() - i,
{
    if i < s.len() && s[i] != '\n' {
        lemma_line_end_bounds(s, i + 1);
    }
}

// ---------------------------------------------------------------------------
// Ghost tokens and errors
// ---------------------------------------------------------------------------

/// Ghost counterpart of the executable token type: identifier and literal
/// payloads are character sequences, the integer payload an unbounded
/// integer.
pub ghost enum TokenModel {
    Identifier(Seq<char>),
    StringLiteral(Seq<char>),
    FpLiteral(Seq<char>),
    DigitLiteral(int),
    Add,
    Dot,
    DoubleDot,
    Subtract,
    Multiply,
    Divide,
    Exponent,
    Comma,
    BitsLeft,
    BitsRight,
    Equals,
    LessThan,
    GreaterThan,
    OpenParentheses,
    CloseParentheses,
    OpenBrace,
    CloseBrace,
    OpenBracket,
    CloseBracket,
    Semicolon,
    Negation,
    NotEquals,
    DoubleEquals,
    GreaterEquals,
    LessEquals,
    And,
    Or,
    Xor,
    BitwiseAnd,
    BitwiseOr,
    Invalid,
    KwDigit,
    KwFloat,
    KwString,
    KwLet,
    KwVar,
    KwPut,
    KwIf,
    KwElse,
    KwUntil,
    KwWhile,
    KwFor,
    KwBreak,
    KwContinue,
    KwFunc,
    KwIn,
    KwInf,
    KwNil,
}

/// Ghost counterpart of the fatal scan errors; the payload is the position
/// of the opening quote, or of the first slash of the comment.
pub ghost enum LexErrorModel {
    UnterminatedString(int),
    UnterminatedComment(int),
}

/// What happens at one cursor position: a token is emitted, characters are
/// skipped, or the scan fails.  `next` is the cursor position after the step.
pub ghost enum Step {
    Emit { t: TokenModel, next: int },
    Skip { next: int },
    Fail { err: LexErrorModel },
}

// ---------------------------------------------------------------------------
// Keyword table
// ---------------------------------------------------------------------------

/// The fixed keyword table: reserved lowercase words and their tokens.
/// Any other word is a plain identifier.
pub open spec fn keyword_token(w: Seq<char>) -> Option<TokenModel> {
    if w =~= seq!['d', 'i', 'g', 'i', 't'] {
        Some(TokenModel::KwDigit)
    } else if w =~= seq!['f', 'l', 'o', 'a', 't'] {
        Some(TokenModel::KwFloat)
    } else if w =~= seq!['s', 't', 'r', 'i', 'n', 'g'] {
        Some(TokenModel::KwString)
    } else if w =~= seq!['l', 'e', 't'] {
        Some(TokenModel::KwLet)
    } else if w =~= seq!['v', 'a', 'r'] {
        Some(TokenModel::KwVar)
    } else if w =~= seq!['i', 'f'] {
        Some(TokenModel::KwIf)
    } else if w =~= seq!['e', 'l', 's', 'e'] {
        Some(TokenModel::KwElse)
    } else if w =~= seq!['f', 'o', 'r'] {
        Some(TokenModel::KwFor)
    } else if w =~= seq!['w', 'h', 'i', 'l', 'e'] {
        Some(TokenModel::KwWhile)
    } else if w =~= seq!['b', 'r', 'e', 'a', 'k'] {
        Some(TokenModel::KwBreak)
    } else if w =~= seq!['p', 'u', 't'] {
        Some(TokenModel::KwPut)
    } else if w =~= seq!['u', 'n', 't', 'i', 'l'] {
        Some(TokenModel::KwUntil)
    } else if w =~= seq!['c', 'o', 'n', 't', 'i', 'n', 'u', 'e'] {
        Some(TokenModel::KwContinue)
    } else if w =~= seq!['f', 'u', 'n', 'c'] {
        Some(TokenModel::KwFunc)
    } else if w =~= seq!['i', 'n'] {
        Some(TokenModel::KwIn)
    } else if w =~= seq!['i', 'n', 'f'] {
        Some(TokenModel::KwInf)
    } else if w =~= seq!['n', 'i', 'l'] {
        Some(TokenModel::KwNil)
    } else {
        None
    }
}

// ---------------------------------------------------------------------------
// Numeric classification
// ---------------------------------------------------------------------------

/// Every character of `s` is an ASCII digit.
pub open spec fn all_digits(s: Seq<char>) -> bool {
    forall|k: int| 0 <= k < s.len() ==> is_digit_char(s[k])
}

/// Value of a digit string read in base ten.
pub open spec fn digits_value(s: Seq<char>) -> int
    decreases s.len(),
{
    if s.len() == 0 {
        0
    } else {
        digits_value(s.drop_last()) * 10 + digit_val(s.last())
    }
}

/// Number of decimal points in `s`.
pub open spec fn dot_count(s: Seq<char>) -> int
    decreases s.len(),
{
    if s.len() == 0 {
        0
    } else {
        dot_count(s.drop_last()) + if s.last() == '.' { 1int } else { 0int }
    }
}

/// Classification of a numeric run: a pure digit string whose value fits a
/// signed 128-bit integer is an integer literal; otherwise, text with at
/// most one decimal point reads as a floating-point literal (a dotless
/// digit string that overflows the integer range also lands here); anything
/// else — more than one dot — is invalid.
pub open spec fn number_token(s: Seq<char>) -> TokenModel {
    if all_digits(s) && digits_value(s) <= i128::MAX as int {
        TokenModel::DigitLiteral(digits_value(s))
    } else if dot_count(s) <= 1 {
        TokenModel::FpLiteral(s)
    } else {
        TokenModel::Invalid
    }
}

// ---------------------------------------------------------------------------
// The scan, one step at a time
// ---------------------------------------------------------------------------

/// One dispatch step of the scanner at position `i`: the single-character
/// tokens, the two-character-lookahead operators, string literals, line
/// comments, identifier/keyword runs, numeric runs, whitespace, and the
/// invalid-character fallback.
pub open spec fn step_at(s: Seq<char>, i: int) -> Step
    recommends
        0 <= i < s.len(),
{
    let c = s[i];
    if c == ';' {
        Step::Emit { t: TokenModel::Semicolon, next: i + 1 }
    } else if c == ',' {
        Step::Emit { t: TokenModel::Comma, next: i + 1 }
    } else if c == '+' {
        Step::Emit { t: TokenModel::Add, next: i + 1 }
    } else if c == '-' {
        Step::Emit { t: TokenModel::Subtract, next: i + 1 }
    } else if c == '^' {
        Step::Emit { t: TokenModel::Xor, next: i + 1 }
    } else if c == '(' {
        Step::Emit { t: TokenModel::OpenParentheses, next: i + 1 }
    } else if c == ')' {
        Step::Emit { t: TokenModel::CloseParentheses, next: i + 1 }
    } else if c == '{' {
        Step::Emit { t: TokenModel::OpenBrace, next: i + 1 }
    } else if c == '}' {
        Step::Emit { t: TokenModel::CloseBrace, next: i + 1 }
    } else if c == '[' {
        Step::Emit { t: TokenModel::OpenBracket, next: i + 1 }
    } else if c == ']' {
        Step::Emit { t: TokenModel::CloseBracket, next: i + 1 }
    } else if c == '*' {
        if i + 1 < s.len() && s[i + 1] == '*' {
            Step::Emit { t: TokenModel::Exponent, next: i + 2 }
        } else {
            Step::Emit { t: TokenModel::Multiply, next: i + 1 }
        }
    } else if c == '=' {
        if i + 1 < s.len() && s[i + 1] == '=' {
            Step::Emit { t: TokenModel::DoubleEquals, next: i + 2 }
        } else {
            Step::Emit { t: TokenModel::Equals, next: i + 1 }
        }
    } else if c == '/' {
        if i + 1 < s.len() && s[i + 1] == '/' {
            let e: int = line_end(s, i + 2);
            if e < s.len() {
                Step::Skip { next: e + 1 }
            } else {
                Step::Fail { err: LexErrorModel::UnterminatedComment(i) }
            }
        } else {
            Step::Emit { t: TokenModel::Divide, next: i + 1 }
        }
    } else if c == '>' {
        if i + 1 < s.len() && s[i + 1] == '=' {
            Step::Emit { t: TokenModel::GreaterEquals, next: i + 2 }
        } else if i + 1 < s.len() && s[i + 1] == '>' {
            Step::Emit { t: TokenModel::BitsRight, next: i + 2 }
        } else {
            Step::Emit { t: TokenModel::GreaterThan, next: i + 1 }
        }
    } else if c == '<' {
        if i + 1 < s.len() && s[i + 1] == '=' {
            Step::Emit { t: TokenModel::LessEquals, next: i + 2 }
        } else if i + 1 < s.len() && s[i + 1] == '<' {
            Step::Emit { t: TokenModel::BitsLeft, next: i + 2 }
        } else {
            Step::Emit { t: TokenModel::LessThan, next: i + 1 }
        }
    } else if c == '!' {
        if i + 1 < s.len() && s[i + 1] == '=' {
            Step::Emit { t: TokenModel::NotEquals, next: i + 2 }
        } else {
            Step::Emit { t: TokenModel::Negation, next: i + 1 }
        }
    } else if c == '&' {
        if i + 1 < s.len() && s[i + 1] == '&' {
            Step::Emit { t: TokenModel::And, next: i + 2 }
        } else {
            Step::Emit { t: TokenModel::BitwiseAnd, next: i + 1 }
        }
    } else if c == '|' {
        if i + 1 < s.len() && s[i + 1] == '|' {
            Step::Emit { t: TokenModel::Or, next: i + 2 }
        } else {
            Step::Emit { t: TokenModel::BitwiseOr, next: i + 1 }
        }
    } else if c == '.' {
        if i + 1 < s.len() && s[i + 1] == '.' {
            Step::Emit { t: TokenModel::DoubleDot, next: i + 2 }
        } else {
            Step::Emit { t: TokenModel::Dot, next: i + 1 }
        }
    } else if c == '"' {
        let e: int = quote_end(s, i + 1);
        if e < s.len() {
            Step::Emit { t: TokenModel::StringLiteral(s.subrange(i + 1, e)), next: e + 1 }
        } else {
            Step::Fail { err: LexErrorModel::UnterminatedString(i) }
        }
    } else if is_lower_letter(c) {
        let e: int = word_end(s, i);
        let w: Seq<char> = s.subrange(i, e);
        match keyword_token(w) {
            Some(t) => Step::Emit { t, next: e },
            None => Step::Emit { t: TokenModel::Identifier(w), next: e },
        }
    } else if is_upper_letter(c) {
        let e: int = word_end(s, i);
        Step::Emit { t: TokenModel::Identifier(s.subrange(i, e)), next: e }
    } else if is_digit_char(c) {
        let e: int = num_end(s, i);
        Step::Emit { t: number_token(s.subrange(i, e)), next: e }
    } else if is_space_char(c) {
        Step::Skip { next: i + 1 }
    } else {
        Step::Emit { t: TokenModel::Invalid, next: i + 1 }
    }
}

/// Every step moves the cursor forward, and never past the end.
pub proof fn lemma_step_at_bounds(s: Seq<char>, i: int)
    requires
        0 <= i < s.len(),
    ensures
        match step_at(s, i) {
            Step::Emit { t, next } => i < next <= s.len(),
            Step::Skip { next } => i < next <= s.len(),
            Step::Fail { err } => true,
        },
{
    lemma_word_end_bounds(s, i);
    lemma_num_end_bounds(s, i);
    lemma_quote_end_bounds(s, i + 1);
    if i + 2 <= s.len() {
        lemma_line_end_bounds(s, i + 2);
    }
}

/// The whole scan from position `i`: the sequence of tokens emitted up to
/// the end of the input, or the first fatal error.
pub open spec fn scan_from(s: Seq<char>, i: int) -> Result<Seq<TokenModel>, LexErrorModel>
    decreases s.len() - i
        when 0 <= i <= s.len()
        via scan_from_decreases
{
    if i >= s.len() {
        Ok(Seq::empty())
    } else {
        match step_at(s, i) {
            Step::Emit { t, next } => match scan_from(s, next) {
                Ok(rest) => Ok(seq![t] + rest),
                Err(err) => Err(err),
            },
            Step::Skip { next } => scan_from(s, next),
            Step::Fail { err } => Err(err),
        }
    }
}

#[via_fn]
proof fn scan_from_decreases(s: Seq<char>, i: int) {
    if i < s.len() {
        lemma_step_at_bounds(s, i);
    }
}

} // verus!
