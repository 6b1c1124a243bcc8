use nproc_scanner::lexer::{tokenize_input, LexError, Token};

fn lex(source: &str) -> Vec<Token> {
    tokenize_input(source.chars().collect()).unwrap()
}

fn lex_err(source: &str) -> LexError {
    tokenize_input(source.chars().collect()).unwrap_err()
}

#[test]
fn test_basic_functionality() {
    let test_string: Vec<char> = String::from(
        "func main(string[] args) { \
          var digit hamster = 5; \
          hamster = hamster << 1; \
          var float cheese = 9.01; \
          for i in 0 until hamster { \
            put (i ^ hamster) * cheese; \
          put \"It works!\"; \
          for i in 3 until 7 { \
            if (i == 4) { \
              continue; \
            else if i == 6 { \
              break; \
            } \
            else { \
              put i; \
            } \
          } \
          cheese = cheese ^ cheese; \
          let digit foo = 9009034; \
          } \
        ",
    )
    .chars()
    .collect();
    let tokens: Vec<Token> = tokenize_input(test_string).unwrap();
    // `<<` is one left-shift token and each `==` one double-equals token, so
    // the program scans to 91 tokens.
    assert_eq!(tokens.len(), 91);
}

#[test]
fn test_operator_disambiguation() {
    assert_eq!(lex("**"), vec![Token::EXPONENT]);
    assert_eq!(lex("*"), vec![Token::MULTIPLY]);
    assert_eq!(lex("=="), vec![Token::DOUBLEEQUALS]);
    assert_eq!(lex("="), vec![Token::EQUALS]);
    assert_eq!(lex("!="), vec![Token::NOTEQUALS]);
    assert_eq!(lex("!"), vec![Token::NEGATION]);
    assert_eq!(lex("<<"), vec![Token::BITSLEFT]);
    assert_eq!(lex("<"), vec![Token::LESSTHAN]);
}

#[test]
fn test_remaining_operators() {
    assert_eq!(lex(">="), vec![Token::GREATEREQUALS]);
    assert_eq!(lex(">>"), vec![Token::BITSRIGHT]);
    assert_eq!(lex(">"), vec![Token::GREATERTHAN]);
    assert_eq!(lex("<="), vec![Token::LESSEQUALS]);
    assert_eq!(lex("&&"), vec![Token::AND]);
    assert_eq!(lex("&"), vec![Token::BITWISEAND]);
    assert_eq!(lex("||"), vec![Token::OR]);
    assert_eq!(lex("|"), vec![Token::BITWISEOR]);
    assert_eq!(lex(".."), vec![Token::DOUBLEDOT]);
    assert_eq!(lex("."), vec![Token::DOT]);
    assert_eq!(
        lex("6/2"),
        vec![
            Token::DIGITLITERAL(6),
            Token::DIVIDE,
            Token::DIGITLITERAL(2)
        ]
    );
}

#[test]
fn test_single_character_tokens() {
    assert_eq!(
        lex(";,+-^(){}[]"),
        vec![
            Token::SEMICOLON,
            Token::COMMA,
            Token::ADD,
            Token::SUBTRACT,
            Token::XOR,
            Token::OPENPARENTHESES,
            Token::CLOSEPARENTHESES,
            Token::OPENBRACE,
            Token::CLOSEBRACE,
            Token::OPENBRACKET,
            Token::CLOSEBRACKET,
        ]
    );
}

#[test]
fn test_keyword_vs_identifier() {
    assert_eq!(lex("if"), vec![Token::IF]);
    assert_eq!(lex("If"), vec![Token::IDENTIFIER(String::from("If"))]);
    assert_eq!(lex("iffy"), vec![Token::IDENTIFIER(String::from("iffy"))]);
}

#[test]
fn test_all_keywords() {
    assert_eq!(
        lex("digit float string let var if else for while break put until continue func in inf nil"),
        vec![
            Token::DIGIT,
            Token::FLOAT,
            Token::STRING,
            Token::LET,
            Token::VAR,
            Token::IF,
            Token::ELSE,
            Token::FOR,
            Token::WHILE,
            Token::BREAK,
            Token::PUT,
            Token::UNTIL,
            Token::CONTINUE,
            Token::FUNC,
            Token::IN,
            Token::INF,
            Token::NIL,
        ]
    );
}

#[test]
fn test_identifier_runs() {
    assert_eq!(lex("aBc9"), vec![Token::IDENTIFIER(String::from("aBc9"))]);
    assert_eq!(lex("Abc9x"), vec![Token::IDENTIFIER(String::from("Abc9x"))]);
    assert_eq!(
        lex("12ab"),
        vec![
            Token::DIGITLITERAL(12),
            Token::IDENTIFIER(String::from("ab"))
        ]
    );
}

#[test]
fn test_numeric_classification() {
    assert_eq!(lex("42"), vec![Token::DIGITLITERAL(42)]);
    let tokens = lex("3.14");
    assert_eq!(tokens, vec![Token::FPLITERAL(String::from("3.14"))]);
    match &tokens[0] {
        Token::FPLITERAL(text) => assert_eq!(text.parse::<f64>().unwrap(), 3.14),
        _ => unreachable!(),
    }
    assert_eq!(lex("3.14.15"), vec![Token::INVALID]);
}

#[test]
fn test_numeric_edges() {
    assert_eq!(lex("0"), vec![Token::DIGITLITERAL(0)]);
    assert_eq!(lex("3."), vec![Token::FPLITERAL(String::from("3."))]);
    assert_eq!(lex("0.5"), vec![Token::FPLITERAL(String::from("0.5"))]);
    assert_eq!(lex("1..2"), vec![Token::INVALID]);
    // the largest value that still reads as an integer literal
    assert_eq!(
        lex("170141183460469231731687303715884105727"),
        vec![Token::DIGITLITERAL(i128::MAX)]
    );
    // one more overflows the integer reading and falls through to the
    // floating-point one
    assert_eq!(
        lex("170141183460469231731687303715884105728"),
        vec![Token::FPLITERAL(String::from(
            "170141183460469231731687303715884105728"
        ))]
    );
}

#[test]
fn test_string_literal() {
    assert_eq!(
        lex("\"hello world\""),
        vec![Token::STRINGLITERAL(String::from("hello world"))]
    );
    assert_eq!(lex("\"\""), vec![Token::STRINGLITERAL(String::from(""))]);
    assert_eq!(
        lex("\"a\nb\""),
        vec![Token::STRINGLITERAL(String::from("a\nb"))]
    );
}

#[test]
fn test_comment_skipping() {
    assert_eq!(
        lex("1 // ignore this\n2"),
        vec![Token::DIGITLITERAL(1), Token::DIGITLITERAL(2)]
    );
    assert_eq!(lex("//x\n"), vec![]);
}

#[test]
fn test_unterminated_string() {
    assert_eq!(lex_err("\"abc"), LexError::UnterminatedString(0));
    assert_eq!(lex_err("ab \"xy"), LexError::UnterminatedString(3));
}

#[test]
fn test_unterminated_comment() {
    assert_eq!(lex_err("1 // no newline"), LexError::UnterminatedComment(2));
}

#[test]
fn test_lookahead_at_end_of_input() {
    assert_eq!(lex("="), vec![Token::EQUALS]);
    assert_eq!(lex("/"), vec![Token::DIVIDE]);
    assert_eq!(lex("&"), vec![Token::BITWISEAND]);
    assert_eq!(lex("|"), vec![Token::BITWISEOR]);
    assert_eq!(lex("a"), vec![Token::IDENTIFIER(String::from("a"))]);
    assert_eq!(lex("7"), vec![Token::DIGITLITERAL(7)]);
}

#[test]
fn test_whitespace_and_invalid() {
    assert_eq!(lex(""), vec![]);
    assert_eq!(lex("  \t\n\r "), vec![]);
    assert_eq!(lex("#"), vec![Token::INVALID]);
    assert_eq!(
        lex("a#b"),
        vec![
            Token::IDENTIFIER(String::from("a")),
            Token::INVALID,
            Token::IDENTIFIER(String::from("b"))
        ]
    );
}

#[test]
fn test_total_coverage_concrete() {
    // every character lands in exactly one token or skip: nothing is lost,
    // nothing is read twice
    assert_eq!(
        lex(";;+"),
        vec![Token::SEMICOLON, Token::SEMICOLON, Token::ADD]
    );
    assert_eq!(
        lex("a 1 // c\n\"s\""),
        vec![
            Token::IDENTIFIER(String::from("a")),
            Token::DIGITLITERAL(1),
            Token::STRINGLITERAL(String::from("s")),
        ]
    );
}

#[test]
fn test_determinism_concrete() {
    let source = "var digit x = 5 ^ 2; // trailing\nput \"done\";";
    let first = tokenize_input(source.chars().collect());
    let second = tokenize_input(source.chars().collect());
    assert_eq!(first, second);
}

#[test]
fn test_end_to_end_scenario() {
    assert_eq!(
        lex("var digit x = 5 ^ 2;"),
        vec![
            Token::VAR,
            Token::DIGIT,
            Token::IDENTIFIER(String::from("x")),
            Token::EQUALS,
            Token::DIGITLITERAL(5),
            Token::XOR,
            Token::DIGITLITERAL(2),
            Token::SEMICOLON,
        ]
    );
}
