use brainfuck::ast::{Instruction, ParseError, ParseReason};
use brainfuck::parser::parse;

use Instruction::{Comment, Decrement, Increment, Input, Loop, Output, PointerLeft, PointerRight};

#[test]
fn plus_parser_test() {
    let res = parse(b"+");
    assert_eq!(res, Ok(vec![Increment]));
}

#[test]
fn syntax_test() {
    let res = parse(b"-");
    assert_eq!(res, Ok(vec![Decrement]));
}

#[test]
fn loop_test() {
    let res = parse(b"[++-]");
    assert_eq!(res, Ok(vec![Loop(vec![Increment, Increment, Decrement])]));
}

#[test]
fn nested_loop_test() {
    let res = parse(b"[+[++]-]");
    assert_eq!(
        res,
        Ok(vec![Loop(vec![Increment, Loop(vec![Increment, Increment]), Decrement])])
    );
}

#[test]
fn ignore_whitespace_test() {
    let bf = b"+-+>  <  -

    +";
    let res = parse(bf);
    assert_eq!(
        res,
        Ok(vec![Increment, Decrement, Increment, PointerRight, PointerLeft, Decrement, Increment])
    );
}

// tests for end of line for the comment
#[test]
fn ignore_comment_eol_test() {
    let bf = b"+ //+
    +";
    let res = parse(bf);
    assert_eq!(res, Ok(vec![Increment, Comment, Increment]));
}

// tests for end of file
#[test]
fn ignore_comment_eof_test() {
    let bf = b"+ //";
    let res = parse(bf);
    assert_eq!(res, Ok(vec![Increment, Comment]));
}

#[test]
fn comment_alone_eof_test() {
    assert_eq!(parse(b"//no newline after this"), Ok(vec![Comment]));
}

#[test]
fn equivalent_forms_parse_equal_test() {
    // the same tree written two ways: whitespace carries no meaning
    let a = parse(b"[++-]").unwrap();
    let b = parse(b" [ +\n+ - ]\t").unwrap();
    assert_eq!(a, b);
}

#[test]
fn unexpected_character_test() {
    assert_eq!(
        parse(b"a"),
        Err(ParseError { position: 0, reason: ParseReason::UnexpectedCharacter })
    );
    assert_eq!(
        parse(b"++a"),
        Err(ParseError { position: 2, reason: ParseReason::UnexpectedCharacter })
    );
}

#[test]
fn stray_closing_bracket_test() {
    assert_eq!(
        parse(b"]"),
        Err(ParseError { position: 0, reason: ParseReason::UnexpectedCharacter })
    );
}

#[test]
fn single_slash_test() {
    assert_eq!(
        parse(b"+/"),
        Err(ParseError { position: 1, reason: ParseReason::UnexpectedCharacter })
    );
}

#[test]
fn unterminated_loop_test() {
    assert_eq!(
        parse(b"[+"),
        Err(ParseError { position: 0, reason: ParseReason::UnterminatedLoop })
    );
    // an unrecognized character inside an open loop is an unterminated
    // loop, reported at the opening bracket
    assert_eq!(
        parse(b"+[x]"),
        Err(ParseError { position: 1, reason: ParseReason::UnterminatedLoop })
    );
    // the innermost open loop reports
    assert_eq!(
        parse(b"[[+"),
        Err(ParseError { position: 1, reason: ParseReason::UnterminatedLoop })
    );
}

#[test]
fn empty_source_test() {
    assert_eq!(parse(b""), Ok(vec![]));
}
