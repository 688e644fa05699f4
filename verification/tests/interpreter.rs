use crust::ast::{Fun, Node};
use crust::errors::Error;
use crust::eval::{eval, eval_node, eval_program, run, Env};
use crust::lexer::{lex, separate, Token};
use crust::parser::{parse, parse_exp};

#[test]
fn test_separate() {
    assert_eq!(vec!["apa"], separate("apa", "()"));
    assert_eq!(vec!["("], separate("(", "()"));
    assert_eq!(vec!["(", ")"], separate("()", "()"));
    assert_eq!(vec!["(", "apa", ")"], separate("(apa)", "()"));
}

#[test]
fn tokenize_symbol() {
    assert_eq!(lex("apa"), vec![Token::Symbol("apa")]);
}

#[test]
fn tokenize_left_paren() {
    assert_eq!(lex("("), vec![Token::LeftParen]);
}

#[test]
fn tokenize_paren_pair() {
    assert_eq!(lex("()"), vec![Token::LeftParen, Token::RightParen]);
}

#[test]
fn tokenize_parenthesized_symbol() {
    assert_eq!(
        lex("(apa)"),
        vec![Token::LeftParen, Token::Symbol("apa"), Token::RightParen]
    );
}

#[test]
fn tokenize_numbers_and_whitespace() {
    assert_eq!(
        lex("  ( apa\t42\n) "),
        vec![
            Token::LeftParen,
            Token::Symbol("apa"),
            Token::Number(42),
            Token::RightParen
        ]
    );
}

#[test]
fn tokenize_number_with_plus_sign() {
    assert_eq!(lex("+42"), vec![Token::Number(42)]);
}

#[test]
fn tokenize_number_too_large_is_symbol() {
    assert_eq!(lex("18446744073709551615"), vec![Token::Number(u64::MAX)]);
    assert_eq!(
        lex("18446744073709551616"),
        vec![Token::Symbol("18446744073709551616")]
    );
}

#[test]
fn parse_consumes_all_tokens() {
    let tokens = lex("(+ 1 (bar 2)) apa 7");
    let roots = parse(&tokens).unwrap();
    assert_eq!(roots.len(), 3);
    assert_eq!(
        roots[0],
        Node::Application(Fun {
            name: "+".to_string(),
            args: vec![
                Node::Number(1),
                Node::Application(Fun {
                    name: "bar".to_string(),
                    args: vec![Node::Number(2)],
                }),
            ],
        })
    );
    assert_eq!(roots[1], Node::Symbol("apa".to_string()));
    assert_eq!(roots[2], Node::Number(7));
}

#[test]
fn parse_exp_reports_consumed_count() {
    let tokens = lex("(f 1) 2");
    let (consumed, node) = parse_exp(&tokens).unwrap();
    assert_eq!(consumed, 4);
    assert_eq!(
        node,
        Node::Application(Fun {
            name: "f".to_string(),
            args: vec![Node::Number(1)],
        })
    );
}

#[test]
fn lex_parse_deterministic() {
    let src = "(define x (+ 1 2)) (* x x)";
    let first = parse(&lex(src)).unwrap();
    let second = parse(&lex(src)).unwrap();
    assert_eq!(first, second);
}

#[test]
fn eval_addition() {
    assert_eq!(run("(+ 1 2 3)"), Ok(6));
}

#[test]
fn eval_multiplication() {
    assert_eq!(run("(* 2 3 4)"), Ok(24));
}

#[test]
fn eval_empty_product_is_one() {
    assert_eq!(run("(* )"), Ok(1));
}

#[test]
fn eval_empty_sum_is_zero() {
    assert_eq!(run("(+ )"), Ok(0));
}

#[test]
fn eval_division() {
    assert_eq!(run("(/ 10 2)"), Ok(5));
    assert_eq!(run("(/ 100 5 2)"), Ok(10));
    assert_eq!(run("(/ 7 2)"), Ok(3));
}

#[test]
fn eval_division_by_zero_faults() {
    assert_eq!(run("(/ 10 0)"), Err(Error::ArithmeticFault));
}

#[test]
fn eval_division_without_arguments_faults() {
    assert_eq!(run("(/ )"), Err(Error::ArithmeticFault));
}

#[test]
fn eval_division_faults_before_later_arguments() {
    assert_eq!(run("(/ 1 0 (foo))"), Err(Error::ArithmeticFault));
}

#[test]
fn eval_subtraction_folds_from_zero() {
    assert_eq!(run("(- 5)"), Ok(0u64.wrapping_sub(5)));
    assert_eq!(run("(- 10 3)"), Ok(0u64.wrapping_sub(10).wrapping_sub(3)));
    assert_eq!(run("(- )"), Ok(0));
}

#[test]
fn binding_persists_across_roots() {
    let mut env = Env::new();
    let first = parse(&lex("(define x 5)")).unwrap();
    assert_eq!(eval(&first[0], &mut env), Ok(0));
    let second = parse(&lex("(+ x x)")).unwrap();
    assert_eq!(eval(&second[0], &mut env), Ok(10));
}

#[test]
fn binding_persists_in_one_source() {
    assert_eq!(run("(define x 5) (+ x x)"), Ok(10));
}

#[test]
fn later_define_overwrites() {
    assert_eq!(run("(define x 1) (define x 2) x"), Ok(2));
}

#[test]
fn define_inside_argument_list() {
    assert_eq!(run("(+ (define x 2) x)"), Ok(2));
}

#[test]
fn define_binds_unevaluated_tree() {
    assert_eq!(run("(define x (+ 1 2)) (* x x)"), Ok(9));
}

#[test]
fn define_extra_arguments_are_ignored() {
    assert_eq!(run("(define x 5 9) x"), Ok(5));
}

#[test]
fn unknown_function_fails() {
    assert_eq!(run("(foo 1)"), Err(Error::UnknownFunction));
}

#[test]
fn unresolved_symbol_fails() {
    assert_eq!(run("y"), Err(Error::UnresolvedSymbol));
}

#[test]
fn unresolved_symbol_inside_arguments_fails() {
    assert_eq!(run("(+ y 1)"), Err(Error::UnresolvedSymbol));
}

#[test]
fn malformed_define_fails() {
    assert_eq!(run("(define 3 4)"), Err(Error::MalformedDefine));
    assert_eq!(run("(define x)"), Err(Error::MalformedDefine));
}

#[test]
fn empty_expression_fails() {
    let tokens: Vec<Token> = Vec::new();
    assert_eq!(parse_exp(&tokens), Err(Error::NoTokens));
}

#[test]
fn unclosed_application_fails() {
    assert_eq!(run("("), Err(Error::TooFewTokens));
    assert_eq!(run("(+ 1"), Err(Error::TooFewTokens));
    assert_eq!(run("()"), Err(Error::TooFewTokens));
}

#[test]
fn unexpected_token_fails() {
    assert_eq!(run(")"), Err(Error::UnexpectedToken));
    assert_eq!(run("(1 2)"), Err(Error::UnexpectedToken));
}

#[test]
fn cyclic_bindings_exhaust_lookup_budget() {
    let mut env = Env::new();
    let first = parse(&lex("(define x x)")).unwrap();
    assert_eq!(eval(&first[0], &mut env), Ok(0));
    let second = parse(&lex("x")).unwrap();
    assert_eq!(
        eval_node(&second[0], &mut env, 10),
        Err(Error::RecursionLimit)
    );
}

#[test]
fn program_of_roots_yields_last_value() {
    let roots = parse(&lex("(+ 1 1) (* 3 3)")).unwrap();
    assert_eq!(eval_program(&roots), Ok(9));
}

#[test]
fn empty_program_yields_zero() {
    assert_eq!(run(""), Ok(0));
}

#[test]
fn bare_plus_is_a_symbol() {
    assert_eq!(lex("+"), vec![Token::Symbol("+")]);
}

#[test]
fn addition_wraps_at_the_top() {
    assert_eq!(run("(+ 18446744073709551615 1)"), Ok(0));
}

#[test]
fn bound_symbol_resolves_to_its_value() {
    assert_eq!(run("(define x 5) x"), Ok(5));
}
