use interpreter::{
    parse_chars, scan, Command, Interpreter, LexError, Lexer, Output, RunError, SyntaxError,
    TokenKind,
};

fn chars(s: &str) -> Vec<char> {
    s.chars().collect()
}

fn run_source(src: &str) -> (Result<(), RunError>, Vec<Output>, Vec<i32>) {
    let program = Lexer::lex_source(src).expect("program should parse");
    let mut interpreter = Interpreter::new();
    let result = interpreter.run(program);
    let out: Vec<Output> = interpreter
        .output()
        .iter()
        .map(|o| match o {
            Output::Value(v) => Output::Value(*v),
            Output::MissingFunction(n) => Output::MissingFunction(n.clone()),
        })
        .collect();
    (result, out, interpreter.stack().clone())
}

fn values(src: &str) -> Vec<i32> {
    let (result, out, _) = run_source(&format!("fn main do end {}", src));
    assert_eq!(result, Ok(()));
    out.into_iter()
        .map(|o| match o {
            Output::Value(v) => v,
            Output::MissingFunction(n) => panic!("unexpected missing function {}", n),
        })
        .collect()
}

#[test]
fn five_three_minus_is_two() {
    assert_eq!(values("5 3 - $"), vec![2]);
}

#[test]
fn one_two_greater_is_zero() {
    assert_eq!(values("1 2 > $"), vec![0]);
    assert_eq!(values("2 1 > $"), vec![1]);
}

#[test]
fn operator_table() {
    assert_eq!(values("3 4 + $"), vec![7]);
    assert_eq!(values("3 4 * $"), vec![12]);
    assert_eq!(values("7 2 / $"), vec![3]);
    assert_eq!(values("0 7 - 2 / $"), vec![-3]);
    assert_eq!(values("7 3 % $"), vec![1]);
    assert_eq!(values("0 7 - 3 % $"), vec![-1]);
    assert_eq!(values("4 4 == $ 4 5 == $"), vec![1, 0]);
    assert_eq!(values("4 4 != $ 4 5 != $"), vec![0, 1]);
    assert_eq!(values("1 2 < $ 2 1 < $"), vec![1, 0]);
    assert_eq!(values("2 2 >= $ 1 2 >= $ 3 2 >= $"), vec![1, 1, 0]);
    assert_eq!(values("2 2 <= $ 1 2 <= $ 3 2 <= $"), vec![1, 0, 1]);
}

#[test]
fn division_by_zero_stops() {
    let (result, _, _) = run_source("1 0 /");
    assert_eq!(result, Err(RunError::DivisionByZero));
    let (result, _, _) = run_source("1 0 %");
    assert_eq!(result, Err(RunError::DivisionByZero));
}

#[test]
fn overflow_stops() {
    let (result, _, _) = run_source("2147483647 1 +");
    assert_eq!(result, Err(RunError::Overflow));
}

#[test]
fn literal_too_large() {
    assert_eq!(Lexer::lex_source("2147483648").err(), Some(SyntaxError::NumberOutOfRange));
    assert!(Lexer::lex_source("2147483647").is_ok());
}

#[test]
fn first_use_with_empty_stack_underflows() {
    let (result, out, _) = run_source("x");
    assert_eq!(result, Err(RunError::StackUnderflow));
    assert!(out.is_empty());
}

#[test]
fn bind_then_read() {
    assert_eq!(values("5 x x $"), vec![5]);
}

#[test]
fn operator_underflow() {
    let (result, _, _) = run_source("1 +");
    assert_eq!(result, Err(RunError::StackUnderflow));
    let (result, _, _) = run_source("$");
    assert_eq!(result, Err(RunError::StackUnderflow));
}

#[test]
fn true_condition_runs_body_and_leaves_one() {
    let (result, out, stack) = run_source("fn main do end 1 if 7 8 9 $ end");
    assert_eq!(result, Ok(()));
    assert_eq!(out, vec![Output::Value(9)]);
    assert_eq!(stack, vec![1]);
}

#[test]
fn false_condition_skips_body_and_leaves_zero() {
    let (result, out, stack) = run_source("fn main do end 4 0 if 7 $ end");
    assert_eq!(result, Ok(()));
    assert!(out.is_empty());
    assert_eq!(stack, vec![4, 0]);
}

#[test]
fn else_runs_after_false_condition() {
    assert_eq!(values("0 if 1 $ end else 2 $ end"), vec![2]);
    assert_eq!(values("1 if 1 $ end else 2 $ end"), vec![1]);
}

#[test]
fn counted_loop_runs_three_times() {
    assert_eq!(values("for i in 3 i $ end i $"), vec![0, 1, 2, 2]);
}

#[test]
fn stack_driven_loop() {
    assert_eq!(values("3 n for i in n i $ end"), vec![0, 1, 2]);
}

#[test]
fn call_pops_one_value_per_parameter() {
    let (result, out, stack) = run_source("fn f a b do a b - $ end 1 10 3 f() fn main do end");
    assert_eq!(result, Ok(()));
    assert_eq!(out, vec![Output::Value(-7)]);
    assert_eq!(stack, vec![1]);
}

#[test]
fn undefined_function_does_not_abort() {
    let (result, out, _) = run_source("nope() 4 $");
    assert_eq!(result, Ok(()));
    assert_eq!(
        out,
        vec![
            Output::MissingFunction("nope".to_string()),
            Output::Value(4),
            Output::MissingFunction("main".to_string()),
        ]
    );
}

#[test]
fn main_is_called_last() {
    let (result, out, _) = run_source("fn main do 42 $ end 1 $");
    assert_eq!(result, Ok(()));
    assert_eq!(out, vec![Output::Value(1), Output::Value(42)]);
}

#[test]
fn delete_unbound_is_noop() {
    assert_eq!(values("del x 1 $"), vec![1]);
}

#[test]
fn delete_then_rebind() {
    assert_eq!(values("5 x del x 6 x x $"), vec![6]);
}

#[test]
fn semicolon_clears_stack() {
    let (_, _, stack) = run_source("fn main do end 1 2 ; 3");
    assert_eq!(stack, vec![3]);
}

#[test]
fn runaway_recursion_is_too_deep() {
    let (result, _, _) = run_source("fn main do main() end");
    assert_eq!(result, Err(RunError::TooDeep));
}

#[test]
fn lexical_error_position() {
    assert_eq!(Lexer::lex_source("5 @").err(), Some(SyntaxError::Lex(2)));
    assert_eq!(scan(&chars("1 = 2")).err(), Some(LexError { position: 2 }));
}

#[test]
fn scanner_classification() {
    let toks = scan(&chars("foo() if iff >= > 12 del\tx;$")).unwrap();
    let kinds: Vec<TokenKind> = toks.iter().map(|t| t.kind).collect();
    assert_eq!(
        kinds,
        vec![
            TokenKind::Call,
            TokenKind::If,
            TokenKind::Ident,
            TokenKind::Gte,
            TokenKind::Gt,
            TokenKind::Number,
            TokenKind::Del,
            TokenKind::Ident,
            TokenKind::Semicolon,
            TokenKind::Dump,
        ]
    );
    assert_eq!(toks[0].text, chars("foo()"));
    assert_eq!(toks[5].text, chars("12"));
}

#[test]
fn structural_errors() {
    assert_eq!(parse_chars(&chars("end")).err(), Some(SyntaxError::UnmatchedEnd));
    assert_eq!(parse_chars(&chars("fn")).err(), Some(SyntaxError::ExpectedIdent));
    assert_eq!(parse_chars(&chars("del 5")).err(), Some(SyntaxError::ExpectedIdent));
    assert_eq!(parse_chars(&chars("for i 3")).err(), Some(SyntaxError::ExpectedIn));
    assert_eq!(parse_chars(&chars("for i in +")).err(), Some(SyntaxError::ExpectedBound));
    assert_eq!(parse_chars(&chars("fn f a")).err(), Some(SyntaxError::ExpectedDo));
}

#[test]
fn parsed_tree_shape() {
    let cmds = parse_chars(&chars("fn f a b do a $ end for i in n 1 end f()")).unwrap();
    assert_eq!(
        cmds,
        vec![
            Command::CfDFn(
                "f".to_string(),
                vec!["a".to_string(), "b".to_string()],
                vec![Command::OpIdent("a".to_string()), Command::OpDump],
            ),
            Command::OpIdent("n".to_string()),
            Command::CfFor("i".to_string(), None, vec![Command::OpPush(1)]),
            Command::CfCall("f".to_string()),
        ]
    );
}

#[test]
fn block_body_rescan_is_lossless() {
    let nested = parse_chars(&chars("if 1 2 >= x() del y end")).unwrap();
    let direct = parse_chars(&chars("1 2 >= x() del y ")).unwrap();
    assert_eq!(nested, vec![Command::CfIf(direct)]);
}

#[test]
fn nested_blocks_close_at_their_own_end() {
    let cmds = parse_chars(&chars("if 1 if 2 end 3 end")).unwrap();
    assert_eq!(
        cmds,
        vec![Command::CfIf(vec![
            Command::OpPush(1),
            Command::CfIf(vec![Command::OpPush(2)]),
            Command::OpPush(3),
        ])]
    );
    assert_eq!(values("fn main do for i in 3 i 1 == if i $ end end 7 $ end"), vec![1, 7]);
}

#[test]
fn unclosed_block_is_an_error() {
    assert_eq!(parse_chars(&chars("if 1")).err(), Some(SyntaxError::MissingEnd));
    assert_eq!(parse_chars(&chars("fn f do 1 if 2 end")).err(), Some(SyntaxError::MissingEnd));
    assert_eq!(parse_chars(&chars("for i in 3")).err(), Some(SyntaxError::MissingEnd));
}

#[test]
fn empty_source_only_calls_main() {
    let program = Lexer::lex_source("").unwrap();
    assert_eq!(program, vec![Command::CfCall("main".to_string())]);
}

#[test]
fn redefinition_replaces_function() {
    assert_eq!(values("fn f do 1 $ end fn f do 2 $ end f()"), vec![2]);
}

#[test]
fn remainder_of_min_by_minus_one_is_zero() {
    assert_eq!(values("0 2147483647 - 1 - 0 1 - % $"), vec![0]);
    assert_eq!(values("0 2147483647 - 1 - 0 1 - 0 1 - * %  $"), vec![0]);
}

#[test]
fn zero_count_loop_skips_body() {
    let (result, out, stack) = run_source("fn main do end for i in 0 1 $ end i");
    assert_eq!(result, Err(RunError::StackUnderflow));
    assert!(out.is_empty());
    assert!(stack.is_empty());
}

#[test]
fn variables_are_global_across_calls() {
    assert_eq!(values("fn set do 9 g end set() g $"), vec![9]);
}
