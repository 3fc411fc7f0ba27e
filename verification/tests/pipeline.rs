use lint_lang::Binding;
use lint_lang::Env;
use lint_lang::Eval;
use lint_lang::EvalError;
use lint_lang::Expression;
use lint_lang::LInt;
use lint_lang::LVar;
use lint_lang::ParseError;
use lint_lang::Token;
use lint_lang::parse;
use lint_lang::partially_evaluate;
use lint_lang::read_int_line;
use lint_lang::tokenize;
use lint_lang::visualize;

fn num(n: i32) -> Expression {
    Expression::LInt(LInt::Number(n))
}

fn add(a: Expression, b: Expression) -> Expression {
    Expression::LInt(LInt::Add(Box::new(a), Box::new(b)))
}

fn sub(a: Expression, b: Expression) -> Expression {
    Expression::LInt(LInt::Subtract(Box::new(a), Box::new(b)))
}

fn var(name: &str) -> Expression {
    Expression::LVar(LVar::Var(name.to_string()))
}

fn no_lines() -> Vec<String> {
    Vec::new()
}

#[test]
fn test_tokenize() {
    let input = "(add 2 (subtract 4 2))";
    let expected = vec![
        Token::LParen,
        Token::Identifier("add".to_string()),
        Token::Number(2),
        Token::LParen,
        Token::Identifier("subtract".to_string()),
        Token::Number(4),
        Token::Number(2),
        Token::RParen,
        Token::RParen,
        Token::EndOfFile,
    ];

    assert_eq!(tokenize(input), expected);

    let input = "(let ((x 2) (y 3)) (let ((z (+ x y))) (+ z 1)))";
    let expected = vec![
        Token::LParen,
        Token::Identifier("let".to_string()),
        Token::LParen,
        Token::LParen,
        Token::Identifier("x".to_string()),
        Token::Number(2),
        Token::RParen,
        Token::LParen,
        Token::Identifier("y".to_string()),
        Token::Number(3),
        Token::RParen,
        Token::RParen,
        Token::LParen,
        Token::Identifier("let".to_string()),
        Token::LParen,
        Token::LParen,
        Token::Identifier("z".to_string()),
        Token::LParen,
        Token::Identifier("+".to_string()),
        Token::Identifier("x".to_string()),
        Token::Identifier("y".to_string()),
        Token::RParen,
        Token::RParen,
        Token::RParen,
        Token::LParen,
        Token::Identifier("+".to_string()),
        Token::Identifier("z".to_string()),
        Token::Number(1),
        Token::RParen,
        Token::RParen,
        Token::RParen,
        Token::EndOfFile,
    ];

    assert_eq!(tokenize(input), expected);
}

#[test]
fn test_parse() {
    let input = "(+ 2 (- 4 2))";
    let tokens = tokenize(input);
    let expected = Expression::LInt(LInt::Add(
        Box::new(Expression::LInt(LInt::Number(2))),
        Box::new(Expression::LInt(LInt::Subtract(
            Box::new(Expression::LInt(LInt::Number(4))),
            Box::new(Expression::LInt(LInt::Number(2))),
        ))),
    ));

    assert_eq!(parse(&tokens), Ok(expected));
}

#[test]
fn test_eval() {
    let input = "(+ 2 (- 4 2))";
    let tokens = tokenize(input);
    let ast = parse(&tokens).unwrap();
    let expected = 4;

    assert_eq!(ast.evaluate(&no_lines()), Ok(expected));
}

#[test]
fn test_tokenize_skips_unknown_characters() {
    let tokens = tokenize("1,2");
    assert_eq!(
        tokens,
        vec![Token::Number(1), Token::Number(2), Token::EndOfFile]
    );
    assert_eq!(tokenize(""), vec![Token::EndOfFile]);
}

#[test]
fn test_roundtrip_concrete() {
    // The canonical text reprints as itself, and re-reading is the
    // identity from the second application onward.
    let src = "(+ 2 (- 4 2))";
    let ast = parse(&tokenize(src)).unwrap();
    let printed = visualize(&ast);
    assert_eq!(printed, src);
    assert_eq!(parse(&tokenize(&printed)), Ok(ast));
}

#[test]
fn test_roundtrip_let() {
    let src = "(let ((x 2) (y 3)) (let ((z (+ x y))) (+ z 1)))";
    let ast = parse(&tokenize(src)).unwrap();
    let printed = visualize(&ast);
    let again = parse(&tokenize(&printed)).unwrap();
    let reprinted = visualize(&again);
    assert_eq!(printed, "(let ((x 2)(y 3)) (let ((z (+ x y))) (+ z 1)))");
    assert_eq!(reprinted, printed);
    assert_eq!(parse(&tokenize(&printed)), parse(&tokenize(src)));
}

#[test]
fn test_visualize_negative_literal() {
    assert_eq!(visualize(&num(-5)), "-5");
    assert_eq!(visualize(&num(0)), "0");
    assert_eq!(visualize(&num(-2147483648)), "-2147483648");
    assert_eq!(visualize(&num(2147483647)), "2147483647");
}

#[test]
fn test_fold_constants() {
    // Constant folding gives the same value the evaluator gives.
    let ast = parse(&tokenize("(+ 2 (- 4 2))")).unwrap();
    let folded = partially_evaluate(&ast);
    assert_eq!(folded, num(4));
    assert_eq!(ast.evaluate(&no_lines()), Ok(4));
    assert_eq!(folded.evaluate(&no_lines()), Ok(4));
}

#[test]
fn test_fold_read_is_opaque() {
    // `read` is never folded into a number.
    let ast = parse(&tokenize("(read)")).unwrap();
    let folded = partially_evaluate(&ast);
    assert_eq!(folded, Expression::LInt(LInt::Read()));
}

#[test]
fn test_fold_idempotent_concrete() {
    let ast = parse(&tokenize("(- (read) (+ 1 2))")).unwrap();
    let once = partially_evaluate(&ast);
    let twice = partially_evaluate(&once);
    assert_eq!(once, sub(Expression::LInt(LInt::Read()), num(3)));
    assert_eq!(twice, once);
}

#[test]
fn test_fold_leaves_overflow_unfolded() {
    // A sum that would leave the i32 range stays a sum.
    let e = add(num(2147483647), num(1));
    let folded = partially_evaluate(&e);
    assert_eq!(folded, e);
}

#[test]
fn test_let_binding_overwrite() {
    let src = "(let ((x 2) (y 3)) (let ((z (+ x y))) (+ z 1)))";
    let ast = parse(&tokenize(src)).unwrap();
    assert_eq!(ast.evaluate(&no_lines()), Ok(6));
    let rebound = parse(&tokenize("(let ((x 1) (x 40)) (+ x 2))")).unwrap();
    assert_eq!(rebound.evaluate(&no_lines()), Ok(42));
}

#[test]
fn test_dynamic_extent_binding() {
    // A binding from a `let` stays visible to a sibling expression
    // evaluated afterwards in the same top-level call.
    let src = "(+ (let ((w 5)) w) w)";
    let ast = parse(&tokenize(src)).unwrap();
    assert_eq!(ast.evaluate(&no_lines()), Ok(10));
}

#[test]
fn test_unbound_variable() {
    let ast = var("q");
    assert_eq!(ast.evaluate(&no_lines()), Err(EvalError::UnboundVariable));
}

#[test]
fn test_malformed_input() {
    // Missing closing parenthesis.
    let tokens = tokenize("(+ 2");
    assert_eq!(parse(&tokens), Err(ParseError::MalformedInput));
}

#[test]
fn test_arity_is_enforced() {
    assert_eq!(
        parse(&tokenize("(+ 1 2 3)")),
        Err(ParseError::MalformedInput)
    );
    assert_eq!(parse(&tokenize("(+ 1)")), Err(ParseError::MalformedInput));
    assert_eq!(
        parse(&tokenize("(read 1)")),
        Err(ParseError::MalformedInput)
    );
    assert_eq!(
        parse(&tokenize("(frob 1 2)")),
        Err(ParseError::MalformedInput)
    );
}

#[test]
fn test_read_consumes_lines_in_order() {
    let ast = parse(&tokenize("(- (read) (read))")).unwrap();
    let lines = vec![" 20 ".to_string(), "1".to_string()];
    assert_eq!(ast.evaluate(&lines), Ok(19));
}

#[test]
fn test_read_bad_line_fails() {
    let ast = parse(&tokenize("(read)")).unwrap();
    let lines = vec!["forty-two".to_string()];
    assert_eq!(ast.evaluate(&lines), Err(EvalError::InvalidNumericInput));
    assert_eq!(
        ast.evaluate(&no_lines()),
        Err(EvalError::InvalidNumericInput)
    );
}

#[test]
fn test_read_int_line_protocol() {
    assert_eq!(read_int_line(" 42 "), Some(42));
    assert_eq!(read_int_line("+7"), Some(7));
    assert_eq!(read_int_line("-13\n"), Some(-13));
    assert_eq!(read_int_line(""), None);
    assert_eq!(read_int_line("   "), None);
    assert_eq!(read_int_line("12a"), None);
    assert_eq!(read_int_line("-"), None);
    assert_eq!(read_int_line("2147483647"), Some(2147483647));
    assert_eq!(read_int_line("2147483648"), None);
    assert_eq!(read_int_line("-2147483648"), Some(-2147483648));
    assert_eq!(read_int_line("-2147483649"), None);
}

#[test]
fn test_env_overwrites() {
    let mut env = Env::new();
    assert_eq!(env.get(&"x".to_string()), None);
    env.insert("x".to_string(), 1);
    env.insert("x".to_string(), 2);
    assert_eq!(env.get(&"x".to_string()), Some(2));
}

#[test]
fn test_eval_trait_threads_environment() {
    let mut env = Env::new();
    let mut cur: usize = 0;
    let lines = no_lines();
    let bindings = vec![Binding {
        name: "x".to_string(),
        value: num(41),
    }];
    let let_form = LVar::Let(bindings, Box::new(add(var("x"), num(1))));
    assert_eq!(let_form.eval(&mut env, &lines, &mut cur), Ok(42));
    // Dynamic extent: the binding survives the let's body.
    assert_eq!(env.get(&"x".to_string()), Some(41));
    let leaf = LInt::Number(7);
    assert_eq!(leaf.eval(&mut env, &lines, &mut cur), Ok(7));
}

#[test]
fn test_trailing_tokens_are_ignored() {
    // The parser consumes one expression and ignores what follows.
    let with_trailing = parse(&tokenize("(+ 1 2) 99"));
    assert_eq!(with_trailing, Ok(add(num(1), num(2))));
}
