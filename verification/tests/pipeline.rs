use rlisp::{default_env, eval, parse, tokenize, Builtin, LispEnv, LispError, LispExpr, Step, Token};

fn reading(text: &str) -> Option<u64> {
    text.parse::<f64>().ok().map(f64::to_bits)
}

fn tokens(source: &str) -> Vec<Token> {
    tokenize(source.to_string())
        .into_iter()
        .map(|text| {
            let number = reading(&text);
            Token::new(text, number)
        })
        .collect()
}

fn compute(op: Builtin, a: u64, b: u64) -> u64 {
    let (x, y) = (f64::from_bits(a), f64::from_bits(b));
    let z = match op {
        Builtin::Add => x + y,
        Builtin::Sub => x - y,
        Builtin::Mul => x * y,
        Builtin::Div => x / y,
    };
    z.to_bits()
}

fn eval_in(expr: &LispExpr, env: &mut LispEnv) -> Result<LispExpr, LispError> {
    let mut results: Vec<u64> = Vec::new();
    loop {
        match eval(expr, env, &results)? {
            Step::Done(value) => return Ok(value),
            Step::Need(op, a, b) => results.push(compute(op, a, b)),
        }
    }
}

fn run(source: &str) -> Result<LispExpr, LispError> {
    let toks = tokens(source);
    let (expr, _) = parse(&toks)?;
    eval_in(&expr, &mut default_env())
}

fn num(x: f64) -> LispExpr {
    LispExpr::Number(x.to_bits())
}

fn sym(s: &str) -> LispExpr {
    LispExpr::Symbol(s.to_string())
}

fn reason(r: Result<LispExpr, LispError>) -> String {
    match r {
        Ok(v) => panic!("expected an error, got {:?}", v),
        Err(e) => e.message(),
    }
}

#[test]
fn test_add() {
    assert_eq!(run("(+ 1 2)").unwrap(), num(3.0));
}

#[test]
fn test_sub() {
    assert_eq!(run("(- 1 2)").unwrap(), num(-1.0));
}

#[test]
fn test_mul() {
    assert_eq!(run("(* 1 2 3)").unwrap(), num(6.0));
}

#[test]
fn test_div() {
    assert_eq!(run("(/ 6 2 3)").unwrap(), num(1.0));
}

#[test]
fn test_list() {
    assert_eq!(run("(+ (- 3 1) (* 1 1) (/ 1 1))").unwrap(), num(4.0));
}

#[test]
fn print_is_an_unbound_symbol() {
    assert_eq!(reason(run("(print 3)")), "unexpected symbol print");
}

#[test]
fn tokenize_splits_parentheses_and_words() {
    assert_eq!(tokenize("(+ 1 2)".to_string()), vec!["(", "+", "1", "2", ")"]);
    assert_eq!(tokenize("(a(b)c)".to_string()), vec!["(", "a", "(", "b", ")", "c", ")"]);
    assert_eq!(tokenize("abc".to_string()), vec!["abc"]);
    assert_eq!(tokenize("  abc  def ".to_string()), vec!["abc", "def"]);
}

#[test]
fn tokenize_of_nothing_is_empty() {
    assert_eq!(tokenize(String::new()), Vec::<String>::new());
    assert_eq!(tokenize(" \t\n ".to_string()), Vec::<String>::new());
}

#[test]
fn tokenize_splits_on_every_white_space() {
    let source = "a\tb\nc\u{b}d\u{c}e\rf g\u{85}h\u{a0}i\u{1680}j\u{2000}k\u{200a}l\u{2028}m\u{2029}n\u{202f}o\u{205f}p\u{3000}q";
    let expected: Vec<String> = source.split_whitespace().map(|s| s.to_string()).collect();
    assert_eq!(expected.len(), 17);
    assert_eq!(tokenize(source.to_string()), expected);
}

#[test]
fn tokenize_keeps_other_characters() {
    assert_eq!(tokenize("\u{200b}x é(".to_string()), vec!["\u{200b}x", "é", "("]);
}

#[test]
fn tokenize_agrees_with_padding_and_splitting() {
    for source in ["(+ 1 2)", "((a)b) c", ")(", "x", "", " ( ", "(+ (- 3 1) (* 1 1) (/ 1 1))"] {
        let expected: Vec<String> = source
            .replace('(', " ( ")
            .replace(')', " ) ")
            .split_whitespace()
            .map(|s| s.to_string())
            .collect();
        assert_eq!(tokenize(source.to_string()), expected);
    }
}

#[test]
fn tokens_hold_no_white_space_and_parentheses_stand_alone() {
    for t in tokenize(" (foo(bar 1.5)\t) baz)".to_string()) {
        assert!(!t.is_empty());
        assert!(!t.chars().any(|c| c.is_whitespace()));
        assert!(t == "(" || t == ")" || !t.chars().any(|c| c == '(' || c == ')'));
    }
}

#[test]
fn parse_builds_a_list() {
    let toks = tokens("(+ 1 2)");
    let (expr, rest) = parse(&toks).unwrap();
    assert_eq!(expr, LispExpr::List(vec![sym("+"), num(1.0), num(2.0)]));
    assert!(rest.is_empty());
}

#[test]
fn parse_nests_lists() {
    let toks = tokens("(a (b 2) ())");
    let (expr, rest) = parse(&toks).unwrap();
    assert_eq!(
        expr,
        LispExpr::List(vec![
            sym("a"),
            LispExpr::List(vec![sym("b"), num(2.0)]),
            LispExpr::List(vec![]),
        ])
    );
    assert!(rest.is_empty());
}

#[test]
fn parse_returns_the_tokens_left_over() {
    let toks = tokens("(+ 1) 7 x");
    let (expr, rest) = parse(&toks).unwrap();
    assert_eq!(expr, LispExpr::List(vec![sym("+"), num(1.0)]));
    assert_eq!(rest.len(), 2);
    assert_eq!(rest[0].text, "7");
    assert_eq!(rest[1].text, "x");
}

#[test]
fn parse_reads_atoms() {
    let toks = tokens("-2.5");
    assert_eq!(parse(&toks).unwrap().0, num(-2.5));
    let toks = tokens("1e3");
    assert_eq!(parse(&toks).unwrap().0, num(1000.0));
    let toks = tokens("Foo");
    assert_eq!(parse(&toks).unwrap().0, sym("Foo"));
    let toks = tokens("1x");
    assert_eq!(parse(&toks).unwrap().0, sym("1x"));
}

#[test]
fn parse_of_no_token_fails() {
    let toks = tokens("");
    assert_eq!(parse(&toks).unwrap_err().message(), "could not get token");
}

#[test]
fn parse_of_a_lone_closing_parenthesis_fails() {
    let toks = tokens(")");
    assert_eq!(parse(&toks).unwrap_err().message(), "unexpected `)`");
    let toks = tokens(") 1 2");
    assert_eq!(parse(&toks).unwrap_err().message(), "unexpected `)`");
}

#[test]
fn parse_of_an_unclosed_list_fails() {
    for source in ["(", "(+ 1", "(+ (1 2)", "((("] {
        let toks = tokens(source);
        assert_eq!(parse(&toks).unwrap_err().message(), "could not find closing `)`");
    }
}

#[test]
fn default_env_binds_the_four_operators() {
    let env = default_env();
    assert_eq!(env.data.len(), 4);
    let name = |s: &str| s.to_string();
    assert_eq!(env.get(&name("+")), Some(&LispExpr::Func(Builtin::Add)));
    assert_eq!(env.get(&name("-")), Some(&LispExpr::Func(Builtin::Sub)));
    assert_eq!(env.get(&name("*")), Some(&LispExpr::Func(Builtin::Mul)));
    assert_eq!(env.get(&name("/")), Some(&LispExpr::Func(Builtin::Div)));
    assert_eq!(env.get(&name("print")), None);
}

#[test]
fn a_new_env_binds_nothing() {
    let env = LispEnv::new();
    assert_eq!(env.data.len(), 0);
    assert_eq!(env.get(&"+".to_string()), None);
}

#[test]
fn insert_binds_and_rebinds() {
    let mut env = LispEnv::new();
    env.insert("x".to_string(), num(1.0));
    env.insert("y".to_string(), num(5.0));
    assert_eq!(env.get(&"x".to_string()), Some(&num(1.0)));
    env.insert("x".to_string(), num(2.0));
    assert_eq!(env.get(&"x".to_string()), Some(&num(2.0)));
    assert_eq!(env.get(&"y".to_string()), Some(&num(5.0)));
    assert_eq!(env.data.len(), 2);
}

#[test]
fn a_rebound_operator_is_applied() {
    let mut env = default_env();
    env.insert("+".to_string(), LispExpr::Func(Builtin::Mul));
    env.insert("twice".to_string(), LispExpr::Func(Builtin::Add));
    let toks = tokens("(+ 3 4)");
    let (expr, _) = parse(&toks).unwrap();
    assert_eq!(eval_in(&expr, &mut env).unwrap(), num(12.0));
    let toks = tokens("(twice 3 3)");
    let (expr, _) = parse(&toks).unwrap();
    assert_eq!(eval_in(&expr, &mut env).unwrap(), num(6.0));
}

#[test]
fn eval_asks_for_each_operation_in_turn() {
    let toks = tokens("(+ 1 2)");
    let (expr, _) = parse(&toks).unwrap();
    let mut env = default_env();
    let one = 1.0f64.to_bits();
    let two = 2.0f64.to_bits();
    let three = 3.0f64.to_bits();
    assert_eq!(eval(&expr, &mut env, &[]).unwrap(), Step::Need(Builtin::Add, 0.0f64.to_bits(), one));
    assert_eq!(eval(&expr, &mut env, &[one]).unwrap(), Step::Need(Builtin::Add, one, two));
    assert_eq!(eval(&expr, &mut env, &[one, three]).unwrap(), Step::Done(num(3.0)));
    assert_eq!(eval(&expr, &mut env, &[one, three, 9]).unwrap(), Step::Done(num(3.0)));
    assert_eq!(env.data.len(), 4);
    assert_eq!(env.get(&"+".to_string()), Some(&LispExpr::Func(Builtin::Add)));
}

#[test]
fn eval_folds_from_the_first_operand() {
    let toks = tokens("(- 10 3 2)");
    let (expr, _) = parse(&toks).unwrap();
    let mut env = default_env();
    let bits = |x: f64| x.to_bits();
    assert_eq!(eval(&expr, &mut env, &[]).unwrap(), Step::Need(Builtin::Sub, bits(10.0), bits(3.0)));
    assert_eq!(
        eval(&expr, &mut env, &[bits(7.0)]).unwrap(),
        Step::Need(Builtin::Sub, bits(7.0), bits(2.0))
    );
    let toks = tokens("(* 4 5)");
    let (expr, _) = parse(&toks).unwrap();
    assert_eq!(eval(&expr, &mut env, &[]).unwrap(), Step::Need(Builtin::Mul, bits(1.0), bits(4.0)));
    let toks = tokens("(/ 8 2)");
    let (expr, _) = parse(&toks).unwrap();
    assert_eq!(eval(&expr, &mut env, &[]).unwrap(), Step::Need(Builtin::Div, bits(8.0), bits(2.0)));
}

#[test]
fn eval_of_operators_without_operands() {
    assert_eq!(run("(+)").unwrap(), num(0.0));
    assert_eq!(run("(*)").unwrap(), num(1.0));
    assert_eq!(reason(run("(-)")), "too few arguments were given");
    assert_eq!(reason(run("(/)")), "too few arguments were given");
}

#[test]
fn eval_of_operators_with_one_operand() {
    assert_eq!(run("(- 5)").unwrap(), num(5.0));
    assert_eq!(run("(/ 5)").unwrap(), num(5.0));
    assert_eq!(run("(+ 5)").unwrap(), num(5.0));
    assert_eq!(run("(* 5)").unwrap(), num(5.0));
}

#[test]
fn eval_of_fractions() {
    assert_eq!(run("(/ 1 4)").unwrap(), num(0.25));
    assert_eq!(run("(+ 0.5 0.25)").unwrap(), num(0.75));
    assert_eq!(run("(* (/ 9 2) (- 1 3))").unwrap(), num(-9.0));
}

#[test]
fn division_by_zero_fails_wherever_the_zero_stands() {
    for source in ["(/ 0 1 2)", "(/ 1 0 2)", "(/ 1 2 0)", "(/ 0 0)", "(/ 5 0)", "(/ 0)", "(/ 1 -0)"] {
        assert_eq!(reason(run(source)), "divide by zero");
    }
    assert_eq!(reason(run("(/ 1 (- 2 2))")), "divide by zero");
    assert_eq!(reason(run("(+ 1 (/ 1 0))")), "divide by zero");
}

#[test]
fn an_unbound_operator_fails_before_its_operands() {
    assert_eq!(reason(run("(foo 1 2)")), "unexpected symbol foo");
    assert_eq!(reason(run("(foo (/ 1 0))")), "unexpected symbol foo");
    let toks = tokens("(foo (+ 1 2))");
    let (expr, _) = parse(&toks).unwrap();
    assert_eq!(
        eval(&expr, &mut default_env(), &[]).unwrap_err().message(),
        "unexpected symbol foo"
    );
}

#[test]
fn the_first_failing_operand_decides() {
    assert_eq!(reason(run("(+ (/ 1 0) bar)")), "divide by zero");
    assert_eq!(reason(run("(+ bar (/ 1 0))")), "unexpected symbol bar");
}

#[test]
fn operands_must_be_numbers() {
    assert_eq!(reason(run("(+ 1 +)")), "a number is expected");
    assert_eq!(reason(run("(- +)")), "a number is expected");
    assert_eq!(reason(run("(* 2 /)")), "a number is expected");
    assert_eq!(reason(run("(/ 0 +)")), "a number is expected");
}

#[test]
fn the_first_form_must_be_callable() {
    assert_eq!(reason(run("(1 2)")), "first form is not callable");
    assert_eq!(reason(run("((+ 1 2) 3)")), "first form is not callable");
}

#[test]
fn the_empty_list_fails() {
    assert_eq!(reason(run("()")), "empty list");
    assert_eq!(reason(eval_in(&LispExpr::List(vec![]), &mut default_env())), "empty list");
    assert_eq!(reason(run("(+ 1 ())")), "empty list");
}

#[test]
fn a_bare_callable_fails() {
    assert_eq!(
        reason(eval_in(&LispExpr::Func(Builtin::Add), &mut default_env())),
        "unexpected form"
    );
}

#[test]
fn numbers_and_bound_symbols_evaluate() {
    let mut env = default_env();
    assert_eq!(eval(&num(2.5), &mut env, &[]).unwrap(), Step::Done(num(2.5)));
    assert_eq!(eval(&sym("+"), &mut env, &[]).unwrap(), Step::Done(LispExpr::Func(Builtin::Add)));
    assert_eq!(run("7").unwrap(), num(7.0));
    assert_eq!(run("*").unwrap(), LispExpr::Func(Builtin::Mul));
    assert_eq!(reason(run("x")), "unexpected symbol x");
}

#[test]
fn symbols_resolve_to_copies_of_their_bindings() {
    let bound = LispExpr::List(vec![sym("a"), num(1.0)]);
    let mut env = LispEnv::new();
    env.insert("v".to_string(), bound.copy());
    assert_eq!(eval(&sym("v"), &mut env, &[]).unwrap(), Step::Done(bound));
    assert_eq!(eval(&sym("V"), &mut env, &[]).unwrap_err().message(), "unexpected symbol V");
}

#[test]
fn only_the_first_expression_is_evaluated() {
    assert_eq!(run("(+ 1 2) (/ 1 0) )").unwrap(), num(3.0));
}

#[test]
fn copy_and_message_keep_what_they_hold() {
    let e = LispExpr::List(vec![sym("x"), LispExpr::List(vec![num(1.0)]), LispExpr::Func(Builtin::Div)]);
    assert_eq!(e.copy(), e);
    assert_eq!(LispError::new("why").message(), "why");
}

#[test]
fn white_space_is_what_the_standard_library_calls_so() {
    for code in 0u32..=0x10FFFF {
        if let Some(c) = char::from_u32(code) {
            if c == '(' || c == ')' {
                continue;
            }
            let found = tokenize(c.to_string());
            assert_eq!(found.is_empty(), c.is_whitespace(), "U+{:04X}", code);
        }
    }
}

#[test]
fn evaluation_reads_one_result_for_each_operation() {
    let toks = tokens("(+ (- 3 1) (* 1 1) (/ 1 1))");
    let (expr, _) = parse(&toks).unwrap();
    let mut env = default_env();
    let mut results: Vec<u64> = Vec::new();
    let value = loop {
        match eval(&expr, &mut env, &results).unwrap() {
            Step::Done(value) => break value,
            Step::Need(op, a, b) => results.push(compute(op, a, b)),
        }
    };
    assert_eq!(value, num(4.0));
    assert_eq!(results.len(), 7);
    let bits: Vec<f64> = results.iter().map(|r| f64::from_bits(*r)).collect();
    assert_eq!(bits, vec![2.0, 1.0, 1.0, 1.0, 2.0, 3.0, 4.0]);
}

#[test]
fn a_wrong_result_is_taken_as_it_is() {
    let toks = tokens("(/ 1 (+ 1 1))");
    let (expr, _) = parse(&toks).unwrap();
    let mut env = default_env();
    let zero = 0.0f64.to_bits();
    assert_eq!(eval(&expr, &mut env, &[zero, zero]).unwrap_err().message(), "divide by zero");
}
