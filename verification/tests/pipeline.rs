use calculator::convert::convert;
use calculator::convert::infix_to_postfix;
use calculator::eval::evaluate_postfix;
use calculator::eval::BinOp;
use calculator::eval::Expr;
use calculator::precedence::get_precedence;
use calculator::token::tokenize;

fn strings(words: &[&str]) -> Vec<String> {
    let mut v: Vec<String> = Vec::new();
    for w in words {
        v.push((*w).to_string());
    }
    v
}

/// Folds the symbolic value of a postfix sequence into its floating-point
/// value, the numeric reading the library leaves to its caller.
fn fold(e: &Expr) -> f64 {
    match e {
        Expr::Num(s) => s.parse::<f64>().unwrap_or(0.0),
        Expr::Zero => 0.0,
        Expr::Bin(op, a, b) => {
            let x = fold(a);
            let y = fold(b);
            match op {
                BinOp::Add => x + y,
                BinOp::Sub => x - y,
                BinOp::Mul => x * y,
                BinOp::Div => x / y,
                BinOp::Pow => x.powf(y),
            }
        }
    }
}

fn evaluate(tokens: &Vec<String>) -> f64 {
    fold(&evaluate_postfix(tokens))
}

fn is_char_subsequence(a: &[char], b: &[char]) -> bool {
    let mut j: usize = 0;
    for c in a {
        loop {
            if j >= b.len() {
                return false;
            }
            if b[j] == *c {
                j += 1;
                break;
            }
            j += 1;
        }
    }
    true
}

#[test]
fn tokenize_is_deterministic() {
    let s = "3 + 4 * 2 / ( 1 - 5 ) ^ 2 ^ 3";
    let first = tokenize(s);
    let second = tokenize(s);
    assert_eq!(first, second);
}

#[test]
fn tokens_cover_input_in_order() {
    let s = "12a + 3.5*x(2) ,,7";
    let tokens = tokenize(s);
    let mut concat: Vec<char> = Vec::new();
    for t in &tokens {
        for c in t.chars() {
            concat.push(c);
        }
    }
    let input: Vec<char> = s.chars().collect();
    assert!(is_char_subsequence(&concat, &input));
}

#[test]
fn tokenize_splits_numbers_and_symbols() {
    assert_eq!(tokenize("3 + 4 * 2"), strings(&["3", "+", "4", "*", "2"]));
    assert_eq!(tokenize("(1+2)*3"), strings(&["(", "1", "+", "2", ")", "*", "3"]));
}

#[test]
fn tokenize_numeric_shapes() {
    assert_eq!(tokenize("12. .5 3.14 ."), strings(&["12", ".5", "3.14"]));
    assert_eq!(tokenize("1..2"), strings(&["1", ".2"]));
    assert_eq!(tokenize("007"), strings(&["007"]));
}

#[test]
fn tokenize_skips_unrecognized_characters() {
    assert_eq!(tokenize("a1b+c"), strings(&["1", "+"]));
    assert_eq!(tokenize(" abc def "), Vec::<String>::new());
}

#[test]
fn tokenize_empty_is_empty() {
    assert_eq!(tokenize(""), Vec::<String>::new());
}

#[test]
fn precedence_table() {
    assert_eq!(get_precedence("+"), 1);
    assert_eq!(get_precedence("-"), 1);
    assert_eq!(get_precedence("*"), 2);
    assert_eq!(get_precedence("/"), 2);
    assert_eq!(get_precedence("^"), 3);
    assert_eq!(get_precedence("("), 0);
    assert_eq!(get_precedence(")"), 0);
    assert_eq!(get_precedence("12"), 0);
    assert_eq!(get_precedence(""), 0);
    assert_eq!(get_precedence("**"), 0);
}

#[test]
fn convert_respects_precedence() {
    assert_eq!(infix_to_postfix("3 + 4 * 2"), strings(&["3", "4", "2", "*", "+"]));
}

#[test]
fn convert_is_left_associative() {
    assert_eq!(infix_to_postfix("8 - 4 - 2"), strings(&["8", "4", "-", "2", "-"]));
}

#[test]
fn convert_power_is_left_associative() {
    assert_eq!(infix_to_postfix("2 ^ 3 ^ 2"), strings(&["2", "3", "^", "2", "^"]));
}

#[test]
fn convert_groups_parentheses() {
    let postfix = infix_to_postfix("(1 + 2) * 3");
    assert_eq!(postfix, strings(&["1", "2", "+", "3", "*"]));
    assert_eq!(evaluate(&postfix), 9.0);
}

#[test]
fn convert_empty_is_empty() {
    assert_eq!(convert(&Vec::new()), Vec::<String>::new());
}

#[test]
fn convert_tolerates_unmatched_parens() {
    // an unmatched `(` is flushed at the end with the operators
    assert_eq!(infix_to_postfix("(1 + 2"), strings(&["1", "2", "+", "("]));
    // an unmatched `)` finds no `(` and empties the stack silently
    assert_eq!(infix_to_postfix(") 1 + 2"), strings(&["1", "2", "+"]));
}

#[test]
fn convert_keeps_every_number_and_operator() {
    // duplicates are kept apart: nothing is dropped or merged
    assert_eq!(infix_to_postfix("1 + 1"), strings(&["1", "1", "+"]));
    assert_eq!(
        infix_to_postfix("2 * 2 * 2"),
        strings(&["2", "2", "*", "2", "*"])
    );
}

#[test]
fn full_pipeline_example() {
    let postfix = infix_to_postfix("3 + 4 * 2 / ( 1 - 5 ) ^ 2 ^ 3");
    assert_eq!(
        postfix,
        strings(&["3", "4", "2", "*", "1", "5", "-", "2", "^", "3", "^", "/", "+"])
    );
    // 3 + (4*2) / (((1-5) ^ 2) ^ 3) = 3 + 8 / 4096, with ^ left-associative
    assert_eq!(evaluate(&postfix), 3.001953125);
}

#[test]
fn evaluator_stack_machine() {
    assert_eq!(evaluate(&strings(&["2", "3", "+"])), 5.0);
    assert_eq!(evaluate(&strings(&["6", "2", "/"])), 3.0);
    assert_eq!(evaluate(&strings(&["2", "10", "^"])), 1024.0);
}

#[test]
fn evaluator_builds_the_expression() {
    match evaluate_postfix(&strings(&["2", "3", "+"])) {
        Expr::Bin(BinOp::Add, a, b) => {
            assert!(matches!(*a, Expr::Num(ref s) if s.as_str() == "2"));
            assert!(matches!(*b, Expr::Num(ref s) if s.as_str() == "3"));
        }
        other => panic!("unexpected expression {:?}", other),
    }
}

#[test]
fn evaluator_empty_input_is_zero() {
    assert!(matches!(evaluate_postfix(&Vec::new()), Expr::Zero));
    assert_eq!(evaluate(&Vec::new()), 0.0);
}

#[test]
fn evaluator_missing_operands_default_to_zero() {
    assert_eq!(evaluate(&strings(&["5", "+"])), 5.0);
    assert_eq!(evaluate(&strings(&["+"])), 0.0);
    assert_eq!(evaluate(&strings(&["8", "-"])), -8.0);
}

#[test]
fn evaluator_ignores_unknown_symbols() {
    // a token that is neither a number nor an operator has no stack effect
    assert_eq!(evaluate(&strings(&["1", "2", "x", "+"])), 3.0);
    assert_eq!(evaluate(&strings(&["1", "2", "("])), 2.0);
}

#[test]
fn division_by_zero_is_infinity() {
    let r = evaluate(&strings(&["1", "0", "/"]));
    assert!(r.is_infinite() && r > 0.0);
    assert_eq!(r, f64::INFINITY);
}
