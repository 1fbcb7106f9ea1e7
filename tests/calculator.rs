use rpn_c::calculator::{Calculator, Output};

fn run(calculator: &mut Calculator, line: &str) -> Vec<Output> {
    calculator.parse(String::from(line))
}

fn lines(outputs: &[Output]) -> Vec<String> {
    let mut v = Vec::new();
    for o in outputs {
        match o {
            Output::Line(s) => v.push(format!("out {}", s)),
            Output::Diagnostic(s) => v.push(format!("err {}", s)),
            Output::Bytes(b) => v.push(format!("bytes {:?}", b)),
            Output::Approx(r) => v.push(format!("approx {}", r)),
        }
    }
    v
}

fn eval_line(line: &str) -> Vec<String> {
    let mut c = Calculator::new();
    lines(&run(&mut c, line))
}

#[test]
fn sum_of_two() {
    assert_eq!(eval_line("2 3 + ="), vec!["out > 5", "out 0 elements in stack"]);
}

#[test]
fn sum_of_fractions() {
    assert_eq!(eval_line("1 2 / 1 3 / + ="), vec!["out > 5/6", "out 0 elements in stack"]);
}

#[test]
fn variables() {
    assert_eq!(eval_line("5 =x 4 =y x y * ="), vec!["out > 20", "out 0 elements in stack"]);
}

#[test]
fn naive_fibonacci() {
    assert_eq!(
        eval_line("$0 1 ~ nfib $0 2 ~ nfib + $0 $0 1 ~ ? nfib|1 10 nfib ="),
        vec!["out > 55", "out 0 elements in stack"]
    );
}

#[test]
fn tail_recursive_fibonacci() {
    assert_eq!(
        eval_line("$1 $0 $1 + $2 1 ~ fib_rec $1 $2 ? fib_rec|3 1 0 $0 fib_rec tfib|1 30 tfib ="),
        vec!["out > 832040", "out 0 elements in stack"]
    );
}

#[test]
fn iterative_fibonacci() {
    assert_eq!(
        eval_line("$1 $0 $1 + $2 1 ~ $1 $2 fib_aux@3 1 0 $0 fib_aux fib|1 30 fib ="),
        vec!["out > 832040", "out 0 elements in stack"]
    );
}

#[test]
fn if_selects_one_arm() {
    // The operands are then, else, condition: a zero condition takes the else arm.
    assert_eq!(eval_line("0 1 0 ? ="), vec!["out > 1", "out 0 elements in stack"]);
    assert_eq!(eval_line("7 8 0 ? ="), vec!["out > 8", "out 0 elements in stack"]);
    assert_eq!(eval_line("1 1 0 ? ="), vec!["out > 1", "out 0 elements in stack"]);
    assert_eq!(eval_line("1 0 1 ? ="), vec!["out > 1", "out 0 elements in stack"]);
}

#[test]
fn format_of_string() {
    assert_eq!(eval_line("\"hi\" &"), vec!["bytes [104, 105]", "out 0 elements in stack"]);
}

#[test]
fn string_literal_is_big_endian() {
    assert_eq!(eval_line("\"hi\" ="), vec!["out > 26729", "out 0 elements in stack"]);
}

#[test]
fn string_escapes() {
    assert_eq!(
        eval_line("\"a\\n\\41\\\"\" &"),
        vec!["bytes [97, 10, 65, 34]", "out 0 elements in stack"]
    );
}

#[test]
fn format_round_trip() {
    let text = "hello, world";
    let out = eval_line(&format!("\"{}\" &", text));
    assert_eq!(out[0], format!("bytes {:?}", text.as_bytes()));
}

#[test]
fn format_of_fraction() {
    assert_eq!(
        eval_line("\"a\" \"b\" / &"),
        vec!["bytes [97]", "bytes [98]", "out 0 elements in stack"]
    );
}

#[test]
fn thirds_add_to_one() {
    assert_eq!(eval_line("1 3 / 1 3 / + 1 3 / + ="), vec!["out > 1", "out 0 elements in stack"]);
}

#[test]
fn literal_fraction_is_reduced() {
    assert_eq!(eval_line("4/6 ="), vec!["out > 2/3", "out 0 elements in stack"]);
    assert_eq!(eval_line("-4/6 ="), vec!["out > -2/3", "out 0 elements in stack"]);
}

#[test]
fn deep_tail_recursion() {
    assert_eq!(
        eval_line("$0 1 - down 0 $0 ? down|1 100000 down ="),
        vec!["out > 0", "out 0 elements in stack"]
    );
}

#[test]
fn untaken_arm_may_fail() {
    assert_eq!(eval_line("1 1 0 / 1 ? ="), vec!["out > 1", "out 0 elements in stack"]);
    assert_eq!(eval_line("nothere 2 0 ? ="), vec!["out > 2", "out 0 elements in stack"]);
}

#[test]
fn reassignment_replaces() {
    assert_eq!(eval_line("5 =x 7 =x x ="), vec!["out > 7", "out 0 elements in stack"]);
}

#[test]
fn redefinition_with_other_arity() {
    let mut c = Calculator::new();
    run(&mut c, "$0 $1 + f|2");
    run(&mut c, "$0 1 - f 0 $0 ? f|1");
    assert_eq!(lines(&run(&mut c, "5 f =")), vec!["out > 0", "out 0 elements in stack"]);
}

#[test]
fn division_by_zero() {
    assert_eq!(
        eval_line("1 0 / ="),
        vec!["err Cannot divide by zero", "err Incomplete expression", "out 0 elements in stack"]
    );
}

#[test]
fn integer_division_by_zero() {
    assert_eq!(
        eval_line("1 0 \\ ="),
        vec!["err Cannot divide by zero", "err Incomplete expression", "out 0 elements in stack"]
    );
}

#[test]
fn argument_outside_function() {
    assert_eq!(
        eval_line("$0 ="),
        vec![
            "err Arguments are only allowed in functions",
            "err Incomplete expression",
            "out 1 elements in stack"
        ]
    );
}

#[test]
fn argument_beyond_arity() {
    assert_eq!(
        eval_line("$1 g|1 3 g ="),
        vec!["err Invalid argument", "err Incomplete expression", "out 0 elements in stack"]
    );
}

#[test]
fn incomplete_expression() {
    assert_eq!(eval_line("+ ="), vec!["err Incomplete expression", "out 1 elements in stack"]);
}

#[test]
fn undefined_name() {
    assert_eq!(
        eval_line("foo ="),
        vec!["err Undefined name: foo", "err Incomplete expression", "out 0 elements in stack"]
    );
}

#[test]
fn unrecognized_token() {
    assert_eq!(
        eval_line("@ 1 ="),
        vec!["err Dropped unrecognized token!", "out > 1", "out 0 elements in stack"]
    );
}

#[test]
fn incomplete_function_declaration() {
    assert_eq!(
        eval_line("f|1"),
        vec!["err Incomplete function declaration", "out 0 elements in stack"]
    );
    assert_eq!(
        eval_line("1 g@1"),
        vec!["err Incomplete function declaration", "out 1 elements in stack"]
    );
}

#[test]
fn partial_pushes_back() {
    assert_eq!(
        eval_line("2 3 + # ="),
        vec!["out < 5", "out > 5", "out 0 elements in stack"]
    );
}

#[test]
fn duplicate_pushes_twice() {
    assert_eq!(eval_line("3 < * ="), vec!["out > 9", "out 0 elements in stack"]);
}

#[test]
fn flush_prints_from_the_top() {
    assert_eq!(
        eval_line("1 2 3 >"),
        vec!["out > 3", "out > 2", "out > 1", "out 0 elements in stack"]
    );
}

#[test]
fn flush_stops_at_incomplete() {
    assert_eq!(
        eval_line("+ 2 >"),
        vec!["out > 2", "err Incomplete expression", "out 1 elements in stack"]
    );
}

#[test]
fn print_shows_stack() {
    assert_eq!(
        eval_line("1 2/4 + $3 x :"),
        vec!["out 1 1/2 + $3 x ", "out 5 elements in stack"]
    );
}

#[test]
fn drop_removes_one_expression() {
    assert_eq!(eval_line("1 2 3 + ! ="), vec!["out > 1", "out 0 elements in stack"]);
}

#[test]
fn drop_on_incomplete_empties() {
    assert_eq!(eval_line("1 + !"), vec!["out 0 elements in stack"]);
}

#[test]
fn empty_clears() {
    assert_eq!(eval_line("1 2 %"), vec!["out 0 elements in stack"]);
}

#[test]
fn integer_division_floors() {
    assert_eq!(eval_line("7 2 \\ ="), vec!["out > 3", "out 0 elements in stack"]);
    assert_eq!(eval_line("-7 2 \\ ="), vec!["out > -4", "out 0 elements in stack"]);
}

#[test]
fn positive_minus() {
    assert_eq!(eval_line("2 5 ~ ="), vec!["out > 0", "out 0 elements in stack"]);
    assert_eq!(eval_line("5 2 ~ ="), vec!["out > 3", "out 0 elements in stack"]);
}

#[test]
fn powers() {
    assert_eq!(eval_line("2 10 ^ ="), vec!["out > 1024", "out 0 elements in stack"]);
    assert_eq!(eval_line("2/3 2 ^ ="), vec!["out > 4/9", "out 0 elements in stack"]);
    assert_eq!(eval_line("0 0 ^ ="), vec!["out > 1", "out 0 elements in stack"]);
    assert_eq!(eval_line("2 -3 ^ ="), vec!["out > 8", "out 0 elements in stack"]);
}

#[test]
fn modular_power() {
    assert_eq!(eval_line("2 10 1000 _ ="), vec!["out > 24", "out 0 elements in stack"]);
    assert_eq!(
        eval_line("2 10 0 _ ="),
        vec!["err Cannot divide by zero", "err Incomplete expression", "out 0 elements in stack"]
    );
}

#[test]
fn approximation() {
    assert_eq!(eval_line("1 4 / []"), vec!["approx 1/4", "out 0 elements in stack"]);
}

#[test]
fn comments_and_negative_literals() {
    assert_eq!(eval_line("-2 3 - = ; ignored 1 2 +"), vec!["out > -5", "out 0 elements in stack"]);
}

#[test]
fn hyphenated_names() {
    assert_eq!(eval_line("3 =a-b a-b 1 + ="), vec!["out > 4", "out 0 elements in stack"]);
}

#[test]
fn zero_denominator_literal() {
    assert_eq!(
        eval_line("1/0 ="),
        vec!["err Dropped unrecognized token!", "err Incomplete expression", "out 0 elements in stack"]
    );
}

#[test]
fn extractor_takes_one_expression() {
    assert_eq!(eval_line("1 2 3 + ="), vec!["out > 5", "out 1 elements in stack"]);
}

#[test]
fn evaluation_is_repeatable() {
    let mut c = Calculator::new();
    run(&mut c, "$0 $0 * sq|1");
    let first = lines(&run(&mut c, "7/3 sq ="));
    let second = lines(&run(&mut c, "7/3 sq ="));
    assert_eq!(first, vec!["out > 49/9", "out 0 elements in stack"]);
    assert_eq!(first, second);
}

#[test]
fn iterative_keeps_prior_definition_on_failure() {
    let mut c = Calculator::new();
    run(&mut c, "$0 2 * h|1");
    assert_eq!(
        lines(&run(&mut c, "1 h@2")),
        vec!["err Incomplete function declaration", "out 1 elements in stack"]
    );
    assert_eq!(lines(&run(&mut c, "% 4 h =")), vec!["out > 8", "out 0 elements in stack"]);
}

#[test]
fn exponent_is_floor_of_absolute_value() {
    assert_eq!(eval_line("2 -5/2 ^ ="), vec!["out > 4", "out 0 elements in stack"]);
    assert_eq!(eval_line("2 5/2 ^ ="), vec!["out > 4", "out 0 elements in stack"]);
    assert_eq!(eval_line("2 -1/2 ^ ="), vec!["out > 1", "out 0 elements in stack"]);
}

#[test]
fn modular_power_takes_floor_of_absolute_values() {
    assert_eq!(eval_line("2 -5/2 100 _ ="), vec!["out > 4", "out 0 elements in stack"]);
    assert_eq!(eval_line("2 10 -1001/2 _ ="), vec!["out > 24", "out 0 elements in stack"]);
    assert_eq!(eval_line("-7/2 2 10 _ ="), vec!["out > 6", "out 0 elements in stack"]);
}
