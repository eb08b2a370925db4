use numlang::eval::{run, EvalError, State};
use numlang::format::fmt;
use numlang::lexer::{lex, ParseError, Token};
use numlang::parser::{parse, Expression};
use numlang::value::{display, range_values, Value};

const FUEL: u64 = 1_000_000;

fn run_with(state: &mut State, src: &str) -> Result<(), EvalError> {
    let exprs = parse(src).expect("source parses");
    run(&exprs, state, FUEL)
}

fn output_of(src: &str) -> (Result<(), EvalError>, String) {
    let mut state = State::new();
    let r = run_with(&mut state, src);
    (r, state.output.iter().map(|b| *b as char).collect())
}

fn printed(src: &str) -> String {
    let (r, out) = output_of(src);
    assert_eq!(r, Ok(()));
    out
}

fn reformat(src: &str) -> String {
    fmt(parse(src).expect("source parses"))
}

#[test]
fn hello_world() {
    assert_eq!(printed("10<72 101 108 108 111 32 119 111 114 108 100 10"), "Hello world\n");
}

#[test]
fn sum_then_text() {
    assert_eq!(printed("10<11<2<40 2"), "42");
}

#[test]
fn fibonacci_user_function() {
    let mut state = State::new();
    let def = "30<100 1 (20<(4<(0<1) 2) (2<(100<(6<(0<1) 1)) (100<(6<(0<1) 2))) (0<1))";
    assert_eq!(run_with(&mut state, def), Ok(()));
    assert_eq!(run_with(&mut state, "10<11<100<10"), Ok(()));
    assert_eq!(state.output, b"55".to_vec());
}

#[test]
fn fibonacci_without_brackets_absorbs_arguments() {
    let mut state = State::new();
    assert_eq!(run_with(&mut state, "30<100 1 20<4<0<1 2<1 0<1 2<100<6<0<1 1 100<6<0<1 2"), Ok(()));
    assert_eq!(run_with(&mut state, "10<11<100<10"), Err(EvalError::ArityError));
}

#[test]
fn function_call_restores_variables() {
    assert_eq!(printed("(1<7 42) (30<100 (8) (1<7 99)) (100<0) 10<11<0<7"), "42");
}

#[test]
fn for_loop_accumulates() {
    assert_eq!(printed("(1<1 0) (22<2 (42<0 5) (1<1 (2<(0<1) (0<2)))) 10<11<0<1"), "10");
}

#[test]
fn nested_tuple_indexing() {
    assert_eq!(printed("10<11<40<(1 (2 3) 4) 1"), "(2 3)");
    assert_eq!(printed("10<11<40<(40<(1 (2 3) 4) 1) 0"), "2");
}

#[test]
fn if_takes_only_selected_branch() {
    assert_eq!(printed("20<1 (10<65) (0<999)"), "A");
    assert_eq!(printed("20<0 (0<999) (10<66)"), "B");
    assert_eq!(printed("20<() (0<999) (10<67)"), "C");
}

#[test]
fn range_is_half_open() {
    assert_eq!(printed("10<11<42<3 7"), "(3 4 5 6)");
    assert_eq!(printed("10<11<42<5 2"), "()");
    match range_values(-2, 1) {
        Value::Tuple(t) => {
            let ns: Vec<Option<i32>> = t.iter().map(|v| v.unwrap_num()).collect();
            assert_eq!(ns, vec![Some(-2), Some(-1), Some(0)]);
        }
        Value::Number(_) => panic!("range gives a tuple"),
    }
}

#[test]
fn call_leaves_state_as_before() {
    let mut state = State::new();
    assert_eq!(run_with(&mut state, "(1<5 7) 30<101 (9) (1<5 (0<9))"), Ok(()));
    assert_eq!(run_with(&mut state, "10<101<65"), Ok(()));
    assert_eq!(state.output, b"".to_vec());
    assert_eq!(run_with(&mut state, "10<101<(0<5)"), Ok(()));
    assert_eq!(run_with(&mut state, "10<0<5"), Ok(()));
    assert_eq!(state.output, vec![7u8]);
    assert_eq!(state.variables.len(), 1);
}

#[test]
fn print_in_call_is_kept() {
    assert_eq!(printed("(30<100 (1) (10<(0<1))) 100<72"), "H");
}

#[test]
fn for_loop_restores_bound_variable() {
    assert_eq!(printed("(1<3 88) (22<3 (42<0 3) (1<4 (0<3))) 10<(0<3) (0<4)"), "X\u{2}");
    assert_eq!(printed("(22<3 (42<0 3) (1<4 (0<3))) 10<0<3"), "\u{2}");
}

#[test]
fn for_loop_saves_binding_after_collection() {
    assert_eq!(printed("(1<3 88) (22<3 (44<(1<3 77) 1) 0) 10<0<3"), "M");
}

#[test]
fn while_loop_counts_down() {
    assert_eq!(printed("(1<1 3) (21<(0<1) (1<1 6<(0<1) 1)) 10<11<0<1"), "0");
}

#[test]
fn arithmetic_builtins() {
    assert_eq!(printed("10<11<6<1 5"), "-4");
    assert_eq!(printed("10<11<5<2 3 7"), "42");
    assert_eq!(printed("10<11<5<"), "1");
    assert_eq!(printed("10<11<2<"), "0");
    assert_eq!(printed("10<11<7<7 2"), "3");
    assert_eq!(printed("10<11<7<(6<0 7) 2"), "-3");
    assert_eq!(printed("10<11<4<1 2"), "0");
    assert_eq!(printed("10<11<4<2 2"), "1");
    assert_eq!(printed("10<11<4<3 2"), "2");
    assert_eq!(printed("10<11<3<(1 2) (1 2)"), "1");
    assert_eq!(printed("10<11<3<(1 2) 1"), "0");
}

#[test]
fn tuple_builtins() {
    assert_eq!(printed("10<11<41<(1 2 3)"), "3");
    assert_eq!(printed("10<11<41<5"), "1");
    assert_eq!(printed("10<11<43<(1 2 3)"), "3");
    assert_eq!(printed("10<11<43<9"), "9");
    assert_eq!(printed("10<11<44<(1 2) 3"), "(1 2 3)");
    assert_eq!(printed("10<11<44<1 (2 3)"), "(1 (2 3))");
    assert_eq!(printed("10<11<40<7 0"), "7");
    assert_eq!(printed("10<11<()"), "()");
}

#[test]
fn print_flattens_and_keeps_low_byte() {
    assert_eq!(printed("10<(72 (105)) 256 33"), "Hi\u{0}!");
    let (r, out) = output_of("10<(6<0 191)");
    assert_eq!(r, Ok(()));
    assert_eq!(out, "A");
}

#[test]
fn defined_function_sees_earlier_variables() {
    assert_eq!(printed("(1<3 60) (30<105 (4) (2<(0<3) (0<4))) 10<105<5"), "A");
}

#[test]
fn error_undefined_variable() {
    assert_eq!(output_of("0<3").0, Err(EvalError::NameError));
}

#[test]
fn error_undefined_function() {
    assert_eq!(output_of("150<3").0, Err(EvalError::NameError));
}

#[test]
fn error_defun_below_100() {
    assert_eq!(output_of("30<50 1 1").0, Err(EvalError::NameError));
}

#[test]
fn error_arity() {
    assert_eq!(output_of("6<1").0, Err(EvalError::ArityError));
    assert_eq!(output_of("(30<100 (1 2) 0) 100<1").0, Err(EvalError::ArityError));
}

#[test]
fn error_type() {
    assert_eq!(output_of("2<1 (2 3)").0, Err(EvalError::TypeError));
    assert_eq!(output_of("(1 2)<3").0, Err(EvalError::TypeError));
    assert_eq!(output_of("30<100 (1 (2 3)) 0").0, Err(EvalError::TypeError));
}

#[test]
fn error_range() {
    assert_eq!(output_of("40<(1 2) 2").0, Err(EvalError::RangeError));
    assert_eq!(output_of("40<5 1").0, Err(EvalError::RangeError));
    assert_eq!(output_of("40<(1 2) (6<0 1)").0, Err(EvalError::RangeError));
    assert_eq!(output_of("43<()").0, Err(EvalError::RangeError));
}

#[test]
fn error_arith() {
    assert_eq!(output_of("7<1 0").0, Err(EvalError::ArithError));
    assert_eq!(output_of("2<2147483647 1").0, Err(EvalError::ArithError));
    assert_eq!(output_of("5<65536 65536").0, Err(EvalError::ArithError));
}

#[test]
fn error_out_of_fuel() {
    let mut state = State::new();
    let exprs = parse("21<1 0").unwrap();
    assert_eq!(run(&exprs, &mut state, 50), Err(EvalError::OutOfFuel));
}

#[test]
fn lexer_tokens() {
    assert_eq!(
        lex("(12<3.75)>x"),
        vec![Token::Open, Token::Number(12), Token::In, Token::Number(3), Token::Close, Token::Out]
    );
    assert_eq!(lex("1.a"), vec![Token::Number(1)]);
    assert_eq!(lex("1a2"), vec![Token::Number(1), Token::Number(2)]);
    assert_eq!(lex(""), vec![]);
    assert_eq!(lex("2147483647"), vec![Token::Number(2147483647)]);
    assert_eq!(lex("2147483648 1"), vec![Token::LargeNumber, Token::Number(1)]);
}

#[test]
fn parse_errors() {
    assert_eq!(parse("(1 2").err(), Some(ParseError::UnexpectedToken));
    assert_eq!(parse("1 > 2").err(), Some(ParseError::UnexpectedToken));
    assert_eq!(parse("99999999999").err(), Some(ParseError::NumberTooLarge));
    assert_eq!(parse("(1 99999999999)").err(), Some(ParseError::NumberTooLarge));
}

#[test]
fn parsing_stops_at_unbalanced_close() {
    let es = parse("1) 99999999999").unwrap();
    assert_eq!(es.len(), 1);
    assert!(matches!(es[0], Expression::Number(1)));
}

#[test]
fn parse_shapes() {
    let es = parse("(5) () (1 2) 3<4 5").unwrap();
    assert_eq!(es.len(), 4);
    assert!(matches!(es[0], Expression::Number(5)));
    assert!(matches!(&es[1], Expression::Tuple(t) if t.is_empty()));
    assert!(matches!(&es[2], Expression::Tuple(t) if t.len() == 2));
    assert!(matches!(&es[3], Expression::Call { args, .. } if args.len() == 2));
    assert_eq!(parse("1 2) 3").unwrap().len(), 2);
}

#[test]
fn format_rules() {
    assert_eq!(reformat("1  2\n3"), "1 2 3");
    assert_eq!(reformat("(1 2) 3"), "(1 2)3");
    assert_eq!(reformat("1<2 3"), "1<2 3");
    assert_eq!(reformat("(1<2) 3"), "(1<2)3");
    assert_eq!(reformat("4 (1<2)"), "4 1<2");
    assert_eq!(reformat("((1 2)<3)"), "(1 2)<3");
    assert_eq!(reformat(""), "");
    assert_eq!(fmt(vec![Expression::Number(-3)]), "-3");
}

#[test]
fn format_then_parse_round_trip() {
    for src in ["1<2 3 (4<5) 6", "(1 (2 3) ()) 7<8<9", "(1<2)(3<4) 5", "20<(4<1 2) (10<65) 1", "((1<2)<3) 4"] {
        let once = reformat(src);
        assert_eq!(reformat(&once), once);
    }
}

#[test]
fn call_as_callee_is_bracketed() {
    assert_eq!(reformat("(1<2)<3"), "(1<2)<3");
    assert_eq!(reformat("1<2<3"), "1<2<3");
    assert_eq!(reformat("((1<2)<3)<4 5"), "((1<2)<3)<4 5");
    let es = parse("(1<2)<3").unwrap();
    assert!(matches!(&es[0], Expression::Call { func, args } if args.len() == 1 && matches!(**func, Expression::Call { .. })));
    let again = parse(&fmt(es)).unwrap();
    assert!(matches!(&again[0], Expression::Call { func, args } if args.len() == 1 && matches!(**func, Expression::Call { .. })));
}

#[test]
fn skipped_characters_do_not_change_parse() {
    assert_eq!(reformat("1 abc 2 (3 , 4)"), reformat("1 2(3 4)"));
    assert_eq!(reformat("10<\n 11 <2<40 2"), reformat("10<11<2<40 2"));
    assert_eq!(reformat("12"), "12");
    assert_eq!(reformat("1 2"), "1 2");
}

#[test]
fn display_values() {
    let v = Value::Tuple(vec![Value::Number(1), Value::Tuple(vec![]), Value::Number(-20)]);
    assert_eq!(display(v), "(1 () -20)");
    assert_eq!(display(Value::Number(7)), "7");
}
