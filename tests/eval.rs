use starql::eval::Eval;
use starql::interpreter::Interpreter;
use starql::lexer::Lexer;
use starql::number::Number;
use starql::parser::Parser;
use starql::value::Value;
use starql::error::Error;
use starql::ops::{FilterOperator, FirstOperator, Operator, ParamList, Pipe, RawValue};

fn num(n: i64) -> Value {
    Value::Number(Number::from_int(n))
}

fn expect(exprstr: &str, expected: Value) {
    let lexer = Lexer::new(exprstr);
    let tokens = lexer.tokenize().unwrap();
    let mut parser = Parser::new(tokens);
    let ast = parser.parse().unwrap();
    let mut e = Eval::new(None);
    let actual = e.visit(&ast).unwrap();
    assert_eq!(actual, expected);
}

fn run(q: &str) -> Result<Value, Error> {
    Interpreter::interpret(q)
}

#[test]
fn test_add() {
    expect("2 + 3", num(5))
}

#[test]
fn test_query() {
    expect("2 + 3 == 5; ", Value::Bool(true));
    expect("2 + 3 == 5; false", Value::Bool(false));
}

#[test]
fn test_boolops() {
    expect("true or true", Value::Bool(true));
    expect("true or false", Value::Bool(true));
    expect("false and true", Value::Bool(false));
    expect("false and false", Value::Bool(false));
}

#[test]
fn test_relation() {
    expect("2 == 1", Value::Bool(false));
    expect("2 != 1", Value::Bool(true));
    expect("2 == 2", Value::Bool(true));
    expect("2 >= 2", Value::Bool(true));
    expect("2 >= 1", Value::Bool(true));
    expect("2 > 1", Value::Bool(true));
    expect("2 < 1", Value::Bool(false));
    expect("2 <= 1", Value::Bool(false));
    expect("2 <= 2", Value::Bool(true));

    // equality also works on booleans etc
    expect("true == true", Value::Bool(true));
    expect("false == false", Value::Bool(true));
    expect("true == false", Value::Bool(false));
    expect("true != false", Value::Bool(true));
    expect("false != false", Value::Bool(false));

    // and strings
    expect("\"hi\" == \"hi\"", Value::Bool(true));
    expect("\"hi\" != \"hi\"", Value::Bool(false));
    expect("\"hi\" != \"bye\"", Value::Bool(true));
}

#[test]
fn arithmetic_exact_values() {
    expect("2 - 5", num(-3));
    expect("2 * 3 + 4", num(10));
    expect("2 * (3 + 4)", num(14));
    expect("-3", num(-3));
    expect("--3", num(3));
    expect("7 / 2", Value::Number(Number { num: 7, den: 2 }));
    expect("0.5 + 0.25 == 0.75", Value::Bool(true));
    expect("05.13 == 5.13", Value::Bool(true));
    expect("1 / 3 * 3 == 1", Value::Bool(true));
    expect("1 < 1.5", Value::Bool(true));
}

#[test]
fn string_concatenation() {
    expect("\"ab\" + \"cd\"", Value::String("abcd".to_string()));
}

#[test]
fn operator_type_errors() {
    assert!(matches!(run("1 + true"), Err(Error::Type(starql::lexer::TokenType::Plus))));
    assert!(matches!(run("\"a\" - \"b\""), Err(Error::Type(starql::lexer::TokenType::Minus))));
    assert!(matches!(run("\"a\" < 1"), Err(Error::Type(starql::lexer::TokenType::Lesser))));
    assert!(matches!(run("1 and true"), Err(Error::Type(starql::lexer::TokenType::And))));
    assert!(matches!(run("-true"), Err(Error::Type(starql::lexer::TokenType::Minus))));
    assert!(matches!(run("1 == true"), Ok(Value::Bool(false))));
}

#[test]
fn division_by_zero_gives_non_finite_numbers() {
    assert_eq!(run("1 / 0").unwrap(), Value::Number(Number::infinity()));
    assert_eq!(run("-2 / 0").unwrap(), Value::Number(Number { num: -1, den: 0 }));
    assert_eq!(run("1 / 0 == 1 / 0").unwrap(), Value::Bool(true));
    assert_eq!(run("1 / 0 == -1 / 0").unwrap(), Value::Bool(false));
    assert_eq!(run("1 / 0 > 1000000").unwrap(), Value::Bool(true));
    assert_eq!(run("-1 / 0 < -1000000").unwrap(), Value::Bool(true));
    assert_eq!(run("5 / (1 / 0)").unwrap(), num(0));
    // NaN: zero over zero, inf - inf, inf * 0; it equals nothing and is unordered
    assert_eq!(run("n = 0 / 0; $n == $n").unwrap(), Value::Bool(false));
    assert_eq!(run("n = 0 / 0; $n != $n").unwrap(), Value::Bool(true));
    assert_eq!(run("n = 1 / 0 - 1 / 0; $n < 1 or $n >= 1").unwrap(), Value::Bool(false));
    assert_eq!(run("n = (1 / 0) * 0; $n <= $n").unwrap(), Value::Bool(false));
    assert_eq!(run("1 / 0 + 1 / 0 == 1 / 0").unwrap(), Value::Bool(true));
    assert_eq!(run("-(1 / 0) == -1 / 0").unwrap(), Value::Bool(true));
}

#[test]
fn number_out_of_range_fails() {
    assert!(matches!(run("99999999999999999999"), Err(Error::NumberRange)));
    assert!(matches!(run("9223372036854775807 + 1"), Err(Error::NumberRange)));
    expect("9223372036854775807", num(i64::MAX));
}

#[test]
fn binding_and_lookup() {
    assert_eq!(run("x = 5; $x").unwrap(), num(5));
    assert_eq!(run("x = 5; y = $x * 2; $y + 1").unwrap(), num(11));
}

#[test]
fn redefinition_in_one_scope_fails() {
    assert!(matches!(run("x = 5; x = 6"), Err(Error::Redefinition(n)) if n == "x"));
}

#[test]
fn undefined_variable_fails() {
    assert!(matches!(run("$y"), Err(Error::UndefinedVariable(n)) if n == "y"));
}

#[test]
fn bare_identifier_is_no_value() {
    assert!(matches!(run("abc"), Err(Error::UnexpectedAtom)));
}

#[test]
fn list_homogeneity() {
    assert_eq!(run("[1,2,3]").unwrap(), Value::List(vec![num(1), num(2), num(3)]));
    assert!(matches!(run("[1, \"a\"]"), Err(Error::MixedList)));
    assert!(matches!(run("[[1], [\"a\"]]"), Err(Error::MixedList)));
    assert!(matches!(run("[[], [1]]"), Err(Error::MixedList)));
    assert_eq!(run("[]").unwrap(), Value::List(vec![]));
    assert_eq!(run("[{a=1, b=\"x\"}, {b=\"y\", a=2}]").unwrap().get_type().equals(&run("[{b=\"z\", a=3}]").unwrap().get_type()), true);
}

#[test]
fn record_values() {
    let r = run("{xyz=123, foo=\"bar\"}").unwrap();
    let expected = Value::Record(vec![
        ("xyz".to_string(), num(123)),
        ("foo".to_string(), Value::String("bar".to_string())),
    ]);
    assert_eq!(r, expected);
    assert_eq!(run("{a=1, b=2} == {b=2, a=1}").unwrap(), Value::Bool(true));
    assert_eq!(run("{a=1, b=2} == {a=1, b=3}").unwrap(), Value::Bool(false));
    // a repeated name takes the later value
    assert_eq!(run("{a=1, a=2}").unwrap(), Value::Record(vec![("a".to_string(), num(2))]));
}

#[test]
fn list_equality_is_ordered() {
    assert_eq!(run("[1, 2] == [1, 2]").unwrap(), Value::Bool(true));
    assert_eq!(run("[1, 2] == [2, 1]").unwrap(), Value::Bool(false));
    assert_eq!(run("[1, 2] == [1, 2, 3]").unwrap(), Value::Bool(false));
}

#[test]
fn empty_query_fails() {
    let mut e = Eval::new(None);
    let q = starql::ast::Ast::Query(vec![]);
    assert!(matches!(e.visit(&q), Err(Error::EmptyQuery)));
}

#[test]
fn pipeline_first_takes_the_front() {
    assert_eq!(run("[1,2,3,4] | first()").unwrap(), Value::List(vec![num(1)]));
    assert_eq!(run("[1,2,3,4] | std.first()").unwrap(), Value::List(vec![num(1)]));
}

#[test]
fn pipeline_filter_keeps_order() {
    assert_eq!(run("[1,2,3,4] | filter(where=@ > 2)").unwrap(), Value::List(vec![num(3), num(4)]));
    assert_eq!(run("[4,1,3,2] | filter(where=@ < 4)").unwrap(), Value::List(vec![num(1), num(3), num(2)]));
    assert_eq!(run("[1,2,3] | filter(where=true)").unwrap(), Value::List(vec![num(1), num(2), num(3)]));
    assert_eq!(run("n = 2; [1,2,3] | filter(where=@ > $n)").unwrap(), Value::List(vec![num(3)]));
    assert_eq!(run("[1,2,3,4] | filter(where=@ > 1) | first()").unwrap(), Value::List(vec![num(2)]));
}

#[test]
fn pipeline_errors() {
    assert!(matches!(run("[1] | a.b(hi=1)"), Err(Error::UnknownOperator)));
    assert!(matches!(run("[1] | x.y.first()"), Err(Error::UnknownOperator)));
    assert!(matches!(run("5 | first()"), Err(Error::NotAList)));
    assert!(matches!(run("[] | first()"), Err(Error::EmptyInput)));
    assert!(matches!(run("[1] | filter()"), Err(Error::MissingArgument(n)) if n == "where"));
    assert!(matches!(run("[1] | filter(where=1)"), Err(Error::BadArgument(n)) if n == "where"));
    assert!(matches!(run("[1] | filter(where=$nope)"), Err(Error::UndefinedVariable(_))));
    assert!(matches!(run("[] | filter(where=$nope)"), Err(Error::UndefinedVariable(_))));
    assert_eq!(run("[] | filter(where=@ > $nope)").unwrap(), Value::List(vec![]));
}

#[test]
fn local_is_unbound_outside_pipelines() {
    assert!(matches!(run("@"), Err(Error::UndefinedVariable(n)) if n == "@"));
}

#[test]
fn pipe_pulls_elements_in_order() {
    let mut eval = Eval::new(None);
    let args = vec![];
    let mut pipe = Pipe::new(vec![num(1), num(2), num(3)], ParamList::<RawValue>::new(vec![]));
    let first = pipe.pull_single(&mut eval, &args).unwrap().unwrap();
    assert_eq!(first.0, num(1));
    let rest = pipe.pull(&mut eval, &args).unwrap();
    assert_eq!(rest.len(), 2);
    assert_eq!(rest[0].0, num(2));
    assert_eq!(rest[1].0, num(3));
    assert!(pipe.is_empty());
    assert!(pipe.pull_single(&mut eval, &args).unwrap().is_none());
    let mut big = Pipe::new((0..100).map(num).collect(), ParamList::<RawValue>::new(vec![]));
    assert_eq!(big.pull(&mut eval, &args).unwrap().len(), 64);
    assert_eq!(big.pull_all(&mut eval, &args).unwrap().len(), 36);
}

#[test]
fn param_list_finds_first_by_name() {
    let mut p = ParamList::new(vec![("a".to_string(), 1), ("b".to_string(), 2)]);
    p.push("a".to_string(), 3);
    assert_eq!(p.get("a"), Some(&1));
    assert_eq!(p.get("b"), Some(&2));
    assert_eq!(p.get("c"), None);
}

#[test]
fn operator_signatures() {
    let f = FirstOperator {}.signature();
    assert_eq!(f.namespace, "std");
    assert_eq!(f.name, "first");
    let g = FilterOperator {}.signature();
    assert_eq!(g.name, "filter");
    let h = <FirstOperator as Operator>::signature(&FirstOperator {});
    assert_eq!(h.name, "first");
    assert!(g.params_t.get("where").is_some());
}

#[test]
fn printed_query_evaluates_the_same() {
    use_printer_round_trip("1 + 2 * 3 - 4 / 8");
    use_printer_round_trip("x = 2; [1, 2, 3] | filter(where=@ >= $x and @ != 3)");
    use_printer_round_trip("{a=1 + 1, b=\"x\"} == {b=\"x\", a=2}");
    use_printer_round_trip("-(2 - 5) * 2");
}

fn use_printer_round_trip(q: &str) {
    let tokens = Lexer::new(q).tokenize().unwrap();
    let ast = Parser::new(tokens).parse().unwrap();
    let text = starql::printer::Printer {}.visit(&ast);
    assert_eq!(run(&text).unwrap(), run(q).unwrap());
}
