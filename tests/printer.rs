use starql::lexer::Lexer;
use starql::parser::Parser;
use starql::printer::Printer;
use starql::error::Error;
use starql::ast::Visitor;

fn printed(exprstr: &str) -> String {
    let lexer = Lexer::new(exprstr);
    let tokens = lexer.tokenize().unwrap();
    let mut parser = Parser::new(tokens);
    let expr = parser.parse().unwrap();
    let printer = Printer {};
    printer.visit(&expr)
}

fn _compare_printed(exprstr: &str, expected: String) {
    let actual = printed(exprstr);
    assert_eq!(actual, expected);
}

fn parse_fails(q: &str) -> bool {
    let tokens = Lexer::new(q).tokenize().unwrap();
    matches!(Parser::new(tokens).parse(), Err(Error::Parse(_)))
}

#[test]
fn end_to_end() {
    let exprstr = "1 + 2 * 3";
    let expected = "(1 + (2 * 3))".to_string();
    _compare_printed(exprstr, expected);
}

#[test]
fn with_booleans() {
    let exprstr = "2 >= 3 or true and 1 == 2";
    let expected = "((2 >= 3) or (true and (1 == 2)))".to_string();
    _compare_printed(exprstr, expected);
}

#[test]
fn parse_list() {
    let exprstr = "[1,2,3]";
    let expected = "[1, 2, 3]".to_string();
    _compare_printed(exprstr, expected)
}

#[test]
fn parse_record() {
    let first = "{xyz=123, foo=\"bar\"}";
    let second = "{foo=\"bar\",xyz=123}";
    let expected = "{foo=\"bar\", xyz=123}".to_string();
    _compare_printed(first, expected.clone());
    _compare_printed(second, expected);
}

#[test]
fn parse_opexp() {
    let expstr = "12 | a.b.c(x=123, y=\"hi\",)";
    let expected = "12 | a.b.c(x=123, y=\"hi\")".to_string();
    _compare_printed(expstr, expected);
}

#[test]
fn parse_statement() {
    let expstr = "name = 12 | a.b.c(x=123, y=\"hi\",)";
    let expected = "name = 12 | a.b.c(x=123, y=\"hi\")".to_string();
    _compare_printed(expstr, expected);
    _compare_printed("5", "5".to_string());
}

#[test]
fn parse_program() {
    let expstr = "name = 12 | a.b.c(x=123, y=\"hi\",); abc = 8; 5;";
    let expected = "name = 12 | a.b.c(x=123, y=\"hi\");\nabc = 8;\n5".to_string();
    _compare_printed(expstr, expected);
}

#[test]
fn parse_underscores() {
    let exprstr = "ab_bc1 = 1; _bc = 5";
    let expected = "ab_bc1 = 1;\n_bc = 5".to_string();
    _compare_printed(exprstr, expected)
}

#[test]
fn parse_comments() {
    let exprstr = "// this is commment;\nx = 5; $x";
    let expected = "x = 5;\n$x".to_string();
    _compare_printed(exprstr, expected)
}

#[test]
fn parse_local_closure() {
    let exprstr = "[0, 1, 2] | a.b(where=@)";
    let expected = exprstr.to_string();
    _compare_printed(exprstr, expected)
}

#[test]
fn parse_large_list_of_records() {
    let numstr = (0..10000)
        .map(|i: i32| format!("{{x={}, y={}}}", i, i))
        .collect::<Vec<String>>()
        .join(", ");
    let expstr = format!("[{}]", numstr);
    let expected = expstr.clone();
    _compare_printed(&expstr, expected);
}

#[test]
fn arguments_are_sorted_and_calls_chained() {
    _compare_printed("[1] | f(z=1, a=2) | g.h()", "[1] | f(a=2, z=1) | g.h()".to_string());
}

#[test]
fn unary_and_grouping() {
    _compare_printed("-(1 + 2) * 3", "((- (1 + 2)) * 3)".to_string());
}

#[test]
fn binary_levels_fold_left() {
    _compare_printed("1 - 2 - 3", "((1 - 2) - 3)".to_string());
    _compare_printed("1 < 2 == true", "((1 < 2) == true)".to_string());
}

#[test]
fn reprinting_is_stable() {
    for q in [
        "[1, 2, 3]",
        "{b=1, a=[2, 3]}",
        "x = [0, 1] | a.b(where=@, k=\"s\") | c()",
        "a = 1; b = {z=$a, y=2}; $b",
        "1 + 2 * 3",
        "2 >= 3 or true and 1 == 2",
        "-(1 + 2) * 3 / -4",
        "1 - 2 - 3; x = (1 - (2 - 3)) != 4",
        "[1 + 2, $x * -3] | filter(where=@ > 2 and @ <= 9) | first()",
        "{a=1 + 2, b=\"s\" + \"t\"} == {b=\"st\", a=3}",
    ] {
        let once = printed(q);
        assert_eq!(printed(&once), once);
    }
}

#[test]
fn parse_errors() {
    assert!(parse_fails("1 +"));
    assert!(parse_fails("(1"));
    assert!(parse_fails("1 2"));
    assert!(parse_fails("[1, 2"));
    assert!(parse_fails("{a 1}"));
    assert!(parse_fails("1 | a.(x=1)"));
    assert!(parse_fails("1;;"));
    assert!(parse_fails(""));
}

#[test]
fn accept_dispatches_to_the_visitor() {
    let tokens = Lexer::new("x = [1 + 2, @] | f(a=1)").tokenize().unwrap();
    let ast = Parser::new(tokens).parse().unwrap();
    let text: String = ast.accept(&Printer {});
    assert_eq!(text, "x = [(1 + 2), @] | f(a=1)");
    let local: bool = ast.accept(&starql::localfinder::LocalFinder {});
    assert!(local);
    let tokens = Lexer::new("{b=2, a=-1}").tokenize().unwrap();
    let ast = Parser::new(tokens).parse().unwrap();
    let text: String = ast.accept(&Printer {});
    assert_eq!(text, "{a=(- 1), b=2}");
    let local: bool = ast.accept(&starql::localfinder::LocalFinder {});
    assert!(!local);
}
