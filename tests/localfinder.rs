use starql::lexer::Lexer;
use starql::localfinder::LocalFinder;
use starql::parser::Parser;

fn _compare_printed(exprstr: &str, expected: bool) {
    let lexer = Lexer::new(exprstr);
    let tokens = lexer.tokenize().unwrap();
    let mut parser = Parser::new(tokens);
    let expr = parser.parse().unwrap();
    let localfinder = LocalFinder {};
    let actual = localfinder.visit(&expr);
    assert_eq!(actual, expected);
}

#[test]
fn test_all() {
    _compare_printed("1 + 2 * 3", false);
    _compare_printed("1 + 2 * $hi", false);
    _compare_printed("1 + @ * 3", true);
    _compare_printed("1 + @ * $hi", true);
    _compare_printed("[0, $abc, 1 + @ * $hi]", true);
    _compare_printed("[0, $abc, 1 + @ * $hi] | a.b(hi=1)", true);
    _compare_printed("[0, $abc, 1 + $hi] | a.b(hi=1)", false);
}

#[test]
fn arguments_of_calls_are_scanned() {
    _compare_printed("1", false);
    _compare_printed("[0, 1, 2] | a.b(where=@)", true);
    _compare_printed("[0] | a.b(x=1) | c(y=-@)", true);
    _compare_printed("{a=1, b=@}", true);
    _compare_printed("x = 1; $x", false);
}
