use calculator::calculator::Calculator;
use calculator::error::ErrorKind;
use calculator::expression::Expression;
use calculator::node::{Node, Tree};
use calculator::num::Num;
use calculator::operator::Operator;
use calculator::paren::Paren;
use calculator::term::Term;

#[test]
fn parse_reports_each_syntax_error() {
    let cases = [
        ("1 & 2", ErrorKind::UnsupportedCharacter),
        ("a", ErrorKind::UnsupportedCharacter),
        ("1 + + 2", ErrorKind::ConsecutiveOperators),
        ("- - 1", ErrorKind::ConsecutiveOperators),
        ("2 * -3", ErrorKind::ConsecutiveOperators),
        ("1 2", ErrorKind::ConsecutiveNumbers),
        ("* 2", ErrorKind::InvalidOperator),
        ("/ 2", ErrorKind::InvalidOperator),
        ("^ 2", ErrorKind::InvalidOperator),
        ("(* 2)", ErrorKind::InvalidOperator),
        ("2147483648", ErrorKind::InvalidNumber),
        ("-2147483648 / -1", ErrorKind::InvalidNumber),
        ("1 / -1", ErrorKind::ConsecutiveOperators),
        ("1 + 2)", ErrorKind::MismatchedParen),
        (")", ErrorKind::MismatchedParen),
        ("()", ErrorKind::EmptyParen),
        ("1 + ()", ErrorKind::EmptyParen),
    ];
    for (input, expected) in cases {
        match Expression::parse(input) {
            Ok(_) => panic!("should be error"),
            Err(e) => assert_eq!(e, expected),
        }
    }
}

#[test]
fn parse_reports_the_first_error_from_the_left() {
    match Expression::parse("1 2 &") {
        Ok(_) => panic!("should be error"),
        Err(e) => assert_eq!(e, ErrorKind::ConsecutiveNumbers),
    }
    match Expression::parse("& 1 2") {
        Ok(_) => panic!("should be error"),
        Err(e) => assert_eq!(e, ErrorKind::UnsupportedCharacter),
    }
    match Expression::parse("99999999999&") {
        Ok(_) => panic!("should be error"),
        Err(e) => assert_eq!(e, ErrorKind::InvalidNumber),
    }
}

#[test]
fn unfinished_trees_fail_when_used() {
    let cases = [
        ("", ErrorKind::ParseFailed),
        ("   ", ErrorKind::ParseFailed),
        ("1 +", ErrorKind::ParseFailed),
        ("-", ErrorKind::ParseFailed),
        ("(1 + )", ErrorKind::ParseFailed),
        ("(", ErrorKind::UnclosedParen),
        ("1 + (2 * 3", ErrorKind::UnclosedParen),
        ("((1)", ErrorKind::UnclosedParen),
    ];
    for (input, expected) in cases {
        let expression = Expression::parse(input).unwrap();
        assert_eq!(expression.calculate(), Err(expected));
        assert_eq!(expression.display(), "構文解析に失敗しました");
    }
}

#[test]
fn display_puts_one_space_between_tokens() {
    let cases = [
        ("1+2*3-1", "1 + 2 * 3 - 1"),
        ("  1  +  2  ", "1 + 2"),
        ("(1+2)*3", "( 1 + 2 ) * 3"),
        ("((1))", "( ( 1 ) )"),
        ("-(-2+1)*3", "- ( - 2 + 1 ) * 3"),
        ("+1", "+ 1"),
        ("2^3^2", "2 ^ 3 ^ 2"),
        ("12/34", "12 / 34"),
        ("1\t+\n2", "1 + 2"),
        ("1\u{3000}+\u{a0}2", "1 + 2"),
    ];
    for (input, expected) in cases {
        assert_eq!(Expression::parse(input).unwrap().display(), expected);
    }
}

#[test]
fn display_writes_canonical_numbers_and_implied_products() {
    let cases = [
        ("007", "7"),
        ("000", "0"),
        ("1+02", "1 + 2"),
        ("2(3)", "2 * ( 3 )"),
        ("(1)(2)", "( 1 ) * ( 2 )"),
        ("(1)2", "( 1 ) * 2"),
        ("1 + 2(2 * 3)", "1 + 2 * ( 2 * 3 )"),
        ("(1 + 2)2 * 3", "( 1 + 2 ) * 2 * 3"),
    ];
    for (input, expected) in cases {
        assert_eq!(Expression::parse(input).unwrap().display(), expected);
    }
}

#[test]
fn display_of_a_display_is_the_same() {
    let inputs = [
        "1+2*3-1",
        "2 - (1 + 2) * 3",
        "1 + 2(2 * 3)",
        "(1 + 2)2 * 3",
        "-2 ^ 3 ^ 2 * 2 - 3",
        "007 + (0)(00)",
        "1/2 + 3/(-4)",
        "((((5))))",
        "2147483647",
    ];
    for input in inputs {
        let once = Expression::parse(input).unwrap().display();
        let twice = Expression::parse(&once).unwrap().display();
        assert_eq!(once, twice);
    }
}

#[test]
fn calculate_respects_precedence_and_grouping() {
    let cases = [
        ("1 + 2 * 3 - 1", 6),
        ("2 - (1 + 2) * 3", -7),
        ("1 + 2(2 * 3)", 13),
        ("(1 + 2)2 * 3", 18),
        ("2 * 3 + 4", 10),
        ("2 + 3 * 4", 14),
        ("10 - 4 - 3", 3),
        ("100 / 10 / 5", 2),
        ("2 ^ 3 ^ 2", 64),
        ("2 * 3 ^ 2", 18),
        ("-2 ^ 2", -4),
        ("(-2) ^ 2", 4),
        ("-3 + 5", 2),
        ("-(3 + 5)", -8),
        ("2 * (-3)", -6),
        ("4 / 2", 2),
        ("0 ^ 0", 1),
        ("(((7)))", 7),
    ];
    for (input, expected) in cases {
        let value = Expression::parse(input).unwrap().calculate();
        assert_eq!(value, Ok(Term::Num(Num::I32(expected))));
    }
}

#[test]
fn calculate_keeps_fractions_exact() {
    let cases = [
        ("1/2 + 3/4", "5 / 4"),
        ("1/2 + 1/2", "1"),
        ("1/3 * 3", "1"),
        ("6 / 4", "3 / 2"),
        ("1 / 2 / 2", "1 / 4"),
        ("1/2 - 1/2", "0"),
        ("3 / (-6)", "-1 / 2"),
        ("(3 / 2) ^ 3", "27 / 8"),
        ("(2 / 3) ^ 0", "1"),
    ];
    for (input, expected) in cases {
        let value = Expression::parse(input).unwrap().calculate().unwrap();
        assert_eq!(value.to_text(), expected);
    }
}

#[test]
fn calculate_stops_at_the_first_error() {
    let cases = [
        ("2147483647 + 1", ErrorKind::AddOverflow),
        ("-2147483647 - 2", ErrorKind::SubOverflow),
        ("2147483647 * 2", ErrorKind::MulOverflow),
        ("(-2147483647 - 1) / (-1)", ErrorKind::DivOverflow),
        ("2147483647 ^ 2", ErrorKind::PowOverflow),
        ("-(-2147483647 - 1)", ErrorKind::NegOverflow),
        ("1 / 0", ErrorKind::DivisionByZero),
        ("1 / 0 + (2147483647 + 1)", ErrorKind::DivisionByZero),
        ("(2147483647 + 1) + 1 / 0", ErrorKind::AddOverflow),
        ("2 ^ (-3)", ErrorKind::NegativeExponent),
    ];
    for (input, expected) in cases {
        assert_eq!(Expression::parse(input).unwrap().calculate(), Err(expected));
    }
}

#[test]
fn calculate_refuses_a_fractional_exponent() {
    let value = Expression::parse("2 ^ (3 / 2)").unwrap().calculate();
    let exponent = Num::I32(3).div(&Num::I32(2)).unwrap();
    assert_eq!(value, Err(ErrorKind::UnsupportedPower { base: Num::I32(2), exponent }));
}

#[test]
fn format_input_is_the_input() {
    assert_eq!(Calculator::format_input("1 + 2"), "1 + 2");
    assert_eq!(Calculator::format_input(""), "");
    assert_eq!(Calculator::format_input(" x "), " x ");
}

#[test]
fn calculate_and_format_joins_text_and_value() {
    assert_eq!(Calculator::calculate_and_format("6/4"), Ok("6 / 4 → 3 / 2".to_string()));
    assert_eq!(Calculator::calculate_and_format("4/2"), Ok("4 / 2 → 2".to_string()));
    assert_eq!(
        Calculator::calculate_and_format(""),
        Err("構文解析に失敗しました".to_string())
    );
}

#[test]
fn simple_reader_takes_two_integers_and_an_operator() {
    let cases = [
        ("1 + 2", "1 + 2", 3),
        ("  12  /  4  ", "12 / 4", 3),
        ("-5*3", "-5 * 3", -15),
        ("7-10", "7 - 10", -3),
        ("1 - -2", "1 - -2", 3),
        ("3 * +2", "3 * 2", 6),
    ];
    for (input, text, value) in cases {
        let expression = Calculator::parse(input).unwrap();
        assert_eq!(expression.display(), text);
        assert_eq!(expression.calculate(), Ok(Term::Num(Num::I32(value))));
    }
}

#[test]
fn simple_reader_errors() {
    let cases = [
        ("1", ErrorKind::OperatorNotFound),
        ("", ErrorKind::OperatorNotFound),
        ("   ", ErrorKind::OperatorNotFound),
        ("-", ErrorKind::OperatorNotFound),
        ("1 & 2", ErrorKind::InvalidOperator),
        ("1 ^ 2", ErrorKind::InvalidOperator),
        ("x + 2", ErrorKind::InvalidOperator),
        ("1 +", ErrorKind::InvalidNumber),
        ("+ 2", ErrorKind::InvalidNumber),
        ("1 + 2 3", ErrorKind::InvalidNumber),
        ("1 + x", ErrorKind::InvalidNumber),
        ("2147483648 + 1", ErrorKind::InvalidNumber),
    ];
    for (input, expected) in cases {
        match Calculator::parse(input) {
            Ok(_) => panic!("should be error"),
            Err(e) => assert_eq!(e, expected),
        }
    }
}

#[test]
fn expression_of_two_operands() {
    let e = Expression::new(Term::Num(Num::I32(6)), Term::Num(Num::I32(4)), Operator::Div);
    assert_eq!(e.display(), "6 / 4");
    assert_eq!(e.calculate().unwrap().to_text(), "3 / 2");
    let e = Expression::new(Term::Num(Num::I32(6)), Term::Num(Num::I32(4)), Operator::Minus);
    assert_eq!(e.calculate(), Err(ErrorKind::ParseFailed));
}

#[test]
fn expression_from_a_tree_built_by_hand() {
    let mut tree: Tree<Term> = Tree::new();
    let paren = tree.insert(Node::new(Some(Term::Paren(Paren::Right))));
    let add = tree.insert(Node::new(Some(Term::Operator(Operator::Add))));
    let one = tree.insert(Node::new(Some(Term::Num(Num::I32(1)))));
    let two = tree.insert(Node::new(Some(Term::Num(Num::I32(2)))));
    tree.add_child(paren, add);
    tree.add_child(add, one);
    tree.add_child(add, two);
    let expression = Expression::new_from_ast(tree, paren);
    assert_eq!(expression.display(), "( 1 + 2 )");
    assert_eq!(expression.calculate(), Ok(Term::Num(Num::I32(3))));
}

#[test]
fn expression_from_a_tree_of_the_wrong_shape() {
    let mut tree: Tree<Term> = Tree::new();
    let add = tree.insert(Node::new(Some(Term::Operator(Operator::Add))));
    for n in [1, 2, 3] {
        let leaf = tree.insert(Node::new(Some(Term::Num(Num::I32(n)))));
        tree.add_child(add, leaf);
    }
    let expression = Expression::new_from_ast(tree, add);
    assert_eq!(expression.display(), "構文解析に失敗しました");
    assert_eq!(expression.calculate(), Err(ErrorKind::ParseFailed));
}
