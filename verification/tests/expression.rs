use calculator::expression::Expression;
use calculator::num::Num;
use calculator::term::Term;

#[test]
fn test_parse() {
    let input = "1 + 2 * 3 - 1";
    let expression = Expression::parse(input).unwrap();
    println!("{} = {}", input, expression.display());
    assert_eq!(expression.display(), input);
}

#[test]
fn test_calculate() {
    let input = "1 + 2 * 3 - 1";
    let expression = Expression::parse(input).unwrap();
    let result = expression.calculate().unwrap();
    println!("{} = {}", input, result.to_text());
    assert_eq!(result, Term::Num(Num::I32(6)));
}
