use calculator::error::ErrorKind;
use calculator::num::Num;
use calculator::operator::Operator;
use calculator::paren::Paren;
use calculator::term::Term;

#[test]
fn operator_characters() {
    for c in ['+', '-', '*', '/', '^'] {
        assert!(Operator::is_operator(c));
    }
    for c in ['(', ')', '1', ' ', '&', '%', 'x'] {
        assert!(!Operator::is_operator(c));
    }
}

#[test]
fn operator_parse_between_operands() {
    assert_eq!(Operator::parse('+', false), Ok(Operator::Add));
    assert_eq!(Operator::parse('-', false), Ok(Operator::Sub));
    assert_eq!(Operator::parse('*', false), Ok(Operator::Mul));
    assert_eq!(Operator::parse('/', false), Ok(Operator::Div));
    assert_eq!(Operator::parse('^', false), Ok(Operator::Pow));
    assert_eq!(Operator::parse('&', false), Err(ErrorKind::InvalidOperator));
}

#[test]
fn operator_parse_as_sign() {
    assert_eq!(Operator::parse('+', true), Ok(Operator::Plus));
    assert_eq!(Operator::parse('-', true), Ok(Operator::Minus));
    assert_eq!(Operator::parse('*', true), Err(ErrorKind::InvalidOperator));
    assert_eq!(Operator::parse('/', true), Err(ErrorKind::InvalidOperator));
    assert_eq!(Operator::parse('^', true), Err(ErrorKind::InvalidOperator));
}

#[test]
fn operator_priority_and_arity() {
    assert_eq!(Operator::Add.priority(), 1);
    assert_eq!(Operator::Sub.priority(), 1);
    assert_eq!(Operator::Mul.priority(), 2);
    assert_eq!(Operator::Div.priority(), 2);
    assert_eq!(Operator::Plus.priority(), 3);
    assert_eq!(Operator::Minus.priority(), 3);
    assert_eq!(Operator::Pow.priority(), 4);
    assert!(Operator::Plus.is_unary());
    assert!(Operator::Minus.is_unary());
    assert!(!Operator::Add.is_unary());
    assert!(!Operator::Sub.is_unary());
    assert!(!Operator::Mul.is_unary());
    assert!(!Operator::Div.is_unary());
    assert!(!Operator::Pow.is_unary());
}

#[test]
fn operator_calculate_binary() {
    let two = Term::Num(Num::I32(2));
    let three = Term::Num(Num::I32(3));
    assert_eq!(Operator::Add.calculate_binary(&two, &three), Ok(Term::Num(Num::I32(5))));
    assert_eq!(Operator::Sub.calculate_binary(&two, &three), Ok(Term::Num(Num::I32(-1))));
    assert_eq!(Operator::Mul.calculate_binary(&two, &three), Ok(Term::Num(Num::I32(6))));
    assert_eq!(Operator::Pow.calculate_binary(&two, &three), Ok(Term::Num(Num::I32(8))));
    let q = Operator::Div.calculate_binary(&two, &three).unwrap();
    assert_eq!(q.to_text(), "2 / 3");
    assert_eq!(
        Operator::Div.calculate_binary(&two, &Term::Num(Num::I32(0))),
        Err(ErrorKind::DivisionByZero)
    );
}

#[test]
fn operator_calculate_with_wrong_arity_or_operands() {
    let two = Term::Num(Num::I32(2));
    let plus = Term::Operator(Operator::Add);
    let open = Term::Paren(Paren::Left);
    assert_eq!(Operator::Plus.calculate_binary(&two, &two), Err(ErrorKind::InvalidOperation));
    assert_eq!(Operator::Minus.calculate_binary(&two, &two), Err(ErrorKind::InvalidOperation));
    assert_eq!(Operator::Add.calculate_unary(&two), Err(ErrorKind::InvalidOperation));
    assert_eq!(Operator::Pow.calculate_unary(&two), Err(ErrorKind::InvalidOperation));
    assert_eq!(Operator::Add.calculate_binary(&two, &plus), Err(ErrorKind::InvalidOperation));
    assert_eq!(Operator::Add.calculate_binary(&open, &two), Err(ErrorKind::InvalidOperation));
    assert_eq!(Operator::Minus.calculate_unary(&plus), Err(ErrorKind::InvalidOperation));
    assert_eq!(Operator::Plus.calculate_unary(&open), Err(ErrorKind::InvalidOperation));
}

#[test]
fn operator_calculate_unary() {
    let two = Term::Num(Num::I32(2));
    assert_eq!(Operator::Plus.calculate_unary(&two), Ok(Term::Num(Num::I32(2))));
    assert_eq!(Operator::Minus.calculate_unary(&two), Ok(Term::Num(Num::I32(-2))));
    assert_eq!(
        Operator::Minus.calculate_unary(&Term::Num(Num::I32(-2147483648))),
        Err(ErrorKind::NegOverflow)
    );
}

#[test]
fn operator_text() {
    assert_eq!(Operator::Add.to_text(), "+");
    assert_eq!(Operator::Sub.to_text(), "-");
    assert_eq!(Operator::Mul.to_text(), "*");
    assert_eq!(Operator::Div.to_text(), "/");
    assert_eq!(Operator::Pow.to_text(), "^");
    assert_eq!(Operator::Plus.to_text(), "+");
    assert_eq!(Operator::Minus.to_text(), "-");
}

#[test]
fn paren_parse_and_text() {
    assert!(Paren::is_paren('('));
    assert!(Paren::is_paren(')'));
    assert!(!Paren::is_paren('['));
    assert_eq!(Paren::parse('('), Ok(Paren::Left));
    assert_eq!(Paren::parse(')'), Ok(Paren::Right));
    assert_eq!(Paren::parse('x'), Err(ErrorKind::InvalidParen));
    assert!(Paren::Left.is_left());
    assert!(!Paren::Right.is_left());
    assert_eq!(Paren::Left.to_text(), "(");
    assert_eq!(Paren::Right.to_text(), ")");
}

#[test]
fn term_text_and_clone() {
    let terms = [
        (Term::Num(Num::I32(-5)), "-5"),
        (Term::Operator(Operator::Mul), "*"),
        (Term::Paren(Paren::Right), ")"),
    ];
    for (term, text) in terms {
        assert_eq!(term.to_text(), text);
        assert_eq!(term.clone(), term);
    }
}

#[test]
fn error_messages() {
    assert_eq!(ErrorKind::UnsupportedCharacter.message(), "対応していない文字です");
    assert_eq!(ErrorKind::ConsecutiveOperators.message(), "演算子が連続しています");
    assert_eq!(ErrorKind::ConsecutiveNumbers.message(), "数値が連続しています");
    assert_eq!(ErrorKind::InvalidOperator.message(), "無効な演算子です");
    assert_eq!(ErrorKind::OperatorNotFound.message(), "演算子が見つかりません");
    assert_eq!(ErrorKind::InvalidOperation.message(), "無効な演算です");
    assert_eq!(ErrorKind::InvalidNumber.message(), "数値に変換できません");
    assert_eq!(ErrorKind::InvalidParen.message(), "括弧にparseができませんでした");
    assert_eq!(ErrorKind::MismatchedParen.message(), "括弧の対応が取れていません");
    assert_eq!(ErrorKind::UnclosedParen.message(), "括弧が閉じられていません");
    assert_eq!(ErrorKind::EmptyParen.message(), "括弧の中に要素がありませんでした");
    assert_eq!(ErrorKind::ParseFailed.message(), "構文解析に失敗しました");
    assert_eq!(ErrorKind::DivisionByZero.message(), "0で割ることはできません");
    assert_eq!(ErrorKind::NegativeExponent.message(), "負数の累乗はできません");
    assert_eq!(ErrorKind::GcdUnsupported.message(), "gcdは使用できない型です");
    assert_eq!(ErrorKind::NotInteger.message(), "int32に変換できません");
    assert_eq!(
        ErrorKind::FractionPartNotInteger.message(),
        "分数の分子と分母は整数でなければなりません"
    );
    assert_eq!(ErrorKind::AddOverflow.message(), "int32の範囲を超える加算です");
    assert_eq!(ErrorKind::SubOverflow.message(), "int32の範囲を超える減算です");
    assert_eq!(ErrorKind::MulOverflow.message(), "int32の範囲を超える乗算です");
    assert_eq!(ErrorKind::DivOverflow.message(), "int32の範囲を超える除算です");
    assert_eq!(ErrorKind::PowOverflow.message(), "int32の範囲を超える累乗です");
    assert_eq!(ErrorKind::NegOverflow.message(), "int32の範囲を超える符号反転です");
    assert_eq!(ErrorKind::EmptyVariableName.message(), "変数が空です");
    assert_eq!(ErrorKind::LongVariableName.message(), "変数は1文字でなければなりません");
    assert_eq!(ErrorKind::InvalidVariableName.message(), "変数はa-zでなければなりません");
    assert_eq!(ErrorKind::EmptyVariableValue.message(), "変数の値が空です");
    assert_eq!(ErrorKind::UnknownMode.message(), "Unknown mode");
    let half = Num::I32(1).div(&Num::I32(2)).unwrap();
    assert_eq!(
        ErrorKind::UnsupportedPower { base: Num::I32(-2), exponent: half }.message(),
        "-2の1 / 2乗は計算できません"
    );
}
