use vstd::prelude::*;
use vstd::std_specs::cmp::PartialEqSpecImpl;
use vstd::string::*;
use crate::num::Num;

verus! {

/// Everything that can go wrong while an expression is read or evaluated.
#[derive(Debug)]
pub enum ErrorKind {
    /// The input holds a character that is no digit, blank, operator or
    /// parenthesis.
    UnsupportedCharacter,
    /// An operator follows an operator.
    ConsecutiveOperators,
    /// A number follows a number.
    ConsecutiveNumbers,
    /// The character is no operator in the place where it stands.
    InvalidOperator,
    /// The input ends where an operator should stand.
    OperatorNotFound,
    /// An operator was applied to the wrong number or kind of operands.
    InvalidOperation,
    /// A digit run is no 32-bit integer.
    InvalidNumber,
    /// The character is no parenthesis.
    InvalidParen,
    /// A right parenthesis has no left parenthesis to close.
    MismatchedParen,
    /// A left parenthesis was never closed.
    UnclosedParen,
    /// A pair of parentheses holds nothing.
    EmptyParen,
    /// The tree has a shape that no finished expression has.
    ParseFailed,
    /// Division by zero.
    DivisionByZero,
    /// A power with a negative exponent.
    NegativeExponent,
    /// A power whose operands are of kinds that cannot be raised.
    UnsupportedPower { base: Num, exponent: Num },
    /// The greatest common divisor of something that is no integer.
    GcdUnsupported,
    /// A fraction where a 32-bit integer was needed.
    NotInteger,
    /// A numerator or denominator that is itself a fraction.
    FractionPartNotInteger,
    /// An addition left the 32-bit range.
    AddOverflow,
    /// A subtraction left the 32-bit range.
    SubOverflow,
    /// A multiplication left the 32-bit range.
    MulOverflow,
    /// A division left the 32-bit range.
    DivOverflow,
    /// A power left the 32-bit range.
    PowOverflow,
    /// A change of sign left the 32-bit range.
    NegOverflow,
    /// The name of a variable is empty.
    EmptyVariableName,
    /// The name of a variable is longer than one byte.
    LongVariableName,
    /// The name of a variable is no letter from `a` to `z`.
    InvalidVariableName,
    /// The value of a variable is empty.
    EmptyVariableValue,
    /// The name of a mode of the user interface is not known.
    UnknownMode,
}

impl PartialEq for ErrorKind {
    /// Two errors are equal when they are of the same kind and, for a
    /// power that is not supported, name the same operands.
    fn eq(&self, other: &Self) -> (r: bool) {
        match (self, other) {
            (ErrorKind::UnsupportedCharacter, ErrorKind::UnsupportedCharacter) => true,
            (ErrorKind::ConsecutiveOperators, ErrorKind::ConsecutiveOperators) => true,
            (ErrorKind::ConsecutiveNumbers, ErrorKind::ConsecutiveNumbers) => true,
            (ErrorKind::InvalidOperator, ErrorKind::InvalidOperator) => true,
            (ErrorKind::OperatorNotFound, ErrorKind::OperatorNotFound) => true,
            (ErrorKind::InvalidOperation, ErrorKind::InvalidOperation) => true,
            (ErrorKind::InvalidNumber, ErrorKind::InvalidNumber) => true,
            (ErrorKind::InvalidParen, ErrorKind::InvalidParen) => true,
            (ErrorKind::MismatchedParen, ErrorKind::MismatchedParen) => true,
            (ErrorKind::UnclosedParen, ErrorKind::UnclosedParen) => true,
            (ErrorKind::EmptyParen, ErrorKind::EmptyParen) => true,
            (ErrorKind::ParseFailed, ErrorKind::ParseFailed) => true,
            (ErrorKind::DivisionByZero, ErrorKind::DivisionByZero) => true,
            (ErrorKind::NegativeExponent, ErrorKind::NegativeExponent) => true,
            (
                ErrorKind::UnsupportedPower { base: b1, exponent: e1 },
                ErrorKind::UnsupportedPower { base: b2, exponent: e2 },
            ) => b1.eq(b2) && e1.eq(e2),
            (ErrorKind::GcdUnsupported, ErrorKind::GcdUnsupported) => true,
            (ErrorKind::NotInteger, ErrorKind::NotInteger) => true,
            (ErrorKind::FractionPartNotInteger, ErrorKind::FractionPartNotInteger) => true,
            (ErrorKind::AddOverflow, ErrorKind::AddOverflow) => true,
            (ErrorKind::SubOverflow, ErrorKind::SubOverflow) => true,
            (ErrorKind::MulOverflow, ErrorKind::MulOverflow) => true,
            (ErrorKind::DivOverflow, ErrorKind::DivOverflow) => true,
            (ErrorKind::PowOverflow, ErrorKind::PowOverflow) => true,
            (ErrorKind::NegOverflow, ErrorKind::NegOverflow) => true,
            (ErrorKind::EmptyVariableName, ErrorKind::EmptyVariableName) => true,
            (ErrorKind::LongVariableName, ErrorKind::LongVariableName) => true,
            (ErrorKind::InvalidVariableName, ErrorKind::InvalidVariableName) => true,
            (ErrorKind::EmptyVariableValue, ErrorKind::EmptyVariableValue) => true,
            (ErrorKind::UnknownMode, ErrorKind::UnknownMode) => true,
            _ => false,
        }
    }
}

impl PartialEqSpecImpl for ErrorKind {
    open spec fn obeys_eq_spec() -> bool {
        true
    }

    open spec fn eq_spec(&self, other: &ErrorKind) -> bool {
        *self == *other
    }
}

impl ErrorKind {
    /// The message shown to the user for this error.
    pub open spec fn message_text(self) -> Seq<char> {
        match self {
            ErrorKind::UnsupportedCharacter => "対応していない文字です"@,
            ErrorKind::ConsecutiveOperators => "演算子が連続しています"@,
            ErrorKind::ConsecutiveNumbers => "数値が連続しています"@,
            ErrorKind::InvalidOperator => "無効な演算子です"@,
            ErrorKind::OperatorNotFound => "演算子が見つかりません"@,
            ErrorKind::InvalidOperation => "無効な演算です"@,
            ErrorKind::InvalidNumber => "数値に変換できません"@,
            ErrorKind::InvalidParen => "括弧にparseができませんでした"@,
            ErrorKind::MismatchedParen => "括弧の対応が取れていません"@,
            ErrorKind::UnclosedParen => "括弧が閉じられていません"@,
            ErrorKind::EmptyParen => "括弧の中に要素がありませんでした"@,
            ErrorKind::ParseFailed => "構文解析に失敗しました"@,
            ErrorKind::DivisionByZero => "0で割ることはできません"@,
            ErrorKind::NegativeExponent => "負数の累乗はできません"@,
            ErrorKind::UnsupportedPower { base, exponent } => base.text() + "の"@
                + exponent.text() + "乗は計算できません"@,
            ErrorKind::GcdUnsupported => "gcdは使用できない型です"@,
            ErrorKind::NotInteger => "int32に変換できません"@,
            ErrorKind::FractionPartNotInteger => "分数の分子と分母は整数でなければなりません"@,
            ErrorKind::AddOverflow => "int32の範囲を超える加算です"@,
            ErrorKind::SubOverflow => "int32の範囲を超える減算です"@,
            ErrorKind::MulOverflow => "int32の範囲を超える乗算です"@,
            ErrorKind::DivOverflow => "int32の範囲を超える除算です"@,
            ErrorKind::PowOverflow => "int32の範囲を超える累乗です"@,
            ErrorKind::NegOverflow => "int32の範囲を超える符号反転です"@,
            ErrorKind::EmptyVariableName => "変数が空です"@,
            ErrorKind::LongVariableName => "変数は1文字でなければなりません"@,
            ErrorKind::InvalidVariableName => "変数はa-zでなければなりません"@,
            ErrorKind::EmptyVariableValue => "変数の値が空です"@,
            ErrorKind::UnknownMode => "Unknown mode"@,
        }
    }

    /// The message shown to the user for this error.
    pub fn message(&self) -> (r: String)
        ensures
            r@ == self.message_text(),
    {
        match self {
            ErrorKind::UnsupportedCharacter => String::from_str("対応していない文字です"),
            ErrorKind::ConsecutiveOperators => String::from_str("演算子が連続しています"),
            ErrorKind::ConsecutiveNumbers => String::from_str("数値が連続しています"),
            ErrorKind::InvalidOperator => String::from_str("無効な演算子です"),
            ErrorKind::OperatorNotFound => String::from_str("演算子が見つかりません"),
            ErrorKind::InvalidOperation => String::from_str("無効な演算です"),
            ErrorKind::InvalidNumber => String::from_str("数値に変換できません"),
            ErrorKind::InvalidParen => String::from_str("括弧にparseができませんでした"),
            ErrorKind::MismatchedParen => String::from_str("括弧の対応が取れていません"),
            ErrorKind::UnclosedParen => String::from_str("括弧が閉じられていません"),
            ErrorKind::EmptyParen => String::from_str("括弧の中に要素がありませんでした"),
            ErrorKind::ParseFailed => String::from_str("構文解析に失敗しました"),
            ErrorKind::DivisionByZero => String::from_str("0で割ることはできません"),
            ErrorKind::NegativeExponent => String::from_str("負数の累乗はできません"),
            ErrorKind::UnsupportedPower { base, exponent } => {
                let mut out = base.to_text();
                out.append("の");
                let e = exponent.to_text();
                out.append(e.as_str());
                out.append("乗は計算できません");
                out
            },
            ErrorKind::GcdUnsupported => String::from_str("gcdは使用できない型です"),
            ErrorKind::NotInteger => String::from_str("int32に変換できません"),
            ErrorKind::FractionPartNotInteger => String::from_str(
                "分数の分子と分母は整数でなければなりません",
            ),
            ErrorKind::AddOverflow => String::from_str("int32の範囲を超える加算です"),
            ErrorKind::SubOverflow => String::from_str("int32の範囲を超える減算です"),
            ErrorKind::MulOverflow => String::from_str("int32の範囲を超える乗算です"),
            ErrorKind::DivOverflow => String::from_str("int32の範囲を超える除算です"),
            ErrorKind::PowOverflow => String::from_str("int32の範囲を超える累乗です"),
            ErrorKind::NegOverflow => String::from_str("int32の範囲を超える符号反転です"),
            ErrorKind::EmptyVariableName => String::from_str("変数が空です"),
            ErrorKind::LongVariableName => String::from_str("変数は1文字でなければなりません"),
            ErrorKind::InvalidVariableName => String::from_str("変数はa-zでなければなりません"),
            ErrorKind::EmptyVariableValue => String::from_str("変数の値が空です"),
            ErrorKind::UnknownMode => String::from_str("Unknown mode"),
        }
    }
}

} // verus!
