//! A calculator for small arithmetic expressions: integers, signs, the
//! operators `+ - * / ^`, parentheses, and exact fractions.
//!
//! An input is parsed in one pass, character by character, into a tree of
//! terms whose shape follows the precedence of the operators. The tree can
//! be shown in a canonical form and evaluated over 32-bit integers and
//! fractions in lowest terms, with every overflow reported.
//!
//! The behaviour of every function is stated over mathematical models:
//! `rational` for numbers, `syntax` for the parser, the text and the value
//! of a tree, and `tokens` for the tokens of an input. `normal_form` proves
//! that parsing and then showing an input normalizes it, and that doing so
//! twice changes nothing more.
pub mod calculator;
pub mod error;
pub mod expression;
pub mod fraction;
pub mod gcd;
pub mod mode;
pub mod node;
pub mod normal_form;
pub mod num;
pub mod operator;
pub mod paren;
pub mod rational;
pub mod syntax;
pub mod term;
pub mod text;
pub mod tokens;
pub mod variable_manager;
