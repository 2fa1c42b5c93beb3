use calculator::error::ErrorKind;
use calculator::mode::Mode;
use calculator::num::Num;
use calculator::variable_manager::{VariableManager, VariableState};

#[test]
fn variable_state_holds_what_it_was_given() {
    let state = VariableState::new("x".to_string(), Num::I32(3), true);
    assert_eq!(state.name, "x");
    assert_eq!(state.value, Num::I32(3));
    assert!(state.active);
}

#[test]
fn variable_manager_set_and_contain() {
    let mut manager = VariableManager::new();
    assert!(!manager.contain("x"));
    manager.set("x", VariableState::new("x".to_string(), Num::I32(3), true));
    assert!(manager.contain("x"));
    assert!(!manager.contain("y"));
    manager.set("x", VariableState::new("x".to_string(), Num::I32(4), false));
    assert!(manager.contain("x"));
}

#[test]
fn variable_manager_validate_variable() {
    let manager = VariableManager::new();
    assert_eq!(manager.validate_variable("a"), Ok('a'));
    assert_eq!(manager.validate_variable("z"), Ok('z'));
    assert_eq!(manager.validate_variable(""), Err(ErrorKind::EmptyVariableName));
    assert_eq!(manager.validate_variable("ab"), Err(ErrorKind::LongVariableName));
    assert_eq!(manager.validate_variable("é"), Err(ErrorKind::LongVariableName));
    assert_eq!(manager.validate_variable("A"), Err(ErrorKind::InvalidVariableName));
    assert_eq!(manager.validate_variable("1"), Err(ErrorKind::InvalidVariableName));
    assert_eq!(manager.validate_variable(" "), Err(ErrorKind::InvalidVariableName));
}

#[test]
fn variable_manager_validate_value() {
    let manager = VariableManager::new();
    assert_eq!(manager.validate_value("12"), Ok(Num::I32(12)));
    assert_eq!(manager.validate_value("-12"), Ok(Num::I32(-12)));
    assert_eq!(manager.validate_value(""), Err(ErrorKind::EmptyVariableValue));
    assert_eq!(manager.validate_value("1/2"), Err(ErrorKind::InvalidNumber));
    assert_eq!(manager.validate_value("x"), Err(ErrorKind::InvalidNumber));
}

#[test]
fn variable_manager_validate_input_checks_the_name_first() {
    let manager = VariableManager::new();
    assert_eq!(manager.validate_input("a", "5"), Ok(('a', Num::I32(5))));
    assert_eq!(manager.validate_input("", ""), Err(ErrorKind::EmptyVariableName));
    assert_eq!(manager.validate_input("A", "x"), Err(ErrorKind::InvalidVariableName));
    assert_eq!(manager.validate_input("a", ""), Err(ErrorKind::EmptyVariableValue));
    assert_eq!(manager.validate_input("a", "x"), Err(ErrorKind::InvalidNumber));
}

#[test]
fn variable_manager_markup() {
    let manager = VariableManager::new();
    let html = manager.get_add_variable_html(&"x".to_string(), &Num::I32(-3));
    let expected = format!(
        "<div class=\"variable-content\">
    <span class=\"variable-name\">{}</span>
    <span class=\"variable-equal\">=</span>
    <span class=\"variable-value\">{}</span>
</div>
<div class=\"variable-delete\">
    <span class=\"material-symbols-outlined\">
        delete
    </span>
</div>",
        "x", "-3"
    );
    assert_eq!(html, expected);
}

#[test]
fn mode_names() {
    assert_eq!(Mode::str_to_mode("calculation"), Ok(Mode::Calculation));
    assert_eq!(Mode::str_to_mode("variable-assignment"), Ok(Mode::VariableAssignment));
    assert_eq!(Mode::str_to_mode("Calculation"), Err(ErrorKind::UnknownMode));
    assert_eq!(Mode::str_to_mode(""), Err(ErrorKind::UnknownMode));
}
