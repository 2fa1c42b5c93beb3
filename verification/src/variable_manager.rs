use vstd::prelude::*;
use vstd::hash_map::StringHashMap;
use vstd::string::*;
use crate::error::ErrorKind;
use crate::num::Num;
use crate::text::spec_parse_i32;

verus! {

/// A variable: its name, its value, and whether it is switched on.
pub struct VariableState {
    pub name: String,
    pub value: Num,
    pub active: bool,
}

impl VariableState {
    /// A variable with the given name, value and switch.
    pub fn new(name: String, value: Num, active: bool) -> (r: Self)
        ensures
            r.name == name,
            r.value == value,
            r.active == active,
    {
        Self { name, value, active }
    }
}

/// The variables that the user has assigned, by name.
pub struct VariableManager {
    variables: StringHashMap<VariableState>,
}

impl View for VariableManager {
    type V = Map<Seq<char>, VariableState>;

    closed spec fn view(&self) -> Map<Seq<char>, VariableState> {
        self.variables@
    }
}

impl VariableManager {
    /// The name of a variable that `name` is: one letter from `a` to `z`,
    /// in a text that is one byte long.
    pub open spec fn spec_validate_variable(name: &str) -> Result<char, ErrorKind> {
        if name@.len() == 0 {
            Err(ErrorKind::EmptyVariableName)
        } else if name.len() != 1 {
            Err(ErrorKind::LongVariableName)
        } else if !('a' <= name@[0] <= 'z') {
            Err(ErrorKind::InvalidVariableName)
        } else {
            Ok(name@[0])
        }
    }

    /// The value of a variable that `value` is: a signed decimal literal.
    pub open spec fn spec_validate_value(value: Seq<char>) -> Result<Num, ErrorKind> {
        if value.len() == 0 {
            Err(ErrorKind::EmptyVariableValue)
        } else {
            match spec_parse_i32(value) {
                Some(n) => Ok(Num::I32(n)),
                None => Err(ErrorKind::InvalidNumber),
            }
        }
    }

    /// The markup of a variable in the panel of variables and its value.
    pub open spec fn spec_add_variable_html(variable: Seq<char>, value: Num) -> Seq<char> {
        "<div class=\"variable-content\">\n    <span class=\"variable-name\">"@ + variable
            + "</span>\n    <span class=\"variable-equal\">=</span>\n    <span class=\"variable-value\">"@
            + value.text()
            + "</span>\n</div>\n<div class=\"variable-delete\">\n    <span class=\"material-symbols-outlined\">\n        delete\n    </span>\n</div>"@
    }

    /// No variables.
    pub fn new() -> (r: Self)
        ensures
            r@ == Map::<Seq<char>, VariableState>::empty(),
    {
        Self { variables: StringHashMap::new() }
    }

    /// Whether a variable of that name is assigned.
    pub fn contain(&self, name: &str) -> (r: bool)
        ensures
            r == self@.contains_key(name@),
    {
        self.variables.contains_key(name)
    }

    /// Assigns the variable `name`, replacing what it held.
    pub fn set(&mut self, name: &str, state: VariableState)
        ensures
            final(self)@ == old(self)@.insert(name@, state),
    {
        self.variables.insert(String::from_str(name), state);
    }

    /// The markup of a variable in the panel of variables.
    pub fn get_add_variable_html(&self, variable: &String, value: &Num) -> (r: String)
        ensures
            r@ == Self::spec_add_variable_html(variable@, *value),
    {
        let mut out = String::from_str(
            "<div class=\"variable-content\">\n    <span class=\"variable-name\">",
        );
        out.append(variable.as_str());
        out.append(
            "</span>\n    <span class=\"variable-equal\">=</span>\n    <span class=\"variable-value\">",
        );
        let text = value.to_text();
        out.append(text.as_str());
        out.append(
            "</span>\n</div>\n<div class=\"variable-delete\">\n    <span class=\"material-symbols-outlined\">\n        delete\n    </span>\n</div>",
        );
        out
    }

    /// Checks the name of a variable.
    pub fn validate_variable(&self, name: &str) -> (r: Result<char, ErrorKind>)
        ensures
            r == Self::spec_validate_variable(name),
    {
        if name.is_empty() {
            return Err(ErrorKind::EmptyVariableName);
        }
        if name.len() != 1 {
            return Err(ErrorKind::LongVariableName);
        }
        let c = name.get_char(0);
        if !(c >= 'a' && c <= 'z') {
            return Err(ErrorKind::InvalidVariableName);
        }
        Ok(c)
    }

    /// Checks the value of a variable.
    pub fn validate_value(&self, value: &str) -> (r: Result<Num, ErrorKind>)
        ensures
            r == Self::spec_validate_value(value@),
    {
        if value.is_empty() {
            return Err(ErrorKind::EmptyVariableValue);
        }
        let value = Num::parse(value)?;
        Ok(value)
    }

    /// Checks the name and the value of a variable, the name first.
    pub fn validate_input(&self, name: &str, value: &str) -> (r: Result<(char, Num), ErrorKind>)
        ensures
            r == (match Self::spec_validate_variable(name) {
                Err(e) => Err::<(char, Num), ErrorKind>(e),
                Ok(c) => match Self::spec_validate_value(value@) {
                    Err(e) => Err::<(char, Num), ErrorKind>(e),
                    Ok(v) => Ok::<(char, Num), ErrorKind>((c, v)),
                },
            }),
    {
        let c = self.validate_variable(name)?;
        let value = self.validate_value(value)?;
        Ok((c, value))
    }
}

} // verus!
