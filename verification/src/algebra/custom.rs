//! Conditions that are given as text.

use vstd::prelude::*;
use vstd::string::StringExecFns;

verus! {

/// A condition given by its identities.
pub struct Condition {
    operations: Vec<usize>,
}

impl Condition {
    /// The arity of each operation.
    pub closed spec fn arities(&self) -> Seq<usize> {
        self.operations@
    }
}

/// Why a text is no condition.
#[derive(Clone, Debug)]
pub enum ParseError {
    NonMatchingArities(String),
    InvalidCharacter(String),
}

impl ParseError {
    /// What the error says.
    pub fn message(&self) -> (r: String)
        ensures
            r@ == (match self {
                ParseError::NonMatchingArities(s) => s@,
                ParseError::InvalidCharacter(s) => s@,
            }),
    {
        match self {
            ParseError::NonMatchingArities(s) => s.clone(),
            ParseError::InvalidCharacter(s) => s.clone(),
        }
    }
}

/// The condition for a text of identities such as `fxyy=fyyx,fxxy=gyxx`:
/// the condition without operations, whatever the text.
pub fn parse(s: &str) -> (r: Result<Condition, ParseError>)
    ensures
        r.is_ok(),
        r.unwrap().arities().len() == 0,
{
    Ok(Condition { operations: Vec::new() })
}

} // verus!
