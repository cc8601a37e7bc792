//! Declarations of a manifest that must have a certain shape.

use crate::text::joined_text3;
use vstd::prelude::*;
use vstd::string::*;

verus! {

/// A declaration with the wrong shape.
#[derive(Debug)]
pub struct InvalidDeclaration {
    pub path: String,
    pub field: String,
    pub expected: String,
}

impl InvalidDeclaration {
    /// What to tell the user.
    pub open spec fn text(self) -> Seq<char> {
        "Invalid `"@ + self.field@ + "` declaration in "@ + self.path@ + ": expected "@
            + self.expected@
    }

    /// What to tell the user.
    pub fn message(&self) -> (text: String)
        ensures
            text@ == self.text(),
    {
        let mut text: String = joined_text3(
            "Invalid `",
            self.field.as_str(),
            "` declaration in ",
        );
        text.append(self.path.as_str());
        text.append(": expected ");
        text.append(self.expected.as_str());
        text
    }
}

/// Whether something is declared. `declaration` says of a field that is there
/// whether it has the shape it must have.
pub fn ensure_declared_shape(
    declaration: Option<bool>,
    manifest_path: &str,
    field: &str,
    expected: &str,
) -> (result: Result<bool, InvalidDeclaration>)
    ensures
        match result {
            Ok(declared) => declaration != Some(false) && declared == (declaration is Some),
            Err(error) => declaration == Some(false) && error.path@ == manifest_path@
                && error.field@ == field@ && error.expected@ == expected@,
        },
{
    match declaration {
        None => Ok(false),
        Some(shaped) => if shaped {
            Ok(true)
        } else {
            Err(
                InvalidDeclaration {
                    path: manifest_path.to_string(),
                    field: field.to_string(),
                    expected: expected.to_string(),
                },
            )
        },
    }
}

} // verus!
