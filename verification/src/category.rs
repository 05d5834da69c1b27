//! Room categories.

use vstd::prelude::*;
use vstd::string::StringExecFns;
use crate::decimal::str_eq;
use crate::error::{parse_failure, CommandError, ErrorKind, ErrorView};

verus! {

/// The category of a room. Its text is the variant's name, letter for letter.
#[derive(Clone, Copy, Debug, PartialEq, Eq, Structural)]
pub enum Category {
    Single,
    Double,
    Suite,
}

/// The text of a category: the name of its variant.
pub open spec fn category_text(c: Category) -> Seq<char> {
    match c {
        Category::Single => "Single"@,
        Category::Double => "Double"@,
        Category::Suite => "Suite"@,
    }
}

/// The message for text that names no category.
pub open spec fn unknown_category_message(s: Seq<char>) -> Seq<char> {
    "Unknown category '"@ + s + "'"@
}

/// Reads a category: its text, letter for letter.
pub open spec fn parse_category(s: Seq<char>) -> Result<Category, ErrorView> {
    if s == "Single"@ {
        Ok(Category::Single)
    } else if s == "Double"@ {
        Ok(Category::Double)
    } else if s == "Suite"@ {
        Ok(Category::Suite)
    } else {
        Err(parse_failure(unknown_category_message(s)))
    }
}

/// Every category is read back from its own text.
pub proof fn law_category_round_trip(c: Category)
    ensures
        parse_category(category_text(c)) == Ok::<Category, ErrorView>(c),
{
    reveal_strlit("Single");
    reveal_strlit("Double");
    reveal_strlit("Suite");
    assert("Single"@.len() == 6);
    assert("Double"@.len() == 6);
    assert("Suite"@.len() == 5);
    assert("Single"@[0] == 'S');
    assert("Double"@[0] == 'D');
}

impl Category {
    /// Reads a category from its text.
    pub fn from_str(s: &str) -> (r: Result<Category, CommandError>)
        ensures
            match parse_category(s@) {
                Ok(c) => r matches Ok(got) && got == c,
                Err(e) => r matches Err(err) && err@ == e,
            },
    {
        if str_eq(s, "Single") {
            Ok(Category::Single)
        } else if str_eq(s, "Double") {
            Ok(Category::Double)
        } else if str_eq(s, "Suite") {
            Ok(Category::Suite)
        } else {
            let mut message = String::from_str("Unknown category '");
            message.append(s);
            message.append("'");
            Err(CommandError::new(ErrorKind::Parse, message))
        }
    }

    /// The text of the category.
    pub fn to_string(&self) -> (r: String)
        ensures
            r@ == category_text(*self),
    {
        match self {
            Category::Single => String::from_str("Single"),
            Category::Double => String::from_str("Double"),
            Category::Suite => String::from_str("Suite"),
        }
    }
}

} // verus!
