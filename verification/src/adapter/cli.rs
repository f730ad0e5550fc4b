use vstd::prelude::*;
use crate::adapter::api::handlers::{parse_tags, tag_names};
use crate::domain::model::{text_of, texts_of};
use crate::domain::text::{
    chars_of, lowercase, number_of, parse_number, spells, string_of, to_lowercase, trim, trimmed,
};

verus! {

/// What a user of the interactive client asks for.
#[derive(Clone, Copy, Debug, PartialEq, Eq, Structural)]
pub enum MenuChoice {
    Store,
    Get,
    List,
    Search,
    Update,
    Delete,
    Quit,
    Invalid,
}

/// The choice that a line of input stands for: the white space around it
/// aside, `1` to `6` for the six operations, and `q`, `quit` or `exit` to
/// leave.
pub open spec fn choice_of(line: Seq<char>) -> MenuChoice {
    let answer = trimmed(line);
    if answer == "1"@ {
        MenuChoice::Store
    } else if answer == "2"@ {
        MenuChoice::Get
    } else if answer == "3"@ {
        MenuChoice::List
    } else if answer == "4"@ {
        MenuChoice::Search
    } else if answer == "5"@ {
        MenuChoice::Update
    } else if answer == "6"@ {
        MenuChoice::Delete
    } else if answer == "q"@ || answer == "quit"@ || answer == "exit"@ {
        MenuChoice::Quit
    } else {
        MenuChoice::Invalid
    }
}

/// Reads the choice that a line of input stands for.
pub fn menu_choice(line: &str) -> (choice: MenuChoice)
    ensures
        choice == choice_of(line@),
{
    let answer = trim(&chars_of(line));
    if spells(&answer, "1") {
        MenuChoice::Store
    } else if spells(&answer, "2") {
        MenuChoice::Get
    } else if spells(&answer, "3") {
        MenuChoice::List
    } else if spells(&answer, "4") {
        MenuChoice::Search
    } else if spells(&answer, "5") {
        MenuChoice::Update
    } else if spells(&answer, "6") {
        MenuChoice::Delete
    } else if spells(&answer, "q") || spells(&answer, "quit") || spells(&answer, "exit") {
        MenuChoice::Quit
    } else {
        MenuChoice::Invalid
    }
}

/// A line of input without the white space around it.
pub fn answer(line: &str) -> (r: String)
    ensures
        r@ == trimmed(line@),
{
    string_of(&trim(&chars_of(line)))
}

/// A line of input without the white space around it, or nothing where
/// nothing else is left.
pub fn optional_answer(line: &str) -> (r: Option<String>)
    ensures
        text_of(r) == if trimmed(line@).len() == 0 {
            None
        } else {
            Some(trimmed(line@))
        },
{
    let kept = trim(&chars_of(line));
    if kept.len() == 0 {
        None
    } else {
        Some(string_of(&kept))
    }
}

/// The tags that a line of input names, or none where the line is blank.
pub fn tags_answer(line: &str) -> (r: Option<Vec<String>>)
    ensures
        if trimmed(line@).len() == 0 {
            r is None
        } else {
            r matches Some(list) && texts_of(list@) == tag_names(trimmed(line@))
        },
{
    parse_tags(optional_answer(line))
}

/// The number that a line of input stands for, the white space around it
/// aside, or `default`.
pub fn number_answer(line: &str, default: usize) -> (n: usize)
    ensures
        n == match number_of(trimmed(line@)) {
            Some(value) => value,
            None => default,
        },
{
    match parse_number(&trim(&chars_of(line))) {
        Some(value) => value,
        None => default,
    }
}

/// Whether a line of input says yes: it is `y`, in either case, the white
/// space around it aside.
pub fn confirms(line: &str) -> (b: bool)
    ensures
        b == (lowercase(trimmed(line@)) == "y"@),
{
    let kept = string_of(&trim(&chars_of(line)));
    let lowered = to_lowercase(kept.as_str());
    spells(&chars_of(lowered.as_str()), "y")
}

} // verus!
