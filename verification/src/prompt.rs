//! The decisions behind the interactive prompts. Reading stdin and printing
//! the questions happens in the application; what an answer means is here.

use vstd::prelude::*;
use vstd::string::*;

use crate::text::{parsed_usize, parse_usize, spec_trim, trim};

verus! {

/// What picking from a numbered list of `count` entries starts with.
#[derive(Debug, Clone, Copy, PartialEq, Eq, Structural)]
pub enum SelectStart {
    /// The list is empty: there is nothing to choose from.
    NothingToChoose,
    /// One entry: it is picked without asking.
    OnlyOption,
    /// Several entries: the user is asked.
    Ask,
}

pub fn select_start(count: usize) -> (r: SelectStart)
    ensures
        r == (if count == 0 {
            SelectStart::NothingToChoose
        } else if count == 1 {
            SelectStart::OnlyOption
        } else {
            SelectStart::Ask
        }),
{
    if count == 0 {
        SelectStart::NothingToChoose
    } else if count == 1 {
        SelectStart::OnlyOption
    } else {
        SelectStart::Ask
    }
}

/// The entry an answer picks from a list of `count`, or `None` when the
/// question has to be asked again. An empty answer takes the default, if
/// there is one; otherwise the answer must be an index inside the list.
pub fn select_answer(answer: &str, count: usize, default: Option<usize>) -> (r: Option<usize>)
    ensures
        r == (if answer@.len() == 0 && default is Some {
            default
        } else {
            match parsed_usize(answer@) {
                Some(i) => if i < count { Some(i) } else { None },
                None => None,
            }
        }),
{
    if answer.unicode_len() == 0 {
        if let Some(d) = default {
            return Some(d);
        }
    }
    match parse_usize(answer) {
        Some(i) => if i < count { Some(i) } else { None },
        None => None,
    }
}

/// The answer to a question that offers a default: the default when the
/// answer is empty.
pub fn name_or_default(answer: &str, default: &str) -> (r: String)
    ensures
        r@ == (if answer@.len() == 0 { default@ } else { answer@ }),
{
    if answer.unicode_len() == 0 {
        default.to_owned()
    } else {
        answer.to_owned()
    }
}

/// The label a measurement is stored with, from the `--label` argument:
/// trimmed, and none at all when nothing but whitespace was given.
pub fn label_from_argument(text: &str) -> (r: Option<String>)
    ensures
        (r is None) == (spec_trim(text@).len() == 0),
        r matches Some(label) ==> label@ == spec_trim(text@),
{
    let t = trim(text);
    if t.unicode_len() == 0 {
        None
    } else {
        Some(t.to_owned())
    }
}

} // verus!
