//! Looking a measurement module up by name.

use vstd::prelude::*;
use vstd::string::*;

use crate::text::{eq_ignore_ascii_case, eq_ignore_ascii_case_spec, spec_trim, trim};

verus! {

/// The module names are compared with the trimmed query, ignoring ASCII case.
pub open spec fn name_matches(name: Seq<char>, query: Seq<char>) -> bool {
    eq_ignore_ascii_case_spec(name, spec_trim(query))
}

/// Index of the first module whose name matches `query`.
pub fn find_module(names: &Vec<&str>, query: &str) -> (r: Option<usize>)
    ensures
        r matches Some(k) ==> k < names.len() && name_matches(names@[k as int]@, query@) && forall|j: int|
            0 <= j < k ==> !name_matches(#[trigger] names@[j]@, query@),
        r is None ==> forall|j: int| 0 <= j < names.len() ==> !name_matches(#[trigger] names@[j]@, query@),
{
    let needle = trim(query);
    let mut k: usize = 0;
    while k < names.len()
        invariant
            k <= names.len(),
            needle@ == spec_trim(query@),
            forall|j: int| 0 <= j < k ==> !name_matches(#[trigger] names@[j]@, query@),
        decreases names.len() - k,
    {
        if eq_ignore_ascii_case(names[k], needle) {
            return Some(k);
        }
        k += 1;
    }
    None
}

} // verus!
