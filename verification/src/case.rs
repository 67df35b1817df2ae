use heck::{ToPascalCase, ToSnakeCase};
use vstd::prelude::*;

verus! {

/// What heck's `ToSnakeCase::to_snake_case` returns for a string with these
/// characters (words split at non-alphanumerics and case changes, lowercased,
/// joined by `_`). It depends on the characters alone.
pub uninterp spec fn snake_case_of(s: Seq<char>) -> Seq<char>;

/// What heck's `ToPascalCase::to_pascal_case` returns for a string with these
/// characters (the same words, each capitalised, joined without separator).
/// It depends on the characters alone.
pub uninterp spec fn pascal_case_of(s: Seq<char>) -> Seq<char>;

/// Calls heck's `ToSnakeCase::to_snake_case` on `str`. Trusted to return a
/// string whose characters are `snake_case_of` the input's characters; what
/// that value is for a given input is left to heck.
#[verifier::external_body]
pub(crate) fn to_snake_case(s: &str) -> (r: String)
    ensures
        r@ == snake_case_of(s@),
{
    s.to_snake_case()
}

/// Calls heck's `ToPascalCase::to_pascal_case` on `str`. Trusted to return a
/// string whose characters are `pascal_case_of` the input's characters; what
/// that value is for a given input is left to heck.
#[verifier::external_body]
pub(crate) fn to_pascal_case(s: &str) -> (r: String)
    ensures
        r@ == pascal_case_of(s@),
{
    s.to_pascal_case()
}

} // verus!
