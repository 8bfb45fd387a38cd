//! The diagnostic messages of the two parsers, as character sequences in
//! specifications and as `String` builders in executable code.

use vstd::prelude::*;
use crate::chars::push_char;
use vstd::string::StringExecFns;

verus! {

/// `Expected 'e', found 'c'`, or `Expected 'e', found end of input`.
pub open spec fn expected_found(e: char, f: Option<char>) -> Seq<char> {
    "Expected '"@ + seq![e] + "', found "@ + match f {
        Option::Some(c) => "'"@ + seq![c] + "'"@,
        Option::None => "end of input"@,
    }
}

/// `Mismatched tags: a and b`.
pub open spec fn mismatched_tags(a: Seq<char>, b: Seq<char>) -> Seq<char> {
    "Mismatched tags: "@ + a + " and "@ + b
}

/// `Unexpected character 'c'`.
pub open spec fn unexpected_char(c: char) -> Seq<char> {
    "Unexpected character '"@ + seq![c] + "'"@
}

/// Builds `expected_found(e, f)` as a `String`.
pub fn msg_expected_found(e: char, f: Option<char>) -> (r: String)
    ensures
        r@ == expected_found(e, f),
{
    let mut m = String::from_str("Expected '");
    push_char(&mut m, e);
    m.append("', found ");
    match f {
        Some(c) => {
            m.append("'");
            push_char(&mut m, c);
            m.append("'");
            proof {
                assert(m@ =~= expected_found(e, f));
            }
        },
        None => {
            m.append("end of input");
            proof {
                assert(m@ =~= expected_found(e, f));
            }
        },
    }
    m
}

/// Builds `mismatched_tags(a@, b@)` as a `String`.
pub fn msg_mismatched_tags(a: &String, b: &String) -> (r: String)
    ensures
        r@ == mismatched_tags(a@, b@),
{
    let mut m = String::from_str("Mismatched tags: ");
    m.append(a.as_str());
    m.append(" and ");
    m.append(b.as_str());
    proof {
        assert(m@ =~= mismatched_tags(a@, b@));
    }
    m
}

/// Builds `unexpected_char(c)` as a `String`.
pub fn msg_unexpected_char(c: char) -> (r: String)
    ensures
        r@ == unexpected_char(c),
{
    let mut m = String::from_str("Unexpected character '");
    push_char(&mut m, c);
    m.append("'");
    proof {
        assert(m@ =~= unexpected_char(c));
    }
    m
}

} // verus!
