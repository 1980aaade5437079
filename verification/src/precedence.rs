//! The fixed operator precedence table: `+` and `-` bind at level 1, `*` and
//! `/` at level 2, `^` at level 3.  Every other symbol, parentheses included,
//! falls back to level 0.

use vstd::prelude::*;
use vstd::string::StrSliceExecFns;

verus! {

/// Precedence level of a single operator character; 0 for any character that
/// is not one of the five operators.
pub open spec fn char_precedence(c: char) -> int {
    if c == '+' || c == '-' {
        1
    } else if c == '*' || c == '/' {
        2
    } else if c == '^' {
        3
    } else {
        0
    }
}

/// Precedence level of a token.  Only the five one-character operator tokens
/// have a positive level; any other token (a number, a parenthesis, a longer
/// string) has level 0.
pub open spec fn spec_precedence(t: Seq<char>) -> int {
    if t.len() == 1 {
        char_precedence(t[0])
    } else {
        0
    }
}

/// Looks up the precedence level of an operator token: 1 for `+` and `-`,
/// 2 for `*` and `/`, 3 for `^`, and 0 for anything else.
pub fn get_precedence(operator: &str) -> (p: i32)
    ensures
        p as int == spec_precedence(operator@),
{
    let n = operator.unicode_len();
    if n == 1 {
        let c = operator.get_char(0);
        if c == '+' || c == '-' {
            1
        } else if c == '*' || c == '/' {
            2
        } else if c == '^' {
            3
        } else {
            0
        }
    } else {
        0
    }
}

} // verus!
