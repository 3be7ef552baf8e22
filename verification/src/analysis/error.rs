//! Errors found by static analysis.
use vstd::prelude::*;

use crate::analysis::UiuaValueError;
use crate::text::{is_lowercase, lowercase, to_uppercase, upper_chars};
use vstd::string::{StrSliceExecFns, StringExecFns};

verus! {

/// What went wrong in analysing a primitive.
#[derive(Clone, Debug, PartialEq, Eq)]
pub enum ErrorKind {
    /// A constant could not be typed.
    UiuaValue(UiuaValueError),
    /// The named function expects numbers but got characters; the second
    /// field names the type it got.
    ExpectedNumber(&'static str, String),
    /// The named function cannot process the two named types together.
    IncompatibleTypes(&'static str, String, String),
    /// The two named array types have shapes that cannot be matched.
    IncompatibleShapes(String, String),
    /// The named function needs arrays of known rank.
    Unranked(&'static str),
    /// Two inputs of a row-wise call have different numbers of rows: the
    /// first count with the position of its input, then the second.
    MismatchedRowCounts(isize, usize, isize, usize),
}

/// `s` with its first character replaced by its uppercase mapping when it is
/// lowercase.
pub open spec fn capitalized(s: Seq<char>) -> Seq<char> {
    if s.len() > 0 && lowercase(s[0]) {
        upper_chars(s[0]) + s.subrange(1, s.len() as int)
    } else {
        s
    }
}

/// Capitalizes the first letter of a name, for the start of a message.
pub fn capitalize_first_letter(s: &str) -> (r: String)
    ensures
        r@ == capitalized(s@),
{
    let n = s.unicode_len();
    if n > 0 {
        let c = s.get_char(0);
        if is_lowercase(c) {
            let up = to_uppercase(c);
            let mut r = String::new();
            let mut i: usize = 0;
            while i < up.len()
                invariant
                    i <= up.len(),
                    r@ == up@.take(i as int),
                decreases up.len() - i,
            {
                crate::text::push_char(&mut r, up[i]);
                i = i + 1;
                assert(r@ =~= up@.take(i as int));
            }
            assert(up@.take(i as int) =~= up@);
            let rest = s.substring_char(1, n);
            r.append(rest);
            return r;
        }
    }
    String::from_str(s)
}

} // verus!
