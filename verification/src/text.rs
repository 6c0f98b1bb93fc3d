//! The blank-content check: a content string is rejected when it is empty or
//! consists of whitespace alone.

use vstd::prelude::*;
use vstd::std_specs::iter::IteratorSpec;

verus! {

broadcast use vstd::string::group_string_axioms;

/// Whether `c` has the Unicode `White_Space` property, the set of characters
/// that `str::trim` strips.
pub open spec fn is_space_char(c: char) -> bool {
    let u = c as u32;
    ||| u == 0x09
    ||| u == 0x0A
    ||| u == 0x0B
    ||| u == 0x0C
    ||| u == 0x0D
    ||| u == 0x20
    ||| u == 0x85
    ||| u == 0xA0
    ||| u == 0x1680
    ||| (0x2000 <= u && u <= 0x200A)
    ||| u == 0x2028
    ||| u == 0x2029
    ||| u == 0x202F
    ||| u == 0x205F
    ||| u == 0x3000
}

/// Whether `s` is empty or whitespace-only; such content is never stored.
pub open spec fn is_blank(s: Seq<char>) -> bool {
    forall|i: int| 0 <= i < s.len() ==> is_space_char(#[trigger] s[i])
}

/// Decides [`is_space_char`] executably.
fn space_char(c: char) -> (r: bool)
    ensures
        r == is_space_char(c),
{
    let u = c as u32;
    u == 0x09 || u == 0x0A || u == 0x0B || u == 0x0C || u == 0x0D || u == 0x20 || u == 0x85
        || u == 0xA0 || u == 0x1680 || (0x2000 <= u && u <= 0x200A) || u == 0x2028 || u == 0x2029
        || u == 0x202F || u == 0x205F || u == 0x3000
}

/// Decides [`is_blank`] executably, by walking the characters of `s`.
pub fn check_blank(s: &str) -> (r: bool)
    ensures
        r == is_blank(s@),
{
    let mut it = s.chars();
    let ghost mut n: int = 0;
    loop
        invariant
            0 <= n <= s@.len(),
            it.remaining() == s@.skip(n),
            forall|k: int| 0 <= k < n ==> is_space_char(#[trigger] s@[k]),
        decreases s@.len() - n,
    {
        match it.next() {
            Some(c) => {
                proof {
                    assert(s@.skip(n)[0] == s@[n]);
                }
                if !space_char(c) {
                    proof {
                        assert(!is_space_char(s@[n]));
                    }
                    return false;
                }
                proof {
                    assert(s@.skip(n).drop_first() =~= s@.skip(n + 1));
                    n = n + 1;
                }
            },
            None => {
                proof {
                    assert(s@.skip(n).len() == 0);
                    assert(n == s@.len());
                }
                return true;
            },
        }
    }
}

} // verus!
