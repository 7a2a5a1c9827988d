//! Textual formats of lambda terms.

use vstd::prelude::*;
use vstd::std_specs::iter::IteratorSpec;

pub mod blc;
pub mod named;

verus! {

/// The characters of a string, in order.
pub(crate) fn chars_of(s: &str) -> (r: Vec<char>)
    ensures
        r@ == s@,
{
    let mut r: Vec<char> = Vec::new();
    let mut it = s.chars();
    let ghost n = s@.len();
    loop
        invariant
            it.remaining() == s@.skip(r@.len() as int),
            r@ == s@.take(r@.len() as int),
            r@.len() <= n,
            n == s@.len(),
            it.obeys_prophetic_iter_laws(),
        decreases n - r@.len(),
    {
        match it.next() {
            Some(c) => {
                proof {
                    assert(s@.take(r@.len() as int).push(c) =~= s@.take(r@.len() + 1int));
                }
                r.push(c);
            },
            None => {
                proof {
                    assert(s@.take(r@.len() as int) =~= s@);
                }
                return r;
            },
        }
    }
}

/// Appends one character to a string (`String::push`, which, as its
/// documentation says, appends the given char to the end of the string).
#[verifier::external_body]
pub(crate) fn push_char(s: &mut String, c: char)
    ensures
        final(s)@ == old(s)@.push(c),
{
    s.push(c);
}

} // verus!
