//! Character-level helpers on `str` and `String`.

use vstd::prelude::*;

verus! {

/// Relies on `String::push`: the character is appended at the end.
pub assume_specification[ std::string::String::push ](s: &mut std::string::String, ch: char)
    ensures
        final(s)@ == old(s)@.push(ch),
;

/// Relies on `String::push_str`: the slice is appended at the end.
pub assume_specification[ std::string::String::push_str ](s: &mut std::string::String, string: &str)
    ensures
        final(s)@ == old(s)@ + string@,
;

/// The characters of a string, in order.
pub fn chars_of(s: &str) -> (r: Vec<char>)
    ensures
        r@ == s@,
{
    let mut r: Vec<char> = Vec::new();
    for c in it: s.chars()
        invariant
            it.seq() == s@,
            r@ == s@.take(it.index() as int),
    {
        proof {
            assert(s@.take(it.index() as int).push(c) =~= s@.take(it.index() + 1));
        }
        r.push(c);
    }
    proof {
        assert(s@.take(s@.len() as int) =~= s@);
    }
    r
}

} // verus!
