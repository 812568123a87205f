use vstd::prelude::*;

verus! {

/// Relies on `String::push`: the character is appended at the end.
#[verifier::external_body]
pub(crate) fn push_char(s: &mut String, c: char)
    ensures
        final(s)@ == old(s)@.push(c),
{
    s.push(c)
}

/// The characters of `text`, in order.
pub fn chars_of(text: &str) -> (r: Vec<char>)
    ensures
        r@ == text@,
{
    let n = text.unicode_len();
    let mut r: Vec<char> = Vec::new();
    let mut i: usize = 0;
    while i < n
        invariant
            n == text@.len(),
            i <= n,
            r@ == text@.subrange(0, i as int),
        decreases n - i,
    {
        r.push(text.get_char(i));
        i += 1;
        assert(r@ =~= text@.subrange(0, i as int));
    }
    assert(r@ =~= text@);
    r
}

} // verus!
