//! Small text helpers: moving between `String`/`&str` and `Vec<char>`, and
//! decoding bytes as UTF-8 text.

use vstd::prelude::*;

verus! {

/// Relies on `core::str::from_utf8`: decodes the bytes as UTF-8 text, `None`
/// if they are not valid UTF-8. What it accepts and returns is exactly what
/// vstd's UTF-8 model states: success iff `vstd::utf8::valid_utf8`, and the
/// decoded characters are `vstd::utf8::decode_utf8` of the bytes.
#[verifier::external_body]
pub fn decode_utf8(data: &Vec<u8>) -> (r: Option<String>)
    ensures
        (match r {
            Some(s) => vstd::utf8::valid_utf8(data@) && s@ == vstd::utf8::decode_utf8(data@),
            None => !vstd::utf8::valid_utf8(data@),
        }),
{
    match core::str::from_utf8(data.as_slice()) {
        Ok(s) => Some(s.to_owned()),
        Err(_) => None,
    }
}

/// Relies on `String`'s `FromIterator<char>` impl: collecting characters
/// yields the string with exactly those characters in order.
#[verifier::external_body]
pub fn chars_to_string(v: &Vec<char>) -> (s: String)
    ensures
        s@ == v@,
{
    v.iter().collect()
}

/// The characters of `s`, as a vector.
pub fn chars_of(s: &str) -> (v: Vec<char>)
    ensures
        v@ == s@,
{
    let n = s.unicode_len();
    let mut v: Vec<char> = Vec::new();
    let mut i: usize = 0;
    while i < n
        invariant
            n == s@.len(),
            i <= n,
            v@ == s@.take(i as int),
        decreases n - i,
    {
        v.push(s.get_char(i));
        assert(v@ =~= s@.take(i + 1 as int));
        i = i + 1;
    }
    assert(v@ =~= s@);
    v
}

/// Append every character of `lit` to `out`.
pub fn push_str_chars(out: &mut Vec<char>, lit: &str)
    ensures
        final(out)@ == old(out)@ + lit@,
{
    let n = lit.unicode_len();
    let mut i: usize = 0;
    while i < n
        invariant
            n == lit@.len(),
            i <= n,
            out@ == old(out)@ + lit@.take(i as int),
        decreases n - i,
    {
        out.push(lit.get_char(i));
        assert(out@ =~= old(out)@ + lit@.take(i + 1 as int));
        i = i + 1;
    }
    assert(out@ =~= old(out)@ + lit@);
}

/// Copy `v[from..to]` into a fresh vector.
pub fn sub_vec(v: &Vec<char>, from: usize, to: usize) -> (r: Vec<char>)
    requires
        from <= to <= v@.len(),
    ensures
        r@ == v@.subrange(from as int, to as int),
{
    let mut r: Vec<char> = Vec::new();
    let mut i: usize = from;
    while i < to
        invariant
            from <= i <= to <= v@.len(),
            r@ == v@.subrange(from as int, i as int),
        decreases to - i,
    {
        r.push(v[i]);
        assert(r@ =~= v@.subrange(from as int, i + 1 as int));
        i = i + 1;
    }
    r
}

} // verus!
