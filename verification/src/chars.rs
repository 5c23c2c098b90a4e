use vstd::prelude::*;

verus! {

/// Appends one character to a string.
///
/// Relies on std's `String::push`, which the standard library documents as
/// appending the given `char` to the end of the string; vstd gives it no
/// specification of its own.
#[verifier::external_body]
pub(crate) fn push_char(s: &mut String, c: char)
    ensures
        final(s)@ == old(s)@.push(c),
{
    s.push(c)
}

/// Collects the characters of a string slice into a vector.
pub fn to_chars(s: &str) -> (v: Vec<char>)
    ensures
        v@ == s@,
{
    let n = s.unicode_len();
    let mut v: Vec<char> = Vec::new();
    for i in 0..n
        invariant
            n == s@.len(),
            v@ == s@.take(i as int),
    {
        v.push(s.get_char(i));
        proof {
            assert(s@.take(i + 1) =~= s@.take(i as int).push(s@[i as int]));
        }
    }
    proof {
        assert(s@.take(n as int) =~= s@);
    }
    v
}

/// Builds an owned string out of a range of a character vector.
pub fn chars_to_string(v: &[char], from: usize, to: usize) -> (s: String)
    requires
        from <= to <= v@.len(),
    ensures
        s@ == v@.subrange(from as int, to as int),
{
    let mut s = String::new();
    for i in from..to
        invariant
            from <= i <= to <= v@.len(),
            s@ == v@.subrange(from as int, i as int),
    {
        push_char(&mut s, v[i]);
        proof {
            assert(v@.subrange(from as int, i + 1) =~= v@.subrange(
                from as int,
                i as int,
            ).push(v@[i as int]));
        }
    }
    s
}

/// True when the characters of `v` between `from` and `to` spell out `s`.
pub fn range_eq_str(v: &[char], from: usize, to: usize, s: &str) -> (r: bool)
    requires
        from <= to <= v@.len(),
    ensures
        r == (v@.subrange(from as int, to as int) == s@),
{
    let n = s.unicode_len();
    if n != to - from {
        proof {
            assert(v@.subrange(from as int, to as int).len() != s@.len());
        }
        return false;
    }
    for i in 0..n
        invariant
            n == s@.len(),
            from <= to <= v@.len(),
            n == to - from,
            forall|j: int| 0 <= j < i ==> v@.subrange(from as int, to as int)[j] == s@[j],
    {
        if v[from + i] != s.get_char(i) {
            proof {
                assert(v@.subrange(from as int, to as int)[i as int] != s@[i as int]);
            }
            return false;
        }
        proof {
            assert(v@.subrange(from as int, to as int)[i as int] == v@[from + i]);
        }
    }
    proof {
        assert(v@.subrange(from as int, to as int) =~= s@);
    }
    true
}

/// Copies a range of a character vector.
pub fn sub_chars(v: &[char], from: usize, to: usize) -> (r: Vec<char>)
    requires
        from <= to <= v@.len(),
    ensures
        r@ == v@.subrange(from as int, to as int),
{
    let mut r: Vec<char> = Vec::new();
    for i in from..to
        invariant
            from <= i <= to <= v@.len(),
            r@ == v@.subrange(from as int, i as int),
    {
        r.push(v[i]);
        proof {
            assert(v@.subrange(from as int, i + 1) =~= v@.subrange(from as int, i as int).push(
                v@[i as int],
            ));
        }
    }
    r
}

} // verus!
