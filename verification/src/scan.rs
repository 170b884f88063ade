use vstd::prelude::*;

verus! {

/// HTML whitespace: space, tab, line feed, carriage return, form feed.
pub open spec fn is_space(b: u8) -> bool {
    b == 32 || b == 9 || b == 10 || b == 13 || b == 12
}

/// ASCII letter.
pub open spec fn is_alpha(b: u8) -> bool {
    (65 <= b && b <= 90) || (97 <= b && b <= 122)
}

/// ASCII decimal digit.
pub open spec fn is_digit(b: u8) -> bool {
    48 <= b && b <= 57
}

/// ASCII lower-casing of one byte.
pub open spec fn lower_byte(b: u8) -> u8 {
    if 65 <= b && b <= 90 {
        (b + 32) as u8
    } else {
        b
    }
}

/// ASCII lower-casing of a byte string.
pub open spec fn lower_bytes(s: Seq<u8>) -> Seq<u8> {
    s.map_values(|b: u8| lower_byte(b))
}

pub fn byte_is_space(b: u8) -> (r: bool)
    ensures
        r == is_space(b),
{
    b == 32 || b == 9 || b == 10 || b == 13 || b == 12
}

pub fn byte_is_alpha(b: u8) -> (r: bool)
    ensures
        r == is_alpha(b),
{
    (65 <= b && b <= 90) || (97 <= b && b <= 122)
}

pub fn byte_lower(b: u8) -> (r: u8)
    ensures
        r == lower_byte(b),
{
    if 65 <= b && b <= 90 {
        b + 32
    } else {
        b
    }
}

/// Whether two byte strings are equal.
pub fn bytes_eq(a: &[u8], b: &[u8]) -> (r: bool)
    ensures
        r == (a@ == b@),
{
    if a.len() != b.len() {
        return false;
    }
    let mut i: usize = 0;
    while i < a.len()
        invariant
            a@.len() == b@.len(),
            0 <= i <= a@.len(),
            forall|k: int| 0 <= k < i ==> a@[k] == b@[k],
        decreases a@.len() - i,
    {
        if a[i] != b[i] {
            return false;
        }
        i += 1;
    }
    proof {
        assert(a@ =~= b@);
    }
    true
}

/// Whether `a`, lower-cased, equals `b` (callers pass `b` already lower case).
pub fn lower_eq(a: &[u8], b: &[u8]) -> (r: bool)
    ensures
        r == (lower_bytes(a@) == b@),
{
    if a.len() != b.len() {
        proof {
            assert(lower_bytes(a@).len() == a@.len());
        }
        return false;
    }
    let mut i: usize = 0;
    while i < a.len()
        invariant
            a@.len() == b@.len(),
            0 <= i <= a@.len(),
            forall|k: int| 0 <= k < i ==> lower_byte(a@[k]) == b@[k],
        decreases a@.len() - i,
    {
        if byte_lower(a[i]) != b[i] {
            proof {
                assert(lower_bytes(a@)[i as int] != b@[i as int]);
            }
            return false;
        }
        i += 1;
    }
    proof {
        assert(lower_bytes(a@) =~= b@);
    }
    true
}

/// The first position at or after `i` holding byte `t`, or the length of `s`
/// if there is none.
pub open spec fn spec_find_from(s: Seq<u8>, i: int, t: u8) -> int
    decreases s.len() - i,
{
    if i < 0 || i >= s.len() {
        s.len() as int
    } else if s[i] == t {
        i
    } else {
        spec_find_from(s, i + 1, t)
    }
}

pub proof fn lemma_find_from_bounds(s: Seq<u8>, i: int, t: u8)
    requires
        0 <= i <= s.len(),
    ensures
        i <= spec_find_from(s, i, t) <= s.len(),
        spec_find_from(s, i, t) < s.len() ==> s[spec_find_from(s, i, t)] == t,
    decreases s.len() - i,
{
    if i < s.len() && s[i] != t {
        lemma_find_from_bounds(s, i + 1, t);
    }
}

pub fn find_from(s: &[u8], from: usize, t: u8) -> (r: usize)
    requires
        from <= s@.len(),
    ensures
        r == spec_find_from(s@, from as int, t),
        from <= r <= s@.len(),
{
    let mut i: usize = from;
    while i < s.len()
        invariant
            from <= i <= s@.len(),
            spec_find_from(s@, from as int, t) == spec_find_from(s@, i as int, t),
        decreases s@.len() - i,
    {
        if s[i] == t {
            return i;
        }
        i += 1;
    }
    i
}

/// The first position at or after `i` where a comment terminator `-->`
/// begins, or the length of `s` if there is none.
pub open spec fn spec_find_arrow(s: Seq<u8>, i: int) -> int
    decreases s.len() - i,
{
    if i < 0 || i + 3 > s.len() {
        s.len() as int
    } else if s[i] == 45 && s[i + 1] == 45 && s[i + 2] == 62 {
        i
    } else {
        spec_find_arrow(s, i + 1)
    }
}

pub proof fn lemma_find_arrow_bounds(s: Seq<u8>, i: int)
    requires
        0 <= i <= s.len(),
    ensures
        i <= spec_find_arrow(s, i) <= s.len(),
        spec_find_arrow(s, i) + 3 <= s.len() || spec_find_arrow(s, i) == s.len(),
    decreases s.len() - i,
{
    if !(i + 3 > s.len()) && !(s[i] == 45 && s[i + 1] == 45 && s[i + 2] == 62) {
        lemma_find_arrow_bounds(s, i + 1);
    }
}

pub fn find_arrow(s: &[u8], from: usize) -> (r: usize)
    requires
        from <= s@.len(),
    ensures
        r == spec_find_arrow(s@, from as int),
        from <= r <= s@.len(),
{
    let mut i: usize = from;
    loop
        invariant
            from <= i <= s@.len(),
            spec_find_arrow(s@, from as int) == spec_find_arrow(s@, i as int),
        decreases s@.len() - i,
    {
        if s.len() - i < 3 {
            proof {
                assert(spec_find_arrow(s@, i as int) == s@.len());
            }
            return s.len();
        }
        if s[i] == 45 && s[i + 1] == 45 && s[i + 2] == 62 {
            return i;
        }
        i += 1;
    }
}

/// The position of the `>` that closes a tag whose interior starts at `i`,
/// skipping over single- and double-quoted attribute values; the length of
/// `s` if the tag never closes. `quote` is the quote byte currently open,
/// or 0 outside quotes.
pub open spec fn spec_tag_end(s: Seq<u8>, i: int, quote: u8) -> int
    decreases s.len() - i,
{
    if i < 0 || i >= s.len() {
        s.len() as int
    } else if quote == 0 {
        if s[i] == 62 {
            i
        } else if s[i] == 34 || s[i] == 39 {
            spec_tag_end(s, i + 1, s[i])
        } else {
            spec_tag_end(s, i + 1, 0)
        }
    } else {
        if s[i] == quote {
            spec_tag_end(s, i + 1, 0)
        } else {
            spec_tag_end(s, i + 1, quote)
        }
    }
}

pub proof fn lemma_tag_end_bounds(s: Seq<u8>, i: int, quote: u8)
    requires
        0 <= i <= s.len(),
    ensures
        i <= spec_tag_end(s, i, quote) <= s.len(),
        spec_tag_end(s, i, quote) < s.len() ==> s[spec_tag_end(s, i, quote)] == 62,
    decreases s.len() - i,
{
    if i < s.len() {
        if quote == 0 {
            if s[i] != 62 {
                if s[i] == 34 || s[i] == 39 {
                    lemma_tag_end_bounds(s, i + 1, s[i]);
                } else {
                    lemma_tag_end_bounds(s, i + 1, 0);
                }
            }
        } else {
            if s[i] == quote {
                lemma_tag_end_bounds(s, i + 1, 0);
            } else {
                lemma_tag_end_bounds(s, i + 1, quote);
            }
        }
    }
}

pub fn tag_end(s: &[u8], from: usize) -> (r: usize)
    requires
        from <= s@.len(),
    ensures
        r == spec_tag_end(s@, from as int, 0),
        from <= r <= s@.len(),
{
    let mut i: usize = from;
    let mut quote: u8 = 0;
    while i < s.len()
        invariant
            from <= i <= s@.len(),
            quote == 0 || quote == 34 || quote == 39,
            spec_tag_end(s@, from as int, 0) == spec_tag_end(s@, i as int, quote),
        decreases s@.len() - i,
    {
        let b = s[i];
        if quote == 0 {
            if b == 62 {
                return i;
            } else if b == 34 || b == 39 {
                quote = b;
            }
        } else {
            if b == quote {
                quote = 0;
            }
        }
        i += 1;
    }
    i
}

/// Appends all of `src` to `out`.
pub fn push_bytes(out: &mut Vec<u8>, src: &[u8])
    ensures
        final(out)@ == old(out)@ + src@,
{
    let mut i: usize = 0;
    while i < src.len()
        invariant
            0 <= i <= src@.len(),
            out@ == old(out)@ + src@.subrange(0, i as int),
        decreases src@.len() - i,
    {
        out.push(src[i]);
        proof {
            assert(out@ =~= old(out)@ + src@.subrange(0, i + 1));
        }
        i += 1;
    }
    proof {
        assert(src@.subrange(0, src@.len() as int) =~= src@);
    }
}

/// Appends the range `[from, to)` of `src` to `out`.
pub fn push_range(out: &mut Vec<u8>, src: &[u8], from: usize, to: usize)
    requires
        from <= to <= src@.len(),
    ensures
        final(out)@ == old(out)@ + src@.subrange(from as int, to as int),
{
    let mut i: usize = from;
    while i < to
        invariant
            from <= i <= to <= src@.len(),
            out@ == old(out)@ + src@.subrange(from as int, i as int),
        decreases to - i,
    {
        out.push(src[i]);
        proof {
            assert(out@ =~= old(out)@ + src@.subrange(from as int, i + 1));
        }
        i += 1;
    }
}

/// A fresh copy of the range `[from, to)` of `src`.
pub fn copy_range(src: &[u8], from: usize, to: usize) -> (r: Vec<u8>)
    requires
        from <= to <= src@.len(),
    ensures
        r@ == src@.subrange(from as int, to as int),
{
    let mut v: Vec<u8> = Vec::new();
    push_range(&mut v, src, from, to);
    v
}

/// A fresh copy of all of `src`.
pub fn copy_bytes(src: &[u8]) -> (r: Vec<u8>)
    ensures
        r@ == src@,
{
    let mut v: Vec<u8> = Vec::new();
    push_bytes(&mut v, src);
    v
}

} // verus!
