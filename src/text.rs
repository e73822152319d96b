use vstd::prelude::*;

verus! {

/// Whether a byte sequence is well-formed UTF-8.
pub uninterp spec fn is_utf8(b: Seq<u8>) -> bool;

/// Relies on `std::str::from_utf8`: it returns `Ok` exactly on well-formed
/// UTF-8 input, and its answer depends on the bytes alone.
#[verifier::external_body]
pub(crate) fn utf8_valid(b: &[u8]) -> (r: bool)
    ensures
        r == is_utf8(b@),
{
    std::str::from_utf8(b).is_ok()
}

/// An owned copy of `b`.
pub(crate) fn copy_bytes(b: &[u8]) -> (r: Vec<u8>)
    ensures
        r@ == b@,
{
    let mut out: Vec<u8> = Vec::new();
    let mut i: usize = 0;
    while i < b.len()
        invariant
            i <= b@.len(),
            out@ == b@.take(i as int),
        decreases b@.len() - i,
    {
        out.push(b[i]);
        i = i + 1;
        assert(out@ =~= b@.take(i as int));
    }
    assert(out@ =~= b@);
    out
}

/// ASCII case folding of one byte: `A`..`Z` become `a`..`z`, all else stays.
pub open spec fn ascii_lower(c: u8) -> u8 {
    if 65 <= c <= 90 {
        (c + 32) as u8
    } else {
        c
    }
}

/// `s` without one trailing dot, if it has one.
pub open spec fn strip_trailing_dot(s: Seq<u8>) -> Seq<u8> {
    if s.len() > 0 && s.last() == 46 {
        s.drop_last()
    } else {
        s
    }
}

/// The lookup key of a name: one trailing dot dropped, ASCII letters lowered.
pub open spec fn normalize(s: Seq<u8>) -> Seq<u8> {
    strip_trailing_dot(s).map_values(|c: u8| ascii_lower(c))
}

/// The lookup key of a tag or query name.
pub fn normalize_name(s: &[u8]) -> (r: Vec<u8>)
    ensures
        r@ == normalize(s@),
{
    let mut end = s.len();
    if end > 0 && s[end - 1] == 46 {
        end = end - 1;
    }
    let ghost base = strip_trailing_dot(s@);
    assert(base =~= s@.take(end as int));
    let mut out: Vec<u8> = Vec::new();
    let mut i: usize = 0;
    while i < end
        invariant
            end <= s@.len(),
            base == s@.take(end as int),
            i <= end,
            out@ == base.take(i as int).map_values(|c: u8| ascii_lower(c)),
        decreases end - i,
    {
        let c = s[i];
        let lc = if 65 <= c && c <= 90 {
            c + 32
        } else {
            c
        };
        out.push(lc);
        i = i + 1;
        assert(out@ =~= base.take(i as int).map_values(|c: u8| ascii_lower(c)));
    }
    assert(base.take(end as int) =~= base);
    out
}

/// Whether two byte strings are equal.
pub fn bytes_eq(a: &[u8], b: &[u8]) -> (r: bool)
    ensures
        r == (a@ == b@),
{
    if a.len() != b.len() {
        return false;
    }
    let mut i: usize = 0;
    while i < a.len()
        invariant
            a@.len() == b@.len(),
            i <= a@.len(),
            forall|j: int| 0 <= j < i ==> a@[j] == b@[j],
        decreases a@.len() - i,
    {
        if a[i] != b[i] {
            return false;
        }
        i = i + 1;
    }
    assert(a@ =~= b@);
    true
}

/// Appends `b` to `out`.
pub fn push_all(out: &mut Vec<u8>, b: &[u8])
    ensures
        final(out)@ == old(out)@ + b@,
{
    let ghost start = out@;
    let mut i: usize = 0;
    while i < b.len()
        invariant
            i <= b@.len(),
            out@ == start + b@.take(i as int),
        decreases b@.len() - i,
    {
        out.push(b[i]);
        i = i + 1;
        assert(out@ =~= start + b@.take(i as int));
    }
    assert(b@.take(i as int) =~= b@);
}

} // verus!
