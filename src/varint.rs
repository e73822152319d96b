use vstd::prelude::*;

verus! {

/// What can go wrong while decoding the protobuf wire format.
#[derive(Debug, Clone, Copy, PartialEq, Eq, Structural)]
pub enum DecodeError {
    /// The buffer ended in the middle of a varint.
    Truncated,
    /// A varint ran over ten bytes.
    VarintTooLong,
    /// A tag carried field number zero.
    FieldNumberZero,
    /// A length-delimited field claims more bytes than remain.
    LengthOverrun,
    /// A fixed-width field claims more bytes than remain.
    FixedOverrun,
    /// Start-group or end-group wire type.
    GroupNotSupported,
    /// A wire type outside 0..=5.
    UnknownWireType(u32),
    /// A known field arrived with the wrong wire type.
    WrongWireType,
    /// A string field is not valid UTF-8.
    InvalidUtf8,
}

pub const WIRE_TYPE_VARINT: u32 = 0;
pub const WIRE_TYPE_64BIT: u32 = 1;
pub const WIRE_TYPE_LENGTH_DELIMITED: u32 = 2;
pub const WIRE_TYPE_32BIT: u32 = 5;

/// 128 to the power `n`.
pub open spec fn pow128(n: nat) -> nat
    decreases n,
{
    if n == 0 {
        1
    } else {
        128 * pow128((n - 1) as nat)
    }
}

/// The number that base-128 digits stand for, least significant first; only
/// the low seven bits of each byte count.
pub open spec fn leb_value(s: Seq<u8>) -> nat
    decreases s.len(),
{
    if s.len() == 0 {
        0
    } else {
        (s[0] % 128) as nat + 128 * leb_value(s.drop_first())
    }
}

/// Length of the varint at the start of `s`, counting from byte `i` on.
pub open spec fn varint_scan(s: Seq<u8>, i: nat) -> Result<nat, DecodeError>
    decreases s.len() - i,
{
    if i >= s.len() {
        Err(DecodeError::Truncated)
    } else if i >= 10 {
        Err(DecodeError::VarintTooLong)
    } else if s[i as int] < 128 {
        Ok(i + 1)
    } else {
        varint_scan(s, i + 1)
    }
}

pub open spec fn u64_modulus() -> nat {
    0x1_0000_0000_0000_0000
}

/// The varint at the start of `s`: its value (wrapped to 64 bits) and how
/// many bytes it takes.
pub open spec fn varint_spec(s: Seq<u8>) -> Result<(u64, nat), DecodeError> {
    match varint_scan(s, 0) {
        Ok(n) => Ok(((leb_value(s.take(n as int)) % u64_modulus()) as u64, n)),
        Err(e) => Err(e),
    }
}

/// The canonical varint encoding of `v`.
pub open spec fn varint_encode(v: nat) -> Seq<u8>
    decreases v,
{
    if v < 128 {
        seq![v as u8]
    } else {
        seq![(v % 128 + 128) as u8] + varint_encode(v / 128)
    }
}

proof fn lemma_leb_take(s: Seq<u8>, i: int)
    requires
        0 <= i < s.len(),
    ensures
        leb_value(s.take(i + 1)) == leb_value(s.take(i)) + (s[i] % 128) as nat * pow128(i as nat),
    decreases i,
{
    if i == 0 {
        assert(s.take(1).drop_first() =~= Seq::<u8>::empty());
        assert(leb_value(s.take(0)) == 0);
        assert(leb_value(Seq::<u8>::empty()) == 0);
        assert(leb_value(s.take(1)) == (s[0] % 128) as nat + 128 * leb_value(s.take(1).drop_first()));
        assert(pow128(0) == 1);
    } else {
        let t = s.drop_first();
        lemma_leb_take(t, i - 1);
        assert(s.take(i + 1).drop_first() =~= t.take(i));
        assert(s.take(i).drop_first() =~= t.take(i - 1));
        let a = leb_value(t.take(i - 1));
        let d = (s[i] % 128) as nat;
        let p = pow128((i - 1) as nat);
        assert(t[i - 1] == s[i]);
        assert(leb_value(s.take(i + 1)) == (s[0] % 128) as nat + 128 * leb_value(t.take(i)));
        assert(leb_value(s.take(i)) == (s[0] % 128) as nat + 128 * a);
        assert(pow128(i as nat) == 128 * p);
        assert(leb_value(t.take(i)) == a + d * p);
        assert(128 * (a + d * p) == 128 * a + d * (128 * p)) by (nonlinear_arith);
    }
}

proof fn lemma_leb_bound(s: Seq<u8>)
    ensures
        leb_value(s) < pow128(s.len()),
    decreases s.len(),
{
    if s.len() > 0 {
        lemma_leb_bound(s.drop_first());
        let r = leb_value(s.drop_first());
        let p = pow128(s.drop_first().len());
        assert(r + 1 <= p);
        assert(128 * r + 128 <= 128 * p) by (nonlinear_arith)
            requires
                r + 1 <= p,
        ;
    }
}

proof fn lemma_pow128_63()
    ensures
        pow128(9) == 0x8000_0000_0000_0000,
{
    reveal_with_fuel(pow128, 10);
}

/// Reads a varint from the front of `buffer` and moves `buffer` past it.
pub fn read_varint(buffer: &mut &[u8]) -> (r: Result<u64, DecodeError>)
    ensures
        match varint_spec(old(buffer)@) {
            Ok((v, n)) => r == Ok::<u64, DecodeError>(v) && 0 < n <= old(buffer)@.len()
                && final(buffer)@ == old(buffer)@.skip(n as int),
            Err(e) => r == Err::<u64, DecodeError>(e) && final(buffer)@ == old(buffer)@,
        },
{
    proof {
        lemma_varint_scan_len(old(buffer)@, 0);
    }
    let s: &[u8] = *buffer;
    let n = s.len();
    let mut value: u64 = 0;
    let mut mult: u64 = 1;
    let mut i: usize = 0;
    while i < n
        invariant
            s@ == old(buffer)@,
            *buffer == s,
            n == s@.len(),
            i <= 10,
            i <= n,
            varint_scan(s@, 0) == varint_scan(s@, i as nat),
            i <= 9 ==> value == leb_value(s@.take(i as int)) && mult == pow128(i as nat),
        decreases n - i,
    {
        if i >= 10 {
            return Err(DecodeError::VarintTooLong);
        }
        let byte = s[i];
        proof {
            lemma_leb_take(s@, i as int);
            lemma_leb_bound(s@.take(i as int));
            lemma_pow128_63();
            if i < 9 {
                assert(pow128(i as nat) <= pow128(8)) by {
                    reveal_with_fuel(pow128, 10);
                    assert(i <= 8);
                    lemma_pow128_mono(i as nat, 8);
                }
                assert(pow128(8) == 0x100_0000_0000_0000) by {
                    reveal_with_fuel(pow128, 10);
                }
            }
        }
        if i < 9 {
            let d: u64 = (byte & 0x7f) as u64;
            assert(d == (byte % 128) as u64) by (bit_vector)
                requires
                    d == (byte & 0x7f) as u64,
            ;
            proof {
                assert(d * mult <= 127 * 0x100_0000_0000_0000) by (nonlinear_arith)
                    requires
                        d <= 127,
                        mult <= 0x100_0000_0000_0000,
                ;
            }
            value = value + d * mult;
            mult = mult * 128;
        } else {
            let d: u64 = (byte & 1) as u64;
            proof {
                let full = leb_value(s@.take(10));
                assert(d == (byte % 2) as u64) by (bit_vector)
                    requires
                        d == (byte & 1) as u64,
                ;
                lemma_top_digit(value as nat, (byte % 128) as nat);
                assert(full == value + (byte % 128) as nat * 0x8000_0000_0000_0000);
            }
            value = value + d * 0x8000_0000_0000_0000;
        }
        if byte & 0x80 == 0 {
            assert(byte < 128) by (bit_vector)
                requires
                    byte & 0x80 == 0,
            ;
            *buffer = &s[i + 1..n];
            proof {
                assert(s@.subrange(i + 1, n as int) =~= s@.skip(i + 1));
                if i < 9 {
                    assert(value < u64_modulus());
                }
            }
            return Ok(value);
        }
        assert(byte >= 128) by (bit_vector)
            requires
                byte & 0x80 != 0,
        ;
        i = i + 1;
    }
    Err(DecodeError::Truncated)
}

proof fn lemma_varint_scan_len(s: Seq<u8>, i: nat)
    ensures
        varint_scan(s, i) matches Ok(n) ==> i < n <= s.len(),
    decreases s.len() - i,
{
    if i < s.len() && i < 10 && s[i as int] >= 128 {
        lemma_varint_scan_len(s, i + 1);
    }
}

/// A varint takes at least one byte and no more than there are.
pub proof fn lemma_varint_len(s: Seq<u8>)
    ensures
        varint_spec(s) matches Ok((_, n)) ==> 0 < n <= s.len(),
{
    lemma_varint_scan_len(s, 0);
}

proof fn lemma_pow128_mono(i: nat, j: nat)
    requires
        i <= j,
    ensures
        pow128(i) <= pow128(j),
    decreases j,
{
    if i < j {
        lemma_pow128_mono(i, (j - 1) as nat);
    }
}

proof fn lemma_top_digit(low: nat, d: nat)
    requires
        low < 0x8000_0000_0000_0000,
        d < 128,
    ensures
        (low + d * 0x8000_0000_0000_0000) % u64_modulus() == low + (d % 2) * 0x8000_0000_0000_0000,
{
    assert(d * 0x8000_0000_0000_0000 == (d % 2) * 0x8000_0000_0000_0000 + (d / 2) * u64_modulus())
        by (nonlinear_arith)
        requires
            d < 128,
    ;
    vstd::arithmetic::div_mod::lemma_mod_multiples_vanish(
        (d / 2) as int,
        (low + (d % 2) * 0x8000_0000_0000_0000) as int,
        u64_modulus() as int,
    );
    vstd::arithmetic::div_mod::lemma_small_mod(
        (low + (d % 2) * 0x8000_0000_0000_0000) as nat,
        u64_modulus(),
    );
}

/// The tag at the start of `s`: field number, wire type and the bytes it takes.
pub open spec fn tag_spec(s: Seq<u8>) -> Result<(u32, u32, nat), DecodeError> {
    match varint_spec(s) {
        Ok((v, n)) => {
            let field = ((v / 8) % 0x1_0000_0000) as u32;
            if field == 0 {
                Err(DecodeError::FieldNumberZero)
            } else {
                Ok((field, (v % 8) as u32, n))
            }
        },
        Err(e) => Err(e),
    }
}

/// The length-delimited payload at the start of `s` and the bytes that the
/// length prefix and payload take together.
pub open spec fn ld_spec(s: Seq<u8>) -> Result<(Seq<u8>, nat), DecodeError> {
    match varint_spec(s) {
        Ok((len, n)) => {
            if s.len() - n < len {
                Err(DecodeError::LengthOverrun)
            } else {
                Ok((s.subrange(n as int, n + len), (n + len) as nat))
            }
        },
        Err(e) => Err(e),
    }
}

/// How many bytes a field body of wire type `w` takes at the start of `s`.
pub open spec fn skip_spec(s: Seq<u8>, w: u32) -> Result<nat, DecodeError> {
    if w == 0 {
        match varint_spec(s) {
            Ok((_, n)) => Ok(n),
            Err(e) => Err(e),
        }
    } else if w == 1 {
        if s.len() < 8 {
            Err(DecodeError::FixedOverrun)
        } else {
            Ok(8)
        }
    } else if w == 2 {
        match ld_spec(s) {
            Ok((_, n)) => Ok(n),
            Err(e) => Err(e),
        }
    } else if w == 5 {
        if s.len() < 4 {
            Err(DecodeError::FixedOverrun)
        } else {
            Ok(4)
        }
    } else if w == 3 || w == 4 {
        Err(DecodeError::GroupNotSupported)
    } else {
        Err(DecodeError::UnknownWireType(w))
    }
}

/// Reads a tag and splits it into field number and wire type; on an error
/// the buffer is left where it was.
pub fn read_tag(buffer: &mut &[u8]) -> (r: Result<(u32, u32), DecodeError>)
    ensures
        match tag_spec(old(buffer)@) {
            Ok((f, w, n)) => r == Ok::<(u32, u32), DecodeError>((f, w)) && final(buffer)@
                == old(buffer)@.skip(n as int),
            Err(e) => r == Err::<(u32, u32), DecodeError>(e) && final(buffer)@ == old(buffer)@,
        },
{
    let start: &[u8] = *buffer;
    let tag_val = read_varint(buffer)?;
    let wire_type = (tag_val & 0x07) as u32;
    let field_number = (tag_val >> 3) as u32;
    assert(wire_type == (tag_val % 8) as u32 && field_number == ((tag_val / 8) % 0x1_0000_0000) as u32)
        by (bit_vector)
        requires
            wire_type == (tag_val & 0x07) as u32,
            field_number == (tag_val >> 3) as u32,
    ;
    if field_number == 0 {
        *buffer = start;
        return Err(DecodeError::FieldNumberZero);
    }
    Ok((field_number, wire_type))
}

/// Reads a length prefix and returns that many bytes, moving `buffer` past
/// them; on an error the buffer is left where it was.
pub fn read_length_delimited<'a>(buffer: &mut &'a [u8]) -> (r: Result<&'a [u8], DecodeError>)
    ensures
        match ld_spec(old(buffer)@) {
            Ok((d, n)) => r matches Ok(x) && x@ == d && final(buffer)@ == old(buffer)@.skip(n as int),
            Err(e) => r == Err::<&[u8], DecodeError>(e) && final(buffer)@ == old(buffer)@,
        },
{
    let ghost orig = buffer@;
    let start: &'a [u8] = *buffer;
    let len = read_varint(buffer)?;
    let s: &'a [u8] = *buffer;
    let ghost k = varint_spec(orig)->Ok_0.1;
    assert(varint_spec(orig) is Ok);
    assert(s@ == orig.skip(k as int));
    assert(len == varint_spec(orig)->Ok_0.0);
    if (s.len() as u64) < len {
        *buffer = start;
        return Err(DecodeError::LengthOverrun);
    }
    let l = len as usize;
    let data = &s[0..l];
    *buffer = &s[l..s.len()];
    assert(buffer@ =~= orig.skip(k + l));
    assert(data@ =~= orig.subrange(k as int, k + l));
    Ok(data)
}

/// Moves `buffer` past `n` bytes, which must be there.
fn advance(buffer: &mut &[u8], n: usize)
    requires
        n <= old(buffer)@.len(),
    ensures
        final(buffer)@ == old(buffer)@.skip(n as int),
{
    let s: &[u8] = *buffer;
    *buffer = &s[n..s.len()];
    assert(s@.subrange(n as int, s@.len() as int) =~= s@.skip(n as int));
}

/// Skips the body of a field of wire type `wire_type`; on an error the
/// buffer is left where it was.
pub fn skip_field(buffer: &mut &[u8], wire_type: u32) -> (r: Result<(), DecodeError>)
    ensures
        match skip_spec(old(buffer)@, wire_type) {
            Ok(n) => r == Ok::<(), DecodeError>(()) && final(buffer)@ == old(buffer)@.skip(n as int),
            Err(e) => r == Err::<(), DecodeError>(e) && final(buffer)@ == old(buffer)@,
        },
{
    if wire_type == WIRE_TYPE_VARINT {
        read_varint(buffer)?;
    } else if wire_type == WIRE_TYPE_64BIT {
        if buffer.len() < 8 {
            return Err(DecodeError::FixedOverrun);
        }
        advance(buffer, 8);
    } else if wire_type == WIRE_TYPE_LENGTH_DELIMITED {
        let ghost orig = buffer@;
        let start: &[u8] = *buffer;
        let len = read_varint(buffer)?;
        let ghost k = varint_spec(orig)->Ok_0.1;
        assert(varint_spec(orig) is Ok);
        assert(buffer@ == orig.skip(k as int));
        assert(len == varint_spec(orig)->Ok_0.0);
        if (buffer.len() as u64) < len {
            *buffer = start;
            return Err(DecodeError::LengthOverrun);
        }
        advance(buffer, len as usize);
        assert(buffer@ =~= orig.skip(k + len));
    } else if wire_type == WIRE_TYPE_32BIT {
        if buffer.len() < 4 {
            return Err(DecodeError::FixedOverrun);
        }
        advance(buffer, 4);
    } else if wire_type == 3 || wire_type == 4 {
        return Err(DecodeError::GroupNotSupported);
    } else {
        return Err(DecodeError::UnknownWireType(wire_type));
    }
    Ok(())
}

proof fn lemma_encode_shape(v: nat)
    ensures
        varint_encode(v).len() >= 1,
        forall|i: int| 0 <= i < varint_encode(v).len() - 1 ==> varint_encode(v)[i] >= 128,
        varint_encode(v)[varint_encode(v).len() - 1] < 128,
        leb_value(varint_encode(v)) == v,
    decreases v,
{
    let e = varint_encode(v);
    if v < 128 {
        assert(e.drop_first() =~= Seq::<u8>::empty());
        assert(leb_value(Seq::<u8>::empty()) == 0);
    } else {
        lemma_encode_shape(v / 128);
        let t = varint_encode(v / 128);
        assert(e.drop_first() =~= t);
        assert(e[0] == (v % 128 + 128) as u8);
        assert((e[0] % 128) as nat == v % 128);
        assert forall|i: int| 0 <= i < e.len() - 1 implies e[i] >= 128 by {
            if i > 0 {
                assert(e[i] == t[i - 1]);
            }
        }
        assert(e[e.len() - 1] == t[t.len() - 1]);
        assert(v == v % 128 + 128 * (v / 128)) by (nonlinear_arith);
    }
}

proof fn lemma_encode_len(v: nat, k: nat)
    requires
        1 <= k,
        v < pow128(k),
    ensures
        varint_encode(v).len() <= k,
    decreases v,
{
    if v >= 128 {
        assert(k >= 2) by {
            if k == 1 {
                reveal_with_fuel(pow128, 2);
            }
        }
        let p = pow128((k - 1) as nat);
        assert(pow128(k) == 128 * p);
        assert(v / 128 < p) by (nonlinear_arith)
            requires
                v < 128 * p,
        ;
        lemma_encode_len(v / 128, (k - 1) as nat);
    }
}

proof fn lemma_scan_continuations(s: Seq<u8>, i: nat, m: nat)
    requires
        i <= m < s.len(),
        m < 10,
        forall|j: int| i <= j < m ==> s[j] >= 128,
        s[m as int] < 128,
    ensures
        varint_scan(s, i) == Ok::<nat, DecodeError>(m + 1),
    decreases m - i,
{
    if i < m {
        lemma_scan_continuations(s, i + 1, m);
    }
}

/// Every 64-bit value survives encoding as a varint and decoding again,
/// whatever bytes follow it, and decoding takes exactly the encoded bytes.
pub proof fn lemma_varint_round_trip(v: u64, rest: Seq<u8>)
    ensures
        varint_spec(varint_encode(v as nat) + rest) == Ok::<(u64, nat), DecodeError>(
            (v, varint_encode(v as nat).len()),
        ),
{
    let e = varint_encode(v as nat);
    let s = e + rest;
    lemma_encode_shape(v as nat);
    assert(pow128(10) == 0x400000_0000_0000_0000) by {
        reveal_with_fuel(pow128, 11);
    }
    lemma_encode_len(v as nat, 10);
    lemma_scan_continuations(s, 0, (e.len() - 1) as nat);
    assert(s.take(e.len() as int) =~= e);
    vstd::arithmetic::div_mod::lemma_small_mod(v as nat, u64_modulus());
}

proof fn lemma_scan_all_continuations(s: Seq<u8>, i: nat)
    requires
        i <= 10,
        s.len() >= 10,
        forall|j: int| 0 <= j < 10 ==> s[j] >= 128,
    ensures
        varint_scan(s, i) is Err,
    decreases 10 - i,
{
    if i < 10 {
        lemma_scan_all_continuations(s, i + 1);
    }
}

/// Ten bytes in a row that all carry the continuation bit are no varint.
pub proof fn lemma_ten_continuations_fail(s: Seq<u8>)
    requires
        s.len() >= 10,
        forall|i: int| 0 <= i < 10 ==> s[i] >= 128,
    ensures
        varint_spec(s) is Err,
{
    lemma_scan_all_continuations(s, 0);
}

} // verus!
