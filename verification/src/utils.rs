use vstd::prelude::*;
use crate::errors::CoreError;
use std::string::FromUtf16Error;

verus! {

/// The unsigned number that `bytes` encode in little-endian order:
/// the first byte is the least significant one.
pub open spec fn le_value(bytes: Seq<u8>) -> nat
    decreases bytes.len(),
{
    if bytes.len() == 0 {
        0
    } else {
        (bytes[0] + 256 * le_value(bytes.drop_first())) as nat
    }
}

/// `256` to the power `n`: the number of values that `n` bytes can hold.
pub open spec fn byte_span(n: nat) -> nat
    decreases n,
{
    if n == 0 {
        1
    } else {
        256 * byte_span((n - 1) as nat)
    }
}

/// A little-endian number of `n` bytes is below `256^n`.
pub proof fn lemma_le_value_bound(bytes: Seq<u8>)
    ensures
        le_value(bytes) < byte_span(bytes.len()),
    decreases bytes.len(),
{
    if bytes.len() > 0 {
        lemma_le_value_bound(bytes.drop_first());
    }
}

/// `byte_span` grows with the number of bytes.
pub proof fn lemma_byte_span_monotonic(m: nat, n: nat)
    requires
        m <= n,
    ensures
        byte_span(m) <= byte_span(n),
    decreases n,
{
    if m < n {
        lemma_byte_span_monotonic(m, (n - 1) as nat);
    }
}

proof fn lemma_byte_span_sizes()
    ensures
        byte_span(1) == 0x100,
        byte_span(2) == 0x1_0000,
        byte_span(4) == 0x1_0000_0000,
        byte_span(7) == 0x100_0000_0000_0000,
        byte_span(8) == 0x1_0000_0000_0000_0000,
{
    reveal_with_fuel(byte_span, 9);
}

/// A little-endian value of at most 1, 2, 4 or 8 bytes fits in an integer of
/// that many bytes, so reading it into one loses nothing.
pub proof fn lemma_le_value_fits(bytes: Seq<u8>)
    ensures
        bytes.len() <= 1 ==> le_value(bytes) < 0x100,
        bytes.len() <= 2 ==> le_value(bytes) < 0x1_0000,
        bytes.len() <= 4 ==> le_value(bytes) < 0x1_0000_0000,
        bytes.len() <= 8 ==> le_value(bytes) < 0x1_0000_0000_0000_0000,
{
    lemma_le_value_bound(bytes);
    lemma_byte_span_sizes();
    if bytes.len() <= 1 {
        lemma_byte_span_monotonic(bytes.len(), 1);
    }
    if bytes.len() <= 2 {
        lemma_byte_span_monotonic(bytes.len(), 2);
    }
    if bytes.len() <= 4 {
        lemma_byte_span_monotonic(bytes.len(), 4);
    }
    if bytes.len() <= 8 {
        lemma_byte_span_monotonic(bytes.len(), 8);
    }
}

/// The little-endian value weighs the byte at position `i` by `256^i`: the
/// first byte is the least significant one.
pub proof fn lemma_le_value_positional(s: Seq<u8>)
    ensures
        s.len() == 1 ==> le_value(s) == s[0],
        s.len() == 2 ==> le_value(s) == s[0] + 0x100 * s[1],
        s.len() == 4 ==> le_value(s) == s[0] + 0x100 * s[1] + 0x1_0000 * s[2] + 0x100_0000
            * s[3],
        s.len() == 8 ==> le_value(s) == s[0] + 0x100 * s[1] + 0x1_0000 * s[2] + 0x100_0000
            * s[3] + 0x1_0000_0000 * s[4] + 0x100_0000_0000 * s[5] + 0x1_0000_0000_0000 * s[6]
            + 0x100_0000_0000_0000 * s[7],
{
    reveal_with_fuel(le_value, 9);
    if s.len() == 1 {
        assert(s.drop_first() =~= Seq::<u8>::empty());
    }
    if s.len() == 2 {
        assert(s.drop_first().drop_first() =~= Seq::<u8>::empty());
    }
    if s.len() == 4 {
        assert(s.drop_first().drop_first().drop_first().drop_first() =~= Seq::<u8>::empty());
    }
    if s.len() == 8 {
        assert(s.drop_first().drop_first().drop_first().drop_first().drop_first().drop_first()
            .drop_first().drop_first() =~= Seq::<u8>::empty());
    }
}

/// The little-endian value of at most eight bytes.
fn decode_le(buf: &[u8]) -> (v: u64)
    requires
        buf@.len() <= 8,
    ensures
        v == le_value(buf@),
{
    let n = buf.len();
    let mut acc: u64 = 0;
    let mut i: usize = n;
    proof {
        lemma_byte_span_sizes();
        assert(buf@.subrange(n as int, n as int) =~= Seq::<u8>::empty());
    }
    while i > 0
        invariant
            i <= n,
            n == buf@.len(),
            n <= 8,
            acc == le_value(buf@.subrange(i as int, n as int)),
            acc < byte_span((n - i) as nat),
        decreases i,
    {
        let ghost tail = buf@.subrange(i as int, n as int);
        i = i - 1;
        proof {
            lemma_byte_span_sizes();
            lemma_byte_span_monotonic((n - i - 1) as nat, 7);
            assert(buf@.subrange(i as int, n as int).drop_first() =~= tail);
        }
        acc = buf[i] as u64 + 256 * acc;
    }
    assert(buf@.subrange(0, n as int) =~= buf@);
    acc
}

/// Numbers that can be read from their little-endian bytes.
pub trait FromLeBytes: Sized {
    /// The outcome of reading `bytes`: the number they encode when they are
    /// exactly as many as the type has, else the error of the type.
    spec fn spec_from_le_bytes(bytes: Seq<u8>) -> Result<Self, CoreError>;

    fn from_le_bytes(buf: &[u8]) -> (r: Result<Self, CoreError>)
        ensures
            r == Self::spec_from_le_bytes(buf@),
    ;
}

impl FromLeBytes for u8 {
    open spec fn spec_from_le_bytes(bytes: Seq<u8>) -> Result<u8, CoreError> {
        if bytes.len() == 1 {
            Ok(le_value(bytes) as u8)
        } else {
            Err(CoreError::CoreFailedToReadLeU8)
        }
    }

    fn from_le_bytes(buf: &[u8]) -> (r: Result<u8, CoreError>) {
        if buf.len() == 1 {
            proof {
                lemma_le_value_bound(buf@);
                lemma_byte_span_sizes();
            }
            Ok(decode_le(buf) as u8)
        } else {
            Err(CoreError::CoreFailedToReadLeU8)
        }
    }
}

impl FromLeBytes for u16 {
    open spec fn spec_from_le_bytes(bytes: Seq<u8>) -> Result<u16, CoreError> {
        if bytes.len() == 2 {
            Ok(le_value(bytes) as u16)
        } else {
            Err(CoreError::CoreFailedToReadLeU16)
        }
    }

    fn from_le_bytes(buf: &[u8]) -> (r: Result<u16, CoreError>) {
        if buf.len() == 2 {
            proof {
                lemma_le_value_bound(buf@);
                lemma_byte_span_sizes();
            }
            Ok(decode_le(buf) as u16)
        } else {
            Err(CoreError::CoreFailedToReadLeU16)
        }
    }
}

impl FromLeBytes for u32 {
    open spec fn spec_from_le_bytes(bytes: Seq<u8>) -> Result<u32, CoreError> {
        if bytes.len() == 4 {
            Ok(le_value(bytes) as u32)
        } else {
            Err(CoreError::CoreFailedToReadLeU32)
        }
    }

    fn from_le_bytes(buf: &[u8]) -> (r: Result<u32, CoreError>) {
        if buf.len() == 4 {
            proof {
                lemma_le_value_bound(buf@);
                lemma_byte_span_sizes();
            }
            Ok(decode_le(buf) as u32)
        } else {
            Err(CoreError::CoreFailedToReadLeU32)
        }
    }
}

impl FromLeBytes for u64 {
    open spec fn spec_from_le_bytes(bytes: Seq<u8>) -> Result<u64, CoreError> {
        if bytes.len() == 8 {
            Ok(le_value(bytes) as u64)
        } else {
            Err(CoreError::CoreFailedToReadLeU64)
        }
    }

    fn from_le_bytes(buf: &[u8]) -> (r: Result<u64, CoreError>) {
        if buf.len() == 8 {
            Ok(decode_le(buf))
        } else {
            Err(CoreError::CoreFailedToReadLeU64)
        }
    }
}

/// Reads a number of type `T` from its little-endian bytes; `buf` must hold
/// exactly as many bytes as `T` has.
pub fn read_bytes<T: FromLeBytes>(buf: &[u8]) -> (r: Result<T, CoreError>)
    ensures
        r == T::spec_from_le_bytes(buf@),
{
    T::from_le_bytes(buf)
}

/// A number read from `bytes` equals their little-endian value: the readers
/// of all four widths give back exactly what the bytes encode.
pub proof fn lemma_read_value_exact(bytes: Seq<u8>)
    ensures
        bytes.len() == 1 ==> (<u8 as FromLeBytes>::spec_from_le_bytes(bytes) matches Ok(v)
            && v == le_value(bytes)),
        bytes.len() == 2 ==> (<u16 as FromLeBytes>::spec_from_le_bytes(bytes) matches Ok(v)
            && v == le_value(bytes)),
        bytes.len() == 4 ==> (<u32 as FromLeBytes>::spec_from_le_bytes(bytes) matches Ok(v)
            && v == le_value(bytes)),
        bytes.len() == 8 ==> (<u64 as FromLeBytes>::spec_from_le_bytes(bytes) matches Ok(v)
            && v == le_value(bytes)),
{
    lemma_le_value_bound(bytes);
    lemma_byte_span_sizes();
}

/// The error of std's UTF-16 decoder, carried through unopened.
#[verifier::external_type_specification]
#[verifier::external_body]
pub struct ExFromUtf16Error(FromUtf16Error);

/// The view of an optional text.
pub open spec fn opt_text(o: Option<String>) -> Option<Seq<char>> {
    match o {
        Some(s) => Some(s@),
        None => None,
    }
}

/// The 16-bit units that `bytes` hold as little-endian pairs; a trailing odd
/// byte, if any, is left out.
pub open spec fn le_units(bytes: Seq<u8>) -> Seq<u16> {
    Seq::new(bytes.len() / 2, |i: int| (bytes[2 * i] + 256 * bytes[2 * i + 1]) as u16)
}

/// The text that `units` encode in UTF-16, or `None` where they hold an
/// unpaired surrogate: what std's UTF-16 decoder gives for them.
pub uninterp spec fn utf16_text(units: Seq<u16>) -> Option<Seq<char>>;

/// Calls std's `String::from_utf16`. Its documentation says that it decodes
/// UTF-16 and fails where the input holds invalid data; the contract claims
/// that the outcome is a function of the units alone, named `utf16_text`.
#[verifier::external_body]
fn string_from_utf16(units: &[u16]) -> (r: Result<String, FromUtf16Error>)
    ensures
        opt_text(r.ok()) == utf16_text(units@),
{
    String::from_utf16(units)
}

/// Each 16-bit unit is the little-endian value of its pair of bytes: unit `i`
/// of bytes `2i .. 2i+2`.
pub proof fn lemma_le_units(bytes: Seq<u8>)
    ensures
        le_units(bytes).len() == bytes.len() / 2,
        forall|i: int|
            0 <= i < bytes.len() / 2 ==> #[trigger] le_units(bytes)[i] as nat == le_value(
                bytes.subrange(2 * i, 2 * i + 2),
            ),
{
    assert forall|i: int| 0 <= i < bytes.len() / 2 implies #[trigger] le_units(bytes)[i] as nat
        == le_value(bytes.subrange(2 * i, 2 * i + 2)) by {
        let pair = bytes.subrange(2 * i, 2 * i + 2);
        lemma_le_value_positional(pair);
        assert(pair[0] == bytes[2 * i] && pair[1] == bytes[2 * i + 1]);
    }
}

/// Pairs up the bytes of `buf` into little-endian 16-bit units, dropping a
/// trailing odd byte.
pub fn units_from_le_bytes(buf: &[u8]) -> (units: Vec<u16>)
    ensures
        units@ == le_units(buf@),
        units@.len() == buf@.len() / 2,
        forall|i: int|
            0 <= i < units@.len() ==> #[trigger] units@[i] as nat == le_value(
                buf@.subrange(2 * i, 2 * i + 2),
            ),
{
    proof {
        lemma_le_units(buf@);
    }
    let n = buf.len() / 2;
    assert(buf@.len() == buf.len());
    let mut units: Vec<u16> = Vec::new();
    let mut i: usize = 0;
    while i < n
        invariant
            i <= n,
            n == buf@.len() / 2,
            2 * n <= buf@.len(),
            buf@.len() <= usize::MAX,
            units@ =~= le_units(buf@).take(i as int),
        decreases n - i,
    {
        let lo = buf[2 * i] as u16;
        let hi = buf[2 * i + 1] as u16;
        units.push(lo + 256 * hi);
        i = i + 1;
    }
    units
}

/// Decodes `units` as UTF-16, giving `None` where they are not valid UTF-16.
pub fn text_from_utf16(units: &[u16]) -> (r: Option<String>)
    ensures
        opt_text(r) == utf16_text(units@),
{
    string_from_utf16(units).ok()
}

/// What `extract_string` returns: nothing for an empty name or a buffer
/// shorter than the name's `2 * name_len` bytes, else the UTF-16 text of those
/// bytes when it is valid.
pub open spec fn spec_extract_string(buf: Seq<u8>, name_len: nat) -> Option<Seq<char>> {
    if name_len == 0 || buf.len() < 2 * name_len {
        None
    } else {
        utf16_text(le_units(buf.subrange(0, 2 * name_len as int)))
    }
}

/// Reads a name of `name_len` UTF-16 characters from the start of `buf`.
pub fn extract_string(buf: &[u8], name_len: usize) -> (r: Option<String>)
    requires
        name_len <= usize::MAX / 2,
    ensures
        opt_text(r) == spec_extract_string(buf@, name_len as nat),
        name_len == 0 || buf@.len() < 2 * name_len ==> r is None,
        name_len > 0 && buf@.len() >= 2 * name_len ==> opt_text(r) == utf16_text(
            le_units(buf@.subrange(0, 2 * name_len as int)),
        ),
{
    if name_len == 0 {
        return None;
    }
    let byte_len = name_len * 2;
    if buf.len() < byte_len {
        return None;
    }
    let utf16 = units_from_le_bytes(&buf[0..byte_len]);
    text_from_utf16(utf16.as_slice())
}

} // verus!
