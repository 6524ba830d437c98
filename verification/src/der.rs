//! Values in the distinguished encoding rules of ASN.1: identifier octets, length octets and
//! content, which may hold values in turn.
//!
//! Places are counted in the octets that are read. A value is read between a place and a limit. A
//! limit comes from the length of the value around, so it may lie behind the last octet that is
//! there: then the octets end too early, and that is found where one of them is missed.

use vstd::prelude::*;

use crate::text::copy_bytes;

verus! {

// The identifier octets of the values that are read here.

pub const BOOLEAN: u8 = 0x01;

pub const INTEGER: u8 = 0x02;

pub const BIT_STRING: u8 = 0x03;

pub const OCTET_STRING: u8 = 0x04;

pub const NULL: u8 = 0x05;

pub const OBJECT_IDENTIFIER: u8 = 0x06;

pub const UTF8_STRING: u8 = 0x0c;

pub const GENERALIZED_TIME: u8 = 0x18;

pub const SEQUENCE: u8 = 0x30;

pub const SET: u8 = 0x31;

/// A primitive value tagged `[0]`.
pub const PRIMITIVE_0: u8 = 0x80;

/// A primitive value tagged `[1]`.
pub const PRIMITIVE_1: u8 = 0x81;

/// A constructed value tagged `[0]`.
pub const CONSTRUCTED_0: u8 = 0xa0;

/// A constructed value tagged `[1]`.
pub const CONSTRUCTED_1: u8 = 0xa1;

/// Why octets could not be decoded. The reasons have the words of the `bcder` crate, but for the last
/// four, which are not about the encoding. The places of faults are those of that crate too.
#[derive(Clone, Copy, Debug, PartialEq, Eq, Structural)]
pub enum Reason {
    EndOfData,
    ShortTag,
    LongTag,
    InvalidLength,
    LongLength,
    ExcessiveLength,
    OpenLength,
    MissingValue,
    TrailingData,
    NotPrimitive,
    NotConstructed,
    ConstructedString,
    ConstructedBitString,
    NoOctetString,
    NoIdentifier,
    InvalidNesting,
    NonEmptyMarker,
    ShortPrimitive,
    OpenPrimitive,
    MissingMarker,
    InvalidInteger,
    InvalidBoolean,
    EmptyIdentifier,
    IllegalIdentifier,
    InvalidCharacter,
    ManyUnusedBits,
    UnusedBitsOfNone,
    UnusedBitsSet,
    UnknownStatus,
    UnknownVersion,
    InvalidTime,
    NotSignedData,
}

impl Reason {
    /// What the reason says.
    pub open spec fn said(self) -> Seq<char> {
        match self {
            Reason::EndOfData => "unexpected end of data"@,
            Reason::ShortTag => "short tag value"@,
            Reason::LongTag => "tag values longer than 4 bytes not implemented"@,
            Reason::InvalidLength => "invalid length"@,
            Reason::LongLength => "lengths over 4 bytes not implemented"@,
            Reason::ExcessiveLength => "nested value with excessive length"@,
            Reason::OpenLength => "indefinite length constructed in DER mode"@,
            Reason::MissingValue => "missing further values"@,
            Reason::TrailingData => "trailing data"@,
            Reason::NotPrimitive => "expected primitive value"@,
            Reason::NotConstructed => "expected constructed value"@,
            Reason::ConstructedString => "constructed string in DER mode"@,
            Reason::ConstructedBitString => "constructed bit string in DER mode"@,
            Reason::NoOctetString => "expected tag OCTET STRING"@,
            Reason::NoIdentifier => "additional values expected"@,
            Reason::InvalidNesting => "invalid nested values"@,
            Reason::NonEmptyMarker => "non-empty end of value"@,
            Reason::ShortPrimitive => "short primitive value"@,
            Reason::OpenPrimitive => "primitive value with indefinite length"@,
            Reason::MissingMarker => "\n                                missing further values"@,
            Reason::InvalidInteger => "invalid integer"@,
            Reason::InvalidBoolean => "invalid boolean"@,
            Reason::EmptyIdentifier => "empty object identifier"@,
            Reason::IllegalIdentifier => "illegal object identifier"@,
            Reason::InvalidCharacter => "invalid character"@,
            Reason::ManyUnusedBits => "invalid bit string with large initial octet"@,
            Reason::UnusedBitsOfNone => "invalid bit string (non-zero initial with empty bits)"@,
            Reason::UnusedBitsSet => "non-zero unused bits in DER bit string"@,
            Reason::UnknownStatus => "unknown PKIStatus value"@,
            Reason::UnknownVersion => "unexpected CMSVersion"@,
            Reason::InvalidTime => "invalid time"@,
            Reason::NotSignedData => "invalid OID on signed data"@,
        }
    }

    /// The reason as text.
    pub fn text(&self) -> (res: &'static str)
        ensures
            res@ == self.said(),
    {
        match *self {
            Reason::EndOfData => "unexpected end of data",
            Reason::ShortTag => "short tag value",
            Reason::LongTag => "tag values longer than 4 bytes not implemented",
            Reason::InvalidLength => "invalid length",
            Reason::LongLength => "lengths over 4 bytes not implemented",
            Reason::ExcessiveLength => "nested value with excessive length",
            Reason::OpenLength => "indefinite length constructed in DER mode",
            Reason::MissingValue => "missing further values",
            Reason::TrailingData => "trailing data",
            Reason::NotPrimitive => "expected primitive value",
            Reason::NotConstructed => "expected constructed value",
            Reason::ConstructedString => "constructed string in DER mode",
            Reason::ConstructedBitString => "constructed bit string in DER mode",
            Reason::NoOctetString => "expected tag OCTET STRING",
            Reason::NoIdentifier => "additional values expected",
            Reason::InvalidNesting => "invalid nested values",
            Reason::NonEmptyMarker => "non-empty end of value",
            Reason::ShortPrimitive => "short primitive value",
            Reason::OpenPrimitive => "primitive value with indefinite length",
            Reason::MissingMarker => "\n                                missing further values",
            Reason::InvalidInteger => "invalid integer",
            Reason::InvalidBoolean => "invalid boolean",
            Reason::EmptyIdentifier => "empty object identifier",
            Reason::IllegalIdentifier => "illegal object identifier",
            Reason::InvalidCharacter => "invalid character",
            Reason::ManyUnusedBits => "invalid bit string with large initial octet",
            Reason::UnusedBitsOfNone => "invalid bit string (non-zero initial with empty bits)",
            Reason::UnusedBitsSet => "non-zero unused bits in DER bit string",
            Reason::UnknownStatus => "unknown PKIStatus value",
            Reason::UnknownVersion => "unexpected CMSVersion",
            Reason::InvalidTime => "invalid time",
            Reason::NotSignedData => "invalid OID on signed data",
        }
    }
}

/// What is wrong with octets, and at which place.
pub struct Fault {
    pub reason: Reason,
    pub position: int,
}

/// What is wrong with octets, and at which place, as running code has it.
#[derive(Clone, Copy, Debug, PartialEq, Eq, Structural)]
pub struct DecodeError {
    pub reason: Reason,
    pub position: usize,
}

impl View for DecodeError {
    type V = Fault;

    open spec fn view(&self) -> Fault {
        Fault { reason: self.reason, position: self.position as int }
    }
}

/// A fault at a place.
pub open spec fn fault<T>(reason: Reason, position: int) -> Result<T, Fault> {
    Err(Fault { reason, position })
}

/// An error at a place.
pub fn failed<T>(reason: Reason, position: usize) -> (res: Result<T, DecodeError>)
    ensures
        res matches Err(e) && e@ == (Fault { reason, position: position as int }),
{
    Err(DecodeError { reason, position })
}

/// Where the octets end that can be read in front of a limit.
pub open spec fn readable(s: Seq<u8>, limit: int) -> int {
    if limit < s.len() {
        limit
    } else {
        s.len() as int
    }
}

/// A limit that no value at the beginning of the octets can reach.
pub open spec fn no_limit(s: Seq<u8>) -> int {
    s.len() as int + 0x1_0000_0000
}

/// What precedes the content of a value: its first identifier octet, the length of the content
/// unless the length octet leaves it open, and the place where the content begins.
pub struct Header {
    pub tag: u8,
    pub len: Option<int>,
    pub start: int,
}

/// The place behind the identifier octets at `i`: one, or up to four if the first announces more.
pub open spec fn identifier_end(s: Seq<u8>, i: int, limit: int) -> Result<int, Fault> {
    let r = readable(s, limit);
    if i >= r {
        fault(Reason::NoIdentifier, i)
    } else if s[i] % 32 != 31 {
        Ok(i + 1)
    } else if i + 1 >= r {
        fault(Reason::EndOfData, i + 1)
    } else if s[i + 1] < 0x80 {
        Ok(i + 2)
    } else if i + 2 >= r {
        fault(Reason::EndOfData, i + 2)
    } else if s[i + 2] < 0x80 {
        Ok(i + 3)
    } else if i + 3 >= r {
        fault(Reason::EndOfData, i + 3)
    } else if s[i + 3] < 0x80 {
        Ok(i + 4)
    } else {
        fault(Reason::LongTag, i + 4)
    }
}

/// The number that `n` octets at `i` encode, the first being the most significant.
pub open spec fn big_endian(s: Seq<u8>, i: int, n: int) -> int
    decreases n,
{
    if n <= 0 {
        0
    } else {
        big_endian(s, i, n - 1) * 256 + s[i + n - 1]
    }
}

/// The least length that takes `n` octets behind the first length octet.
pub open spec fn least_long_length(n: int) -> int {
    if n == 1 {
        0x80
    } else if n == 2 {
        0x100
    } else if n == 3 {
        0x1_0000
    } else {
        0x100_0000
    }
}

/// The length octets at `i`: the length, or `None` in its place where it is left open, and the
/// place behind them. A length stands in as few octets as possible, and in five at most.
pub open spec fn length_at(s: Seq<u8>, i: int, limit: int) -> Result<(Option<int>, int), Fault> {
    let r = readable(s, limit);
    if i >= r {
        fault(Reason::EndOfData, i)
    } else if s[i] < 0x80 {
        Ok((Some(s[i] as int), i + 1))
    } else if s[i] == 0x80 {
        Ok((None, i + 1))
    } else if s[i] <= 0x84 {
        let n = s[i] - 0x80;
        if i + 1 + n > r {
            fault(Reason::EndOfData, r)
        } else if big_endian(s, i + 1, n) < least_long_length(n) {
            fault(Reason::InvalidLength, i + 1 + n)
        } else {
            Ok((Some(big_endian(s, i + 1, n)), i + 1 + n))
        }
    } else {
        fault(Reason::LongLength, i + 1)
    }
}

/// The header at `i`.
pub open spec fn header_at(s: Seq<u8>, i: int, limit: int) -> Result<Header, Fault> {
    match identifier_end(s, i, limit) {
        Ok(j) => match length_at(s, j, limit) {
            Ok((len, start)) => Ok(Header { tag: s[i], len, start }),
            Err(f) => Err(f),
        },
        Err(f) => Err(f),
    }
}

/// Whether an identifier octet announces content that consists of values.
pub open spec fn is_constructed(tag: u8) -> bool {
    tag % 64 >= 32
}

/// An identifier octet without what it says of the kind of content.
pub open spec fn bare_tag(tag: u8) -> int {
    if is_constructed(tag) {
        tag - 32
    } else {
        tag as int
    }
}

/// What is wrong with a value whose content is of the other kind than its tag stands for.
pub open spec fn wrong_kind(tag: u8) -> Reason {
    if is_constructed(tag) {
        Reason::NotConstructed
    } else if tag == OCTET_STRING || tag == UTF8_STRING {
        Reason::ConstructedString
    } else if tag == BIT_STRING {
        Reason::ConstructedBitString
    } else {
        Reason::NotPrimitive
    }
}

/// A value: its identifier octet, and where its content begins and ends.
pub struct Value {
    pub tag: u8,
    pub start: int,
    pub end: int,
}

/// Whether identifier octets of which the first announces more can be read at `i`.
pub open spec fn long_tag_fault(s: Seq<u8>, i: int, limit: int) -> Option<Fault> {
    let r = readable(s, limit);
    if i + 1 >= r {
        Some(Fault { reason: Reason::ShortTag, position: i })
    } else if s[i + 1] < 0x80 {
        None
    } else if i + 2 >= r {
        Some(Fault { reason: Reason::ShortTag, position: i })
    } else if s[i + 2] < 0x80 {
        None
    } else if i + 3 >= r {
        Some(Fault { reason: Reason::ShortTag, position: i })
    } else if s[i + 3] < 0x80 {
        None
    } else {
        Some(Fault { reason: Reason::LongTag, position: i })
    }
}

/// The value at `i` with the identifier octet `tag`. There is none if there is no value at all, or
/// one with another tag.
#[verifier::opaque]
pub open spec fn tagged_at(s: Seq<u8>, i: int, limit: int, tag: u8) -> Result<Option<Value>, Fault> {
    if i >= readable(s, limit) {
        Ok(None)
    } else if s[i] % 32 == 31 {
        match long_tag_fault(s, i, limit) {
            Some(f) => Err(f),
            None => Ok(None),
        }
    } else if bare_tag(s[i]) != bare_tag(tag) {
        Ok(None)
    } else {
        match length_at(s, i + 1, limit) {
            Ok((Some(len), start)) => if start + len > limit {
                fault(Reason::ExcessiveLength, start)
            } else if is_constructed(s[i]) != is_constructed(tag) {
                fault(wrong_kind(tag), start)
            } else {
                Ok(Some(Value { tag, start, end: start + len }))
            },
            Ok((None, start)) => fault(Reason::OpenLength, start),
            Err(f) => Err(f),
        }
    }
}

/// The value at `i` with the identifier octet `tag`, which must be there.
pub open spec fn needed_at(s: Seq<u8>, i: int, limit: int, tag: u8) -> Result<Value, Fault> {
    match tagged_at(s, i, limit, tag) {
        Ok(Some(v)) => Ok(v),
        Ok(None) => fault(Reason::MissingValue, i),
        Err(f) => Err(f),
    }
}

/// The content octets of a value.
pub open spec fn content(s: Seq<u8>, v: Value) -> Seq<u8> {
    s.subrange(v.start, v.end)
}

/// The content octets of a primitive value, which must all be there.
pub open spec fn octets_of(s: Seq<u8>, v: Value) -> Result<Seq<u8>, Fault> {
    if v.end > s.len() {
        fault(Reason::EndOfData, v.start)
    } else {
        Ok(content(s, v))
    }
}

/// The octet string at `i`, which must be there, inside content that begins at `base`.
pub open spec fn octet_string_at(s: Seq<u8>, i: int, limit: int, base: int) -> Result<(int, Seq<u8>), Fault> {
    match tagged_at(s, i, limit, OCTET_STRING) {
        Ok(Some(v)) => match octets_of(s, v) {
            Ok(octets) => Ok((v.end, octets)),
            Err(f) => Err(f),
        },
        Ok(None) => fault(Reason::NoOctetString, base),
        Err(f) => Err(f),
    }
}

/// Whether octets are the content of an object identifier: there are some, and the last one ends a
/// number.
pub open spec fn is_object_identifier(octets: Seq<u8>) -> bool {
    octets.len() > 0 && octets.last() < 0x80
}

/// The object identifier that a value stands for.
pub open spec fn identifier_of(s: Seq<u8>, v: Value) -> Result<Seq<u8>, Fault> {
    match octets_of(s, v) {
        Ok(octets) => if octets.len() == 0 {
            fault(Reason::EmptyIdentifier, v.end)
        } else if octets.last() >= 0x80 {
            fault(Reason::IllegalIdentifier, v.end)
        } else {
            Ok(octets)
        },
        Err(f) => Err(f),
    }
}

/// The object identifier at `i`, with the place behind it.
pub open spec fn identifier_at(s: Seq<u8>, i: int, limit: int) -> Result<(int, Seq<u8>), Fault> {
    match needed_at(s, i, limit, OBJECT_IDENTIFIER) {
        Ok(v) => match identifier_of(s, v) {
            Ok(octets) => Ok((v.end, octets)),
            Err(f) => Err(f),
        },
        Err(f) => Err(f),
    }
}

/// The place behind the value at `i` whose content is looked through, however deep, for values
/// that are not well formed. Content of open length is accepted here, up to its marker. Some faults
/// are reported at `base`, where the looking began.
pub open spec fn value_end(s: Seq<u8>, i: int, limit: int, base: int) -> Result<int, Fault>
    decreases limit - i, 0int,
{
    match header_at(s, i, limit) {
        Ok(h) => match h.len {
            Some(len) => if !is_constructed(h.tag) {
                if h.tag == 0 {
                    if len == 0 {
                        fault(Reason::InvalidNesting, base)
                    } else {
                        fault(Reason::NonEmptyMarker, base)
                    }
                } else if h.start + len > readable(s, limit) {
                    fault(Reason::ShortPrimitive, base)
                } else {
                    Ok(h.start + len)
                }
            } else if h.start <= i || h.start + len > limit {
                fault(Reason::InvalidNesting, base)
            } else {
                values_fill(s, h.start, h.start + len, base)
            },
            None => if !is_constructed(h.tag) {
                if h.tag == 0 {
                    fault(Reason::NonEmptyMarker, base)
                } else {
                    fault(Reason::OpenPrimitive, base)
                }
            } else if h.start <= i || h.start > limit {
                fault(Reason::InvalidNesting, base)
            } else {
                marker_end(s, h.start, limit, base, true)
            },
        },
        Err(f) => Err(f),
    }
}

/// The limit, if the octets from `i` up to it are values, one after the other.
pub open spec fn values_fill(s: Seq<u8>, i: int, limit: int, base: int) -> Result<int, Fault>
    decreases limit - i, 1int,
{
    if i >= limit {
        Ok(i)
    } else {
        match value_end(s, i, limit, base) {
            Ok(j) => if i < j <= limit {
                values_fill(s, j, limit, base)
            } else {
                fault(Reason::InvalidNesting, base)
            },
            Err(f) => Err(f),
        }
    }
}

/// The place behind the marker that ends the values from `i` on. It must stand in front of the
/// limit; that it does not is another fault behind the first value than before it.
pub open spec fn marker_end(s: Seq<u8>, i: int, limit: int, base: int, first: bool) -> Result<int, Fault>
    decreases limit - i, 1int,
{
    if i >= limit {
        if first {
            fault(Reason::NoIdentifier, i)
        } else {
            fault(Reason::MissingMarker, base)
        }
    } else {
        match header_at(s, i, limit) {
            Ok(h) => if h.tag == 0 {
                if h.len == Some(0int) {
                    Ok(h.start)
                } else {
                    fault(Reason::NonEmptyMarker, base)
                }
            } else {
                match value_end(s, i, limit, base) {
                    Ok(j) => if i < j <= limit {
                        marker_end(s, j, limit, base, false)
                    } else {
                        fault(Reason::InvalidNesting, base)
                    },
                    Err(f) => Err(f),
                }
            },
            Err(f) => Err(f),
        }
    }
}

/// The content at `i` of a value that may be there and consists of values, with the place behind
/// it.
pub open spec fn captured_at(s: Seq<u8>, i: int, limit: int, tag: u8) -> Result<(int, Option<Seq<u8>>), Fault> {
    match tagged_at(s, i, limit, tag) {
        Ok(Some(v)) => match values_fill(s, v.start, v.end, v.start) {
            Ok(_) => Ok((v.end, Some(content(s, v)))),
            Err(f) => Err(f),
        },
        Ok(None) => Ok((i, None)),
        Err(f) => Err(f),
    }
}

/// Whether the content of a value ends at `i`.
pub open spec fn ends_at(v: Value, i: int) -> Result<(), Fault> {
    if i == v.end {
        Ok(())
    } else {
        fault(Reason::TrailingData, i)
    }
}

/// A header lies in front of its content.
pub proof fn lemma_header(s: Seq<u8>, i: int, limit: int)
    requires
        0 <= i,
    ensures
        header_at(s, i, limit) matches Ok(h) ==> i + 2 <= h.start <= readable(s, limit) && i < limit && h.tag == s[i],
        header_at(s, i, limit) matches Ok(h) ==> (h.len matches Some(len) ==> 0 <= len <= 0xffff_ffff),
{
    match identifier_end(s, i, limit) {
        Ok(j) => {
            if j < readable(s, limit) && 0x81 <= s[j] <= 0x84 {
                reveal_with_fuel(big_endian, 5);
            }
        },
        Err(_) => {},
    }
}

/// A value lies behind the place where it is read and in front of the limit.
pub proof fn lemma_tagged_bounds(s: Seq<u8>, i: int, limit: int, tag: u8)
    requires
        0 <= i,
    ensures
        tagged_at(s, i, limit, tag) matches Ok(Some(v)) ==> i < v.start <= v.end <= limit && v.start <= s.len(),
        tagged_at(s, i, limit, tag) matches Ok(Some(v)) ==> v.tag == tag,
        tagged_at(s, i, limit, tag) matches Err(f) ==> 0 <= f.position <= s.len(),
{
    reveal(tagged_at);
    if i < readable(s, limit) && i + 1 < readable(s, limit) && 0x81 <= s[i + 1] <= 0x84 {
        reveal_with_fuel(big_endian, 5);
    }
}

/// Values fill a range if the first is well formed and others fill the rest.
proof fn lemma_step(s: Seq<u8>, i: int, limit: int, base: int)
    requires
        i < limit,
    ensures
        values_fill(s, i, limit, base) == match value_end(s, i, limit, base) {
            Ok(j) => if i < j <= limit {
                values_fill(s, j, limit, base)
            } else {
                fault(Reason::InvalidNesting, base)
            },
            Err(f) => Err(f),
        },
        forall|first: bool| #[trigger]
            marker_end(s, i, limit, base, first) == match header_at(s, i, limit) {
                Ok(h) => if h.tag == 0 {
                    if h.len == Some(0int) {
                        Ok(h.start)
                    } else {
                        fault(Reason::NonEmptyMarker, base)
                    }
                } else {
                    match value_end(s, i, limit, base) {
                        Ok(j) => if i < j <= limit {
                            marker_end(s, j, limit, base, false)
                        } else {
                            fault(Reason::InvalidNesting, base)
                        },
                        Err(f) => Err(f),
                    }
                },
                Err(f) => Err(f),
            },
{
}

/// The marker of content of open length lies behind what precedes it.
proof fn lemma_marker_end(s: Seq<u8>, i: int, limit: int, base: int, first: bool)
    requires
        0 <= i,
    ensures
        marker_end(s, i, limit, base, first) matches Ok(j) ==> i < j <= limit,
    decreases limit - i,
{
    if i < limit {
        lemma_header(s, i, limit);
        lemma_step(s, i, limit, base);
        match value_end(s, i, limit, base) {
            Ok(j) => {
                if i < j <= limit {
                    lemma_marker_end(s, j, limit, base, false);
                }
            },
            Err(_) => {},
        }
    }
}

/// A header as running code has it.
struct ReadHeader {
    tag: u8,
    len: Option<usize>,
    start: usize,
}

/// Reads the number that `n` octets at `i` encode, the first being the most significant.
fn read_big_endian(data: &[u8], i: usize, n: usize) -> (res: usize)
    requires
        n <= 4,
        i + n <= data@.len(),
        i + n <= usize::MAX,
    ensures
        res == big_endian(data@, i as int, n as int),
        res <= 0xffff_ffff,
{
    let mut res: usize = 0;
    let mut k: usize = 0;
    while k < n
        invariant
            k <= n <= 4,
            i + n <= data@.len(),
            i + n <= usize::MAX,
            res == big_endian(data@, i as int, k as int),
            k == 0 ==> res == 0,
            k == 1 ==> res <= 0xff,
            k == 2 ==> res <= 0xffff,
            k == 3 ==> res <= 0xff_ffff,
            k == 4 ==> res <= 0xffff_ffff,
        decreases n - k,
    {
        res = res * 256 + data[i + k] as usize;
        k += 1;
    }
    res
}

/// Where the octets end that can be read in front of a limit.
fn readable_end(data: &[u8], limit: u128) -> (res: usize)
    ensures
        res == readable(data@, limit as int),
{
    if limit < data.len() as u128 {
        limit as usize
    } else {
        data.len()
    }
}

/// Reads the length octets at `i`.
fn read_length(data: &[u8], i: usize, limit: u128) -> (res: Result<(Option<usize>, usize), DecodeError>)
    requires
        i <= data@.len(),
    ensures
        match res {
            Ok((len, start)) => {
                &&& length_at(data@, i as int, limit as int) matches Ok((l, at))
                &&& at == start
                &&& match len {
                    Some(len) => l == Some(len as int) && len <= 0xffff_ffff,
                    None => l is None,
                }
                &&& i < start <= readable(data@, limit as int)
            },
            Err(e) => length_at(data@, i as int, limit as int) matches Err(f) && f == e@ && f.position <= data@.len(),
        },
{
    let r: usize = readable_end(data, limit);
    if i >= r {
        return failed(Reason::EndOfData, i);
    }
    let first: u8 = data[i];
    if first < 0x80 {
        return Ok((Some(first as usize), i + 1));
    }
    if first == 0x80 {
        return Ok((None, i + 1));
    }
    if first > 0x84 {
        return failed(Reason::LongLength, i + 1);
    }
    let n: usize = (first - 0x80) as usize;
    if r - i - 1 < n {
        return failed(Reason::EndOfData, r);
    }
    let len: usize = read_big_endian(data, i + 1, n);
    let least: usize = if n == 1 {
        0x80
    } else if n == 2 {
        0x100
    } else if n == 3 {
        0x1_0000
    } else {
        0x100_0000
    };
    if len < least {
        return failed(Reason::InvalidLength, i + 1 + n);
    }
    Ok((Some(len), i + 1 + n))
}

/// Reads the identifier octets at `i`. Gives the place behind them.
fn read_identifier_end(data: &[u8], i: usize, limit: u128) -> (res: Result<usize, DecodeError>)
    requires
        i <= data@.len(),
    ensures
        match res {
            Ok(j) => identifier_end(data@, i as int, limit as int) matches Ok(k) && k == j && i < j <= readable(
                data@,
                limit as int,
            ),
            Err(e) => identifier_end(data@, i as int, limit as int) matches Err(f) && f == e@ && f.position <= data@.len(),
        },
{
    let r: usize = readable_end(data, limit);
    if i >= r {
        return failed(Reason::NoIdentifier, i);
    }
    if data[i] % 32 != 31 {
        return Ok(i + 1);
    }
    if r - i <= 1 {
        return failed(Reason::EndOfData, i + 1);
    }
    if data[i + 1] < 0x80 {
        return Ok(i + 2);
    }
    if r - i <= 2 {
        return failed(Reason::EndOfData, i + 2);
    }
    if data[i + 2] < 0x80 {
        return Ok(i + 3);
    }
    if r - i <= 3 {
        return failed(Reason::EndOfData, i + 3);
    }
    if data[i + 3] < 0x80 {
        return Ok(i + 4);
    }
    failed(Reason::LongTag, i + 4)
}

/// Reads the header at `i`.
fn read_header(data: &[u8], i: usize, limit: u128) -> (res: Result<ReadHeader, DecodeError>)
    requires
        i <= data@.len(),
    ensures
        match res {
            Ok(r) => {
                &&& header_at(data@, i as int, limit as int) matches Ok(h)
                &&& r.tag == h.tag
                &&& r.start == h.start
                &&& match r.len {
                    Some(len) => h.len == Some(len as int) && len <= 0xffff_ffff,
                    None => h.len is None,
                }
                &&& i < r.start <= readable(data@, limit as int)
            },
            Err(e) => header_at(data@, i as int, limit as int) matches Err(f) && f == e@ && f.position <= data@.len(),
        },
{
    match read_identifier_end(data, i, limit) {
        Ok(j) => {
            match read_length(data, j, limit) {
                Ok((len, start)) => Ok(ReadHeader { tag: data[i], len, start }),
                Err(e) => Err(e),
            }
        },
        Err(e) => Err(e),
    }
}

/// A value as running code has it: its identifier octet, and where its content begins and ends.
#[derive(Clone, Copy, Debug)]
pub struct ReadValue {
    pub tag: u8,
    pub start: usize,
    pub end: u128,
}

impl View for ReadValue {
    type V = Value;

    open spec fn view(&self) -> Value {
        Value { tag: self.tag, start: self.start as int, end: self.end as int }
    }
}

/// What the optional value is.
pub open spec fn optional_value(v: Option<ReadValue>) -> Option<Value> {
    match v {
        Some(v) => Some(v@),
        None => None,
    }
}

/// The octets that may be there.
pub open spec fn optional_octets(octets: Option<Vec<u8>>) -> Option<Seq<u8>> {
    match octets {
        Some(octets) => Some(octets@),
        None => None,
    }
}

/// A limit that no value at the beginning of the octets can reach.
pub fn unlimited(data: &[u8]) -> (res: u128)
    ensures
        res == no_limit(data@),
{
    data.len() as u128 + 0x1_0000_0000
}

/// What is wrong with a value whose content is of the other kind than its tag stands for.
fn reason_of_kind(tag: u8) -> (res: Reason)
    ensures
        res == wrong_kind(tag),
{
    if tag % 64 >= 32 {
        Reason::NotConstructed
    } else if tag == OCTET_STRING || tag == UTF8_STRING {
        Reason::ConstructedString
    } else if tag == BIT_STRING {
        Reason::ConstructedBitString
    } else {
        Reason::NotPrimitive
    }
}

/// Whether identifier octets of which the first announces more can be read at `i`.
fn read_long_tag(data: &[u8], i: usize, limit: u128) -> (res: Result<(), DecodeError>)
    requires
        i < readable(data@, limit as int),
    ensures
        match res {
            Ok(_) => long_tag_fault(data@, i as int, limit as int) is None,
            Err(e) => long_tag_fault(data@, i as int, limit as int) matches Some(f) && f == e@,
        },
{
    let r: usize = readable_end(data, limit);
    if r - i <= 1 {
        return failed(Reason::ShortTag, i);
    }
    if data[i + 1] < 0x80 {
        return Ok(());
    }
    if r - i <= 2 {
        return failed(Reason::ShortTag, i);
    }
    if data[i + 2] < 0x80 {
        return Ok(());
    }
    if r - i <= 3 {
        return failed(Reason::ShortTag, i);
    }
    if data[i + 3] < 0x80 {
        return Ok(());
    }
    failed(Reason::LongTag, i)
}

/// Reads the value at `i`, if it has the identifier octet `tag`.
pub fn read_tagged(data: &[u8], i: usize, limit: u128, tag: u8) -> (res: Result<Option<ReadValue>, DecodeError>)
    requires
        i <= data@.len(),
        limit <= no_limit(data@),
    ensures
        match res {
            Ok(v) => {
                &&& tagged_at(data@, i as int, limit as int, tag) matches Ok(w)
                &&& w == optional_value(v)
                &&& v matches Some(v) ==> i < v.start <= v.end <= limit && v.start <= data@.len() && v.tag == tag
            },
            Err(e) => tagged_at(data@, i as int, limit as int, tag) matches Err(f) && f == e@ && f.position <= data@.len(),
        },
{
    proof {
        reveal(tagged_at);
    }
    if i >= readable_end(data, limit) {
        return Ok(None);
    }
    let found: u8 = data[i];
    if found % 32 == 31 {
        return match read_long_tag(data, i, limit) {
            Ok(_) => Ok(None),
            Err(e) => Err(e),
        };
    }
    let bare: u8 = if found % 64 >= 32 {
        found - 32
    } else {
        found
    };
    let wanted: u8 = if tag % 64 >= 32 {
        tag - 32
    } else {
        tag
    };
    if bare != wanted {
        return Ok(None);
    }
    match read_length(data, i + 1, limit) {
        Ok((Some(len), start)) => {
            let end: u128 = start as u128 + len as u128;
            if end > limit {
                failed(Reason::ExcessiveLength, start)
            } else if (found % 64 >= 32) != (tag % 64 >= 32) {
                failed(reason_of_kind(tag), start)
            } else {
                Ok(Some(ReadValue { tag, start, end }))
            }
        },
        Ok((None, start)) => failed(Reason::OpenLength, start),
        Err(e) => Err(e),
    }
}

/// Reads the value at `i` with the identifier octet `tag`, which must be there.
pub fn read_needed(data: &[u8], i: usize, limit: u128, tag: u8) -> (res: Result<ReadValue, DecodeError>)
    requires
        i <= data@.len(),
        limit <= no_limit(data@),
    ensures
        match res {
            Ok(v) => {
                &&& needed_at(data@, i as int, limit as int, tag) matches Ok(w)
                &&& w == v@
                &&& i < v.start <= v.end <= limit
                &&& v.start <= data@.len()
            },
            Err(e) => needed_at(data@, i as int, limit as int, tag) matches Err(f) && f == e@ && f.position <= data@.len(),
        },
{
    match read_tagged(data, i, limit, tag) {
        Ok(Some(v)) => Ok(v),
        Ok(None) => failed(Reason::MissingValue, i),
        Err(e) => Err(e),
    }
}

impl ReadValue {
    /// Whether the content begins within the octets that are there.
    pub open spec fn fits(self, s: Seq<u8>) -> bool {
        self.start <= s.len() && self.start <= self.end <= no_limit(s)
    }

    /// A copy of the content octets, which must all be there.
    pub fn octets(&self, data: &[u8]) -> (res: Result<Vec<u8>, DecodeError>)
        requires
            self.fits(data@),
        ensures
            match res {
                Ok(octets) => octets_of(data@, self@) matches Ok(o) && o == octets@ && self.end <= data@.len()
                    && self.end <= usize::MAX,
                Err(e) => octets_of(data@, self@) matches Err(f) && f == e@ && f.position <= data@.len(),
            },
    {
        if self.end > data.len() as u128 {
            return failed(Reason::EndOfData, self.start);
        }
        Ok(copy_bytes(data, self.start, self.end as usize))
    }

    /// The object identifier that the value stands for.
    pub fn identifier(&self, data: &[u8]) -> (res: Result<Vec<u8>, DecodeError>)
        requires
            self.fits(data@),
        ensures
            match res {
                Ok(octets) => identifier_of(data@, self@) matches Ok(o) && o == octets@ && self.end <= data@.len()
                    && self.end <= usize::MAX,
                Err(e) => identifier_of(data@, self@) matches Err(f) && f == e@ && f.position <= data@.len(),
            },
    {
        let octets: Vec<u8> = match self.octets(data) {
            Ok(octets) => octets,
            Err(e) => {
                return Err(e);
            },
        };
        let n: usize = octets.len();
        if n == 0 {
            return failed(Reason::EmptyIdentifier, self.end as usize);
        }
        if octets[n - 1] >= 0x80 {
            return failed(Reason::IllegalIdentifier, self.end as usize);
        }
        Ok(octets)
    }

    /// Checks that the content ends at `i`.
    pub fn check_end(&self, i: usize) -> (res: Result<(), DecodeError>)
        ensures
            match res {
                Ok(_) => ends_at(self@, i as int) is Ok,
                Err(e) => ends_at(self@, i as int) matches Err(f) && f == e@,
            },
    {
        if i as u128 == self.end {
            Ok(())
        } else {
            failed(Reason::TrailingData, i)
        }
    }
}

/// Reads the octet string at `i`, which must be there, inside content that begins at `base`. Gives
/// it with the place behind it.
pub fn read_octet_string(data: &[u8], i: usize, limit: u128, base: usize) -> (res: Result<
    (Vec<u8>, usize),
    DecodeError,
>)
    requires
        i <= data@.len(),
        base <= data@.len(),
        limit <= no_limit(data@),
    ensures
        match res {
            Ok((octets, next)) => {
                &&& octet_string_at(data@, i as int, limit as int, base as int) matches Ok((at, o))
                &&& o == octets@
                &&& at == next
                &&& i < next <= limit
                &&& next <= data@.len()
            },
            Err(e) => octet_string_at(data@, i as int, limit as int, base as int) matches Err(f) && f == e@
                && f.position <= data@.len(),
        },
{
    match read_tagged(data, i, limit, OCTET_STRING) {
        Ok(Some(v)) => {
            match v.octets(data) {
                Ok(octets) => Ok((octets, v.end as usize)),
                Err(e) => Err(e),
            }
        },
        Ok(None) => failed(Reason::NoOctetString, base),
        Err(e) => Err(e),
    }
}

/// Reads the object identifier at `i`. Gives it with the place behind it.
pub fn read_identifier(data: &[u8], i: usize, limit: u128) -> (res: Result<(Vec<u8>, usize), DecodeError>)
    requires
        i <= data@.len(),
        limit <= no_limit(data@),
    ensures
        match res {
            Ok((octets, next)) => {
                &&& identifier_at(data@, i as int, limit as int) matches Ok((at, o))
                &&& o == octets@
                &&& at == next
                &&& i < next <= limit
                &&& next <= data@.len()
            },
            Err(e) => identifier_at(data@, i as int, limit as int) matches Err(f) && f == e@ && f.position <= data@.len(),
        },
{
    match read_needed(data, i, limit, OBJECT_IDENTIFIER) {
        Ok(v) => {
            match v.identifier(data) {
                Ok(octets) => Ok((octets, v.end as usize)),
                Err(e) => Err(e),
            }
        },
        Err(e) => Err(e),
    }
}

/// Content that is being looked through: the limit of what it may hold, and whether a marker ends
/// it before.
struct Level {
    limit: u128,
    marker: bool,
}

/// Where values fill octets up to a limit, they end at it.
proof fn lemma_filled(s: Seq<u8>, i: int, limit: int, base: int)
    requires
        i <= limit,
    ensures
        values_fill(s, i, limit, base) matches Ok(j) ==> j == limit,
    decreases limit - i,
{
    if i < limit {
        lemma_step(s, i, limit, base);
        match value_end(s, i, limit, base) {
            Ok(j) => {
                if i < j <= limit {
                    lemma_filled(s, j, limit, base);
                }
            },
            Err(_) => {},
        }
    }
}

/// What comes of the levels that are left, from the innermost on, if the next value stands at `i`
/// and is the first of its level or not.
#[verifier::opaque]
spec fn levels_end(s: Seq<u8>, i: int, levels: Seq<Level>, base: int, first: bool) -> Result<int, Fault>
    decreases levels.len(),
{
    if levels.len() == 0 {
        Ok(i)
    } else {
        let level = levels.last();
        if level.marker {
            match marker_end(s, i, level.limit as int, base, first) {
                Ok(j) => levels_end(s, j, levels.drop_last(), base, false),
                Err(f) => Err(f),
            }
        } else {
            match values_fill(s, i, level.limit as int, base) {
                Ok(j) => levels_end(s, j, levels.drop_last(), base, false),
                Err(f) => Err(f),
            }
        }
    }
}

/// The innermost level comes first.
proof fn lemma_levels(s: Seq<u8>, i: int, outer: Seq<Level>, level: Level, base: int, first: bool)
    ensures
        levels_end(s, i, outer.push(level), base, first) == match if level.marker {
            marker_end(s, i, level.limit as int, base, first)
        } else {
            values_fill(s, i, level.limit as int, base)
        } {
            Ok(j) => levels_end(s, j, outer, base, false),
            Err(f) => Err(f),
        },
{
    reveal_with_fuel(levels_end, 2);
    assert(outer.push(level).drop_last() =~= outer);
}

/// Checks that the octets from `from` up to the limit are values, one after the other, and that all
/// that they hold is well formed.
pub fn check_values(data: &[u8], from: usize, limit: u128) -> (res: Result<(), DecodeError>)
    requires
        from <= limit,
        from <= data@.len(),
        limit <= no_limit(data@),
    ensures
        match res {
            Ok(_) => values_fill(data@, from as int, limit as int, from as int) is Ok && limit <= data@.len()
                && limit <= usize::MAX,
            Err(e) => values_fill(data@, from as int, limit as int, from as int) matches Err(f) && f == e@
                && f.position <= data@.len(),
        },
{
    let ghost base = from as int;
    let mut levels: Vec<Level> = Vec::new();
    levels.push(Level { limit, marker: false });
    let mut i: usize = from;
    let mut first: bool = false;
    proof {
        reveal_with_fuel(levels_end, 2);
        lemma_levels(data@, from as int, Seq::empty(), Level { limit, marker: false }, base, false);
        assert(levels@ =~= Seq::empty().push(Level { limit, marker: false }));
    }
    loop
        invariant
            base == from,
            from <= limit,
            from <= data@.len(),
            values_fill(data@, from as int, limit as int, base) == levels_end(
                data@,
                i as int,
                levels@,
                base,
                first,
            ),
            i <= data@.len(),
        decreases data@.len() - i, levels@.len(),
    {
        let depth: usize = levels.len();
        if depth == 0 {
            proof {
                reveal_with_fuel(levels_end, 2);
                lemma_filled(data@, from as int, limit as int, base);
            }
            return Ok(());
        }
        let ghost outer = levels@.drop_last();
        let ghost top = levels@.last();
        proof {
            assert(levels@ =~= outer.push(top));
            lemma_levels(data@, i as int, outer, top, base, first);
        }
        let inner: u128 = levels[depth - 1].limit;
        let marker: bool = levels[depth - 1].marker;
        if i as u128 >= inner {
            if !marker {
                levels.pop();
                assert(levels@ =~= outer);
                first = false;
                continue;
            }
            if first {
                return failed(Reason::NoIdentifier, i);
            }
            return failed(Reason::MissingMarker, from);
        }
        proof {
            lemma_header(data@, i as int, inner as int);
            lemma_step(data@, i as int, inner as int, base);
        }
        let h: ReadHeader = match read_header(data, i, inner) {
            Ok(h) => h,
            Err(e) => {
                return Err(e);
            },
        };
        if h.tag == 0 {
            if marker {
                match h.len {
                    Some(len) => {
                        if len == 0 {
                            i = h.start;
                            levels.pop();
                            assert(levels@ =~= outer);
                            first = false;
                            continue;
                        }
                    },
                    None => {},
                }
                return failed(Reason::NonEmptyMarker, from);
            }
            return match h.len {
                Some(len) => {
                    if len == 0 {
                        failed(Reason::InvalidNesting, from)
                    } else {
                        failed(Reason::NonEmptyMarker, from)
                    }
                },
                None => failed(Reason::NonEmptyMarker, from),
            };
        }
        match h.len {
            Some(len) => {
                if h.tag % 64 < 32 {
                    if len > readable_end(data, inner) - h.start {
                        return failed(Reason::ShortPrimitive, from);
                    }
                    i = h.start + len;
                    first = false;
                    proof {
                        lemma_levels(data@, i as int, outer, top, base, false);
                    }
                } else {
                    let end: u128 = h.start as u128 + len as u128;
                    if end > inner {
                        return failed(Reason::InvalidNesting, from);
                    }
                    let ghost before = levels@;
                    levels.push(Level { limit: end, marker: false });
                    i = h.start;
                    first = false;
                    proof {
                        lemma_levels(data@, i as int, before, levels@.last(), base, false);
                        lemma_filled(data@, i as int, end as int, base);
                        lemma_levels(data@, end as int, outer, top, base, false);
                    }
                }
            },
            None => {
                if h.tag % 64 < 32 {
                    return failed(Reason::OpenPrimitive, from);
                }
                proof {
                    lemma_marker_end(data@, h.start as int, inner as int, base, true);
                }
                let ghost before = levels@;
                levels.push(Level { limit: inner, marker: true });
                i = h.start;
                first = true;
                proof {
                    lemma_levels(data@, i as int, before, levels@.last(), base, true);
                    match marker_end(data@, i as int, inner as int, base, true) {
                        Ok(j) => {
                            lemma_levels(data@, j, outer, top, base, false);
                        },
                        Err(_) => {},
                    }
                }
            },
        }
    }
}

/// Reads what may stand at `i`: a value with the identifier octet `tag` that consists of values.
/// Gives its content, and the place behind it.
pub fn read_captured(data: &[u8], i: usize, limit: u128, tag: u8) -> (res: Result<
    (Option<Vec<u8>>, usize),
    DecodeError,
>)
    requires
        i <= limit,
        i <= data@.len(),
        limit <= no_limit(data@),
    ensures
        match res {
            Ok((octets, next)) => {
                &&& captured_at(data@, i as int, limit as int, tag) matches Ok((at, o))
                &&& o == optional_octets(octets)
                &&& at == next
                &&& i <= next <= limit
                &&& next <= data@.len()
            },
            Err(e) => captured_at(data@, i as int, limit as int, tag) matches Err(f) && f == e@ && f.position
                <= data@.len(),
        },
{
    match read_tagged(data, i, limit, tag) {
        Ok(Some(v)) => {
            match check_values(data, v.start, v.end) {
                Ok(_) => Ok((Some(copy_bytes(data, v.start, v.end as usize)), v.end as usize)),
                Err(e) => Err(e),
            }
        },
        Ok(None) => Ok((None, i)),
        Err(e) => Err(e),
    }
}

/// The length octets for content of `n` octets.
pub open spec fn length_octets(n: int) -> Seq<u8> {
    if n < 0x80 {
        seq![n as u8]
    } else if n < 0x100 {
        seq![0x81u8, n as u8]
    } else if n < 0x1_0000 {
        seq![0x82u8, (n / 0x100) as u8, (n % 0x100) as u8]
    } else if n < 0x100_0000 {
        seq![0x83u8, (n / 0x1_0000) as u8, (n / 0x100 % 0x100) as u8, (n % 0x100) as u8]
    } else {
        seq![
            0x84u8,
            (n / 0x100_0000) as u8,
            (n / 0x1_0000 % 0x100) as u8,
            (n / 0x100 % 0x100) as u8,
            (n % 0x100) as u8,
        ]
    }
}

/// The octets of a value with the identifier octet `tag`.
pub open spec fn written(tag: u8, content: Seq<u8>) -> Seq<u8> {
    seq![tag] + length_octets(content.len() as int) + content
}

/// Content that a value can have: its length fits into the length octets.
pub open spec fn is_writable(content: Seq<u8>) -> bool {
    content.len() <= 0xffff_ffff
}

/// Appends the octets of a value.
pub fn write_value(out: &mut Vec<u8>, tag: u8, content: &[u8])
    requires
        is_writable(content@),
    ensures
        final(out)@ == old(out)@ + written(tag, content@),
{
    let n: usize = content.len();
    out.push(tag);
    if n < 0x80 {
        out.push(n as u8);
    } else if n < 0x100 {
        out.push(0x81);
        out.push(n as u8);
    } else if n < 0x1_0000 {
        out.push(0x82);
        out.push((n / 0x100) as u8);
        out.push((n % 0x100) as u8);
    } else if n < 0x100_0000 {
        out.push(0x83);
        out.push((n / 0x1_0000) as u8);
        out.push((n / 0x100 % 0x100) as u8);
        out.push((n % 0x100) as u8);
    } else {
        out.push(0x84);
        out.push((n / 0x100_0000) as u8);
        out.push((n / 0x1_0000 % 0x100) as u8);
        out.push((n / 0x100 % 0x100) as u8);
        out.push((n % 0x100) as u8);
    }
    assert(out@ =~= old(out)@ + (seq![tag] + length_octets(n as int)));
    write_octets(out, content);
    assert(out@ =~= old(out)@ + written(tag, content@));
}

/// Appends octets.
pub fn write_octets(out: &mut Vec<u8>, octets: &[u8])
    ensures
        final(out)@ == old(out)@ + octets@,
{
    let mut i: usize = 0;
    assert(octets@.take(0) =~= Seq::empty());
    while i < octets.len()
        invariant
            i <= octets@.len(),
            out@ == old(out)@ + octets@.take(i as int),
        decreases octets@.len() - i,
    {
        out.push(octets[i]);
        i += 1;
        assert(octets@.take(i as int) =~= octets@.take(i - 1).push(octets@[i - 1]));
    }
    assert(octets@.take(i as int) =~= octets@);
}

/// Whether the octets at `i` are those of `part`.
pub open spec fn holds_at(s: Seq<u8>, i: int, part: Seq<u8>) -> bool {
    0 <= i && i + part.len() <= s.len() && s.subrange(i, i + part.len()) == part
}

/// What is held at a place is held part by part.
pub proof fn lemma_holds_parts(s: Seq<u8>, i: int, first: Seq<u8>, rest: Seq<u8>)
    requires
        holds_at(s, i, first + rest),
    ensures
        holds_at(s, i, first),
        holds_at(s, i + first.len(), rest),
{
    let whole = first + rest;
    assert(s.subrange(i, i + first.len()) =~= first) by {
        assert forall|k: int| 0 <= k < first.len() implies s[i + k] == first[k] by {
            assert(s.subrange(i, i + whole.len())[k] == whole[k]);
        }
    }
    assert(s.subrange(i + first.len(), i + first.len() + rest.len()) =~= rest) by {
        assert forall|k: int| 0 <= k < rest.len() implies s[i + first.len() + k] == rest[k] by {
            assert(s.subrange(i, i + whole.len())[first.len() + k] == whole[first.len() + k]);
        }
    }
}

/// Length octets give back the length that they were written for, whatever follows them.
proof fn lemma_length_octets(s: Seq<u8>, i: int, limit: int, n: int)
    requires
        0 <= n <= 0xffff_ffff,
        holds_at(s, i, length_octets(n)),
        i + length_octets(n).len() <= limit,
    ensures
        length_at(s, i, limit) == Ok::<(Option<int>, int), Fault>((Some(n), i + length_octets(n).len())),
{
    let w = length_octets(n);
    assert forall|k: int| 0 <= k < w.len() implies #[trigger] s[i + k] == w[k] by {
        assert(s.subrange(i, i + w.len())[k] == w[k]);
    }
    assert(s[i + 0] == w[0]);
    reveal_with_fuel(big_endian, 5);
    if n < 0x80 {
    } else if n < 0x100 {
        assert(s[i + 1] == n as u8);
    } else if n < 0x1_0000 {
        assert(s[i + 1] == (n / 0x100) as u8);
        assert(s[i + 2] == (n % 0x100) as u8);
        assert(big_endian(s, i + 1, 2) == n);
    } else if n < 0x100_0000 {
        assert(s[i + 1] == (n / 0x1_0000) as u8);
        assert(s[i + 2] == (n / 0x100 % 0x100) as u8);
        assert(s[i + 3] == (n % 0x100) as u8);
        assert(big_endian(s, i + 1, 3) == n);
    } else {
        assert(s[i + 1] == (n / 0x100_0000) as u8);
        assert(s[i + 2] == (n / 0x1_0000 % 0x100) as u8);
        assert(s[i + 3] == (n / 0x100 % 0x100) as u8);
        assert(s[i + 4] == (n % 0x100) as u8);
        assert(big_endian(s, i + 1, 4) == n);
    }
}

/// A value that was written is read back with the content that it was written with, whatever stands
/// before it and behind it, and nothing is read there under another tag.
pub proof fn written_is_read_back(s: Seq<u8>, i: int, limit: int, tag: u8, content: Seq<u8>)
    requires
        tag % 32 != 31,
        is_writable(content),
        holds_at(s, i, written(tag, content)),
        i + written(tag, content).len() <= limit,
    ensures
        tagged_at(s, i, limit, tag) matches Ok(Some(v)) && v.tag == tag && v.end == i + written(tag, content).len()
            && v.end == v.start + content.len() && s.subrange(v.start, v.end) == content && i < v.start && holds_at(
            s,
            v.start,
            content,
        ),
        forall|other: u8|
            bare_tag(other) != bare_tag(tag) ==> #[trigger] tagged_at(s, i, limit, other) == Ok::<Option<Value>, Fault>(
                None,
            ),
{
    reveal(tagged_at);
    let n = content.len() as int;
    let octets = length_octets(n);
    assert(written(tag, content) =~= seq![tag] + (octets + content));
    lemma_holds_parts(s, i, seq![tag], octets + content);
    assert(s.subrange(i, i + 1)[0] == tag);
    lemma_holds_parts(s, i + 1, octets, content);
    lemma_length_octets(s, i + 1, limit, n);
}

/// Of all octets only those that `written` gives are read as a value with that identifier octet
/// and that content: a value is encoded in one way.
pub proof fn read_is_written(s: Seq<u8>, i: int, limit: int, tag: u8)
    requires
        0 <= i,
    ensures
        tagged_at(s, i, limit, tag) matches Ok(Some(v)) ==> v.end <= s.len() ==> holds_at(
            s,
            i,
            written(tag, content(s, v)),
        ) && v.end == i + written(tag, content(s, v)).len(),
{
    reveal(tagged_at);
    lemma_tagged_bounds(s, i, limit, tag);
    match tagged_at(s, i, limit, tag) {
        Ok(Some(v)) => {
            if v.end <= s.len() {
                let octets = content(s, v);
                let n = v.end - v.start;
                reveal_with_fuel(big_endian, 5);
                assert(s[i] == tag);
                assert(length_octets(n) =~= s.subrange(i + 1, v.start));
                assert(s.subrange(i, v.end) =~= written(tag, octets));
            }
        },
        _ => {},
    }
}

/// Whether the octets of `t` from `lo` up to `hi` stand in `s` too, `d` places further on.
pub open spec fn same_at(s: Seq<u8>, t: Seq<u8>, d: int, lo: int, hi: int) -> bool {
    forall|k: int| lo <= k < hi ==> #[trigger] t[k] == s[k + d]
}

/// A fault `d` places further on.
pub open spec fn further_fault(f: Fault, d: int) -> Fault {
    Fault { reason: f.reason, position: f.position + d }
}

/// A place, or a fault, `d` places further on.
pub open spec fn further(place: Result<int, Fault>, d: int) -> Result<int, Fault> {
    match place {
        Ok(j) => Ok(j + d),
        Err(f) => Err(further_fault(f, d)),
    }
}

proof fn lemma_same_number(s: Seq<u8>, t: Seq<u8>, d: int, i: int, n: int)
    requires
        same_at(s, t, d, i, i + n),
    ensures
        big_endian(s, i + d, n) == big_endian(t, i, n),
    decreases n,
{
    if n > 0 {
        lemma_same_number(s, t, d, i, n - 1);
        assert(t[i + n - 1] == s[i + n - 1 + d]);
        assert(i + d + n - 1 == i + n - 1 + d);
    }
}

/// Length octets are read from themselves alone.
proof fn lemma_same_length(s: Seq<u8>, t: Seq<u8>, d: int, i: int, limit: int)
    requires
        same_at(s, t, d, i, limit),
        limit <= t.len(),
        limit + d <= s.len(),
    ensures
        match length_at(t, i, limit) {
            Ok((len, start)) => length_at(s, i + d, limit + d) == Ok::<(Option<int>, int), Fault>((len, start + d)),
            Err(f) => length_at(s, i + d, limit + d) == Err::<(Option<int>, int), Fault>(further_fault(f, d)),
        },
{
    if i < limit {
        assert(t[i] == s[i + d]);
        if 0x81 <= t[i] <= 0x84 {
            let m = t[i] - 0x80;
            if i + 1 + m <= limit {
                assert(same_at(s, t, d, i + 1, i + 1 + m));
                lemma_same_number(s, t, d, i + 1, m);
                assert(i + d + 1 == i + 1 + d);
            }
        }
    }
}

/// The octets behind the first of an identifier are the same.
proof fn lemma_same_few(s: Seq<u8>, t: Seq<u8>, d: int, i: int, limit: int)
    requires
        same_at(s, t, d, i, limit),
    ensures
        i < limit ==> t[i] == s[i + d],
        i + 1 < limit ==> t[i + 1] == s[i + d + 1],
        i + 2 < limit ==> t[i + 2] == s[i + d + 2],
        i + 3 < limit ==> t[i + 3] == s[i + d + 3],
{
    assert(i + 1 + d == i + d + 1 && i + 2 + d == i + d + 2 && i + 3 + d == i + d + 3);
    assert(i < limit ==> t[i] == s[i + d]);
    assert(i + 1 < limit ==> t[i + 1] == s[i + 1 + d]);
    assert(i + 2 < limit ==> t[i + 2] == s[i + 2 + d]);
    assert(i + 3 < limit ==> t[i + 3] == s[i + 3 + d]);
}

/// A header is read from its own octets alone.
proof fn lemma_same_header(s: Seq<u8>, t: Seq<u8>, d: int, i: int, limit: int)
    requires
        same_at(s, t, d, i, limit),
        limit <= t.len(),
        limit + d <= s.len(),
    ensures
        match header_at(t, i, limit) {
            Ok(h) => header_at(s, i + d, limit + d) == Ok::<Header, Fault>(Header { start: h.start + d, ..h }),
            Err(f) => header_at(s, i + d, limit + d) == Err::<Header, Fault>(further_fault(f, d)),
        },
{
    lemma_same_few(s, t, d, i, limit);
    assert(identifier_end(s, i + d, limit + d) == further(identifier_end(t, i, limit), d));
    match identifier_end(t, i, limit) {
        Ok(j) => {
            assert(same_at(s, t, d, j, limit));
            lemma_same_length(s, t, d, j, limit);
        },
        Err(_) => {},
    }
}

/// A value is read from its own octets alone, wherever they stand.
pub proof fn lemma_same_tagged(s: Seq<u8>, t: Seq<u8>, d: int, i: int, limit: int, tag: u8)
    requires
        same_at(s, t, d, i, limit),
        limit <= t.len(),
        limit + d <= s.len(),
    ensures
        match tagged_at(t, i, limit, tag) {
            Ok(Some(v)) => tagged_at(s, i + d, limit + d, tag) == Ok::<Option<Value>, Fault>(
                Some(Value { start: v.start + d, end: v.end + d, ..v }),
            ),
            Ok(None) => tagged_at(s, i + d, limit + d, tag) == Ok::<Option<Value>, Fault>(None),
            Err(f) => tagged_at(s, i + d, limit + d, tag) == Err::<Option<Value>, Fault>(further_fault(f, d)),
        },
{
    reveal(tagged_at);
    lemma_same_few(s, t, d, i, limit);
    if i < limit {
        assert(same_at(s, t, d, i + 1, limit));
        lemma_same_length(s, t, d, i + 1, limit);
        assert(i + d + 1 == i + 1 + d);
    }
}

proof fn lemma_same_end(s: Seq<u8>, t: Seq<u8>, d: int, i: int, limit: int, base: int)
    requires
        same_at(s, t, d, i, limit),
        limit <= t.len(),
        limit + d <= s.len(),
    ensures
        value_end(s, i + d, limit + d, base + d) == further(value_end(t, i, limit, base), d),
    decreases limit - i, 0int,
{
    lemma_same_header(s, t, d, i, limit);
    match header_at(t, i, limit) {
        Ok(h) => {
            match h.len {
                Some(len) => {
                    if h.start > i && h.start + len <= limit && is_constructed(h.tag) {
                        lemma_same_fill(s, t, d, h.start, h.start + len, base);
                    }
                    assert(h.start + d + len == h.start + len + d);
                },
                None => {
                    if h.start > i && h.start <= limit && is_constructed(h.tag) {
                        lemma_same_marker(s, t, d, h.start, limit, base, true);
                    }
                },
            }
        },
        Err(_) => {},
    }
}

/// Whether octets are values depends on them alone, and not on where they stand.
pub proof fn lemma_same_fill(s: Seq<u8>, t: Seq<u8>, d: int, i: int, limit: int, base: int)
    requires
        same_at(s, t, d, i, limit),
        limit <= t.len(),
        limit + d <= s.len(),
    ensures
        values_fill(s, i + d, limit + d, base + d) == further(values_fill(t, i, limit, base), d),
    decreases limit - i, 1int,
{
    if i < limit {
        lemma_step(s, i + d, limit + d, base + d);
        lemma_step(t, i, limit, base);
        lemma_same_end(s, t, d, i, limit, base);
        match value_end(t, i, limit, base) {
            Ok(j) => {
                if i < j <= limit {
                    lemma_same_fill(s, t, d, j, limit, base);
                }
            },
            Err(_) => {},
        }
    }
}

proof fn lemma_same_marker(s: Seq<u8>, t: Seq<u8>, d: int, i: int, limit: int, base: int, first: bool)
    requires
        same_at(s, t, d, i, limit),
        limit <= t.len(),
        limit + d <= s.len(),
    ensures
        marker_end(s, i + d, limit + d, base + d, first) == further(marker_end(t, i, limit, base, first), d),
    decreases limit - i, 1int,
{
    if i < limit {
        lemma_same_header(s, t, d, i, limit);
        lemma_step(s, i + d, limit + d, base + d);
        lemma_step(t, i, limit, base);
        lemma_same_end(s, t, d, i, limit, base);
        match value_end(t, i, limit, base) {
            Ok(j) => {
                if i < j <= limit {
                    lemma_same_marker(s, t, d, j, limit, base, false);
                }
            },
            Err(_) => {},
        }
    }
}

/// Nothing is read at the limit.
pub proof fn lemma_nothing_at_limit(s: Seq<u8>, limit: int)
    ensures
        forall|tag: u8| #[trigger] tagged_at(s, limit, limit, tag) == Ok::<Option<Value>, Fault>(None),
{
    reveal(tagged_at);
}

/// What is read in front of a limit depends on the octets in front of it alone.
pub proof fn lemma_same_start(s: Seq<u8>, t: Seq<u8>, limit: int)
    requires
        0 <= limit <= s.len(),
        limit <= t.len(),
        s.take(limit) == t.take(limit),
    ensures
        forall|i: int, l: int, tag: u8|
            0 <= i && l <= limit ==> #[trigger] tagged_at(s, i, l, tag) == tagged_at(t, i, l, tag) && (tagged_at(
                s,
                i,
                l,
                tag,
            ) matches Ok(Some(v)) ==> i < v.start <= v.end <= l),
        forall|i: int, l: int, base: int|
            0 <= i && l <= limit ==> #[trigger] values_fill(s, i, l, base) == values_fill(t, i, l, base),
        forall|v: Value| 0 <= v.start <= v.end <= limit ==> #[trigger] content(s, v) == content(t, v),
        forall|i: int| 0 <= i < limit ==> #[trigger] s[i] == t[i],
{
    assert forall|k: int| 0 <= k < limit implies #[trigger] s[k] == t[k] by {
        assert(s.take(limit)[k] == s[k]);
        assert(t.take(limit)[k] == t[k]);
    }
    assert forall|i: int, l: int, tag: u8| 0 <= i && l <= limit implies #[trigger] tagged_at(s, i, l, tag) == tagged_at(
        t,
        i,
        l,
        tag,
    ) && (tagged_at(s, i, l, tag) matches Ok(Some(v)) ==> i < v.start <= v.end <= l) by {
        assert(same_at(s, t, 0, i, l));
        lemma_same_tagged(s, t, 0, i, l, tag);
        lemma_tagged_bounds(s, i, l, tag);
    }
    assert forall|i: int, l: int, base: int| 0 <= i && l <= limit implies #[trigger] values_fill(s, i, l, base)
        == values_fill(t, i, l, base) by {
        assert(same_at(s, t, 0, i, l));
        lemma_same_fill(s, t, 0, i, l, base);
    }
    assert forall|v: Value| 0 <= v.start <= v.end <= limit implies #[trigger] content(s, v) == content(t, v) by {
        assert(content(s, v) =~= content(t, v));
    }
}

/// Whether the value at the beginning of octets is all there.
pub open spec fn first_is_whole(s: Seq<u8>, tag: u8) -> bool {
    tagged_at(s, 0, no_limit(s), tag) matches Ok(Some(v)) && v.end <= s.len()
}

/// The value at the beginning is read in the same way whatever is appended.
pub proof fn first_value_ignores_rest(s: Seq<u8>, rest: Seq<u8>, tag: u8)
    requires
        first_is_whole(s, tag),
    ensures
        tagged_at(s + rest, 0, no_limit(s + rest), tag) == tagged_at(s, 0, no_limit(s), tag),
{
    reveal(tagged_at);
    let t = s + rest;
    let n = s.len() as int;
    assert(same_at(t, s, 0, 0, n));
    assert(same_at(t, s, 0, 1, n));
    lemma_same_length(t, s, 0, 1, n);
    assert(t[0] == s[0]);
    assert(length_at(s, 1, no_limit(s)) == length_at(s, 1, n));
    assert(length_at(t, 1, no_limit(t)) == length_at(t, 1, n));
}

/// The digits of a number to the base 256, the most significant first.
pub open spec fn base_256(n: int) -> Seq<u8>
    decreases n,
{
    if n < 0x100 {
        seq![n as u8]
    } else {
        base_256(n / 0x100).push((n % 0x100) as u8)
    }
}

/// A value is written as its identifier octet, its length and its content. A length below 0x80 is
/// one octet. Any other is the number of its digits to the base 256, with the highest bit set, and
/// then the digits.
#[verifier::spinoff_prover]
#[verifier::rlimit(60)]
pub proof fn written_form(tag: u8, content: Seq<u8>)
    requires
        content.len() <= 0xffff_ffff,
    ensures
        content.len() < 0x80 ==> written(tag, content) == seq![tag, content.len() as u8] + content,
        content.len() >= 0x80 ==> written(tag, content) == seq![tag, (0x80 + base_256(content.len() as int).len()) as u8]
            + base_256(content.len() as int) + content,
{
    let n = content.len() as int;
    reveal_with_fuel(base_256, 5);
    if n < 0x80 {
        assert(written(tag, content) =~= seq![tag, n as u8] + content);
    } else {
        let digits = base_256(n);
        assert(n / 0x100 / 0x100 == n / 0x1_0000);
        assert(n / 0x1_0000 / 0x100 == n / 0x100_0000);
        assert(length_octets(n) =~= seq![(0x80 + digits.len()) as u8] + digits);
        assert(written(tag, content) =~= seq![tag, (0x80 + digits.len()) as u8] + digits + content);
    }
}

/// Whether octets are values does not depend on where faults are reported.
proof fn lemma_base_end(s: Seq<u8>, i: int, limit: int, a: int, b: int)
    ensures
        value_end(s, i, limit, a) is Ok == value_end(s, i, limit, b) is Ok,
        value_end(s, i, limit, a) matches Ok(j) ==> value_end(s, i, limit, b) == Ok::<int, Fault>(j),
    decreases limit - i, 0int,
{
    match header_at(s, i, limit) {
        Ok(h) => {
            match h.len {
                Some(len) => {
                    if h.start > i && h.start + len <= limit && is_constructed(h.tag) {
                        lemma_base_fill(s, h.start, h.start + len, a, b);
                    }
                },
                None => {
                    if h.start > i && h.start <= limit && is_constructed(h.tag) {
                        lemma_base_marker(s, h.start, limit, a, b, true);
                    }
                },
            }
        },
        Err(_) => {},
    }
}

proof fn lemma_base_fill(s: Seq<u8>, i: int, limit: int, a: int, b: int)
    ensures
        values_fill(s, i, limit, a) is Ok == values_fill(s, i, limit, b) is Ok,
        values_fill(s, i, limit, a) matches Ok(j) ==> values_fill(s, i, limit, b) == Ok::<int, Fault>(j),
    decreases limit - i, 1int,
{
    if i < limit {
        lemma_step(s, i, limit, a);
        lemma_step(s, i, limit, b);
        lemma_base_end(s, i, limit, a, b);
        match value_end(s, i, limit, a) {
            Ok(j) => {
                if i < j <= limit {
                    lemma_base_fill(s, j, limit, a, b);
                }
            },
            Err(_) => {},
        }
    }
}

proof fn lemma_base_marker(s: Seq<u8>, i: int, limit: int, a: int, b: int, first: bool)
    ensures
        marker_end(s, i, limit, a, first) is Ok == marker_end(s, i, limit, b, first) is Ok,
        marker_end(s, i, limit, a, first) matches Ok(j) ==> marker_end(s, i, limit, b, first) == Ok::<int, Fault>(j),
    decreases limit - i, 1int,
{
    if i < limit {
        lemma_step(s, i, limit, a);
        lemma_step(s, i, limit, b);
        lemma_base_end(s, i, limit, a, b);
        match value_end(s, i, limit, a) {
            Ok(j) => {
                if i < j <= limit {
                    lemma_base_marker(s, j, limit, a, b, false);
                }
            },
            Err(_) => {},
        }
    }
}

/// What is read in front of a limit is read in front of a later one too.
proof fn lemma_longer_header(s: Seq<u8>, i: int, limit: int, longer: int)
    requires
        limit <= longer,
        limit <= s.len(),
    ensures
        header_at(s, i, limit) is Ok ==> header_at(s, i, longer) == header_at(s, i, limit),
{
}

proof fn lemma_longer_end(s: Seq<u8>, i: int, limit: int, longer: int, base: int)
    requires
        limit <= longer,
        limit <= s.len(),
    ensures
        value_end(s, i, limit, base) is Ok ==> value_end(s, i, longer, base) == value_end(s, i, limit, base),
    decreases limit - i, 0int,
{
    lemma_longer_header(s, i, limit, longer);
    match header_at(s, i, limit) {
        Ok(h) => {
            if h.len is None && h.start > i && h.start <= limit && is_constructed(h.tag) {
                lemma_longer_marker(s, h.start, limit, longer, base, true);
            }
        },
        Err(_) => {},
    }
}

proof fn lemma_longer_marker(s: Seq<u8>, i: int, limit: int, longer: int, base: int, first: bool)
    requires
        limit <= longer,
        limit <= s.len(),
    ensures
        marker_end(s, i, limit, base, first) is Ok ==> marker_end(s, i, longer, base, first) == marker_end(
            s,
            i,
            limit,
            base,
            first,
        ),
    decreases limit - i, 1int,
{
    if i < limit {
        lemma_step(s, i, limit, base);
        lemma_step(s, i, longer, base);
        lemma_longer_header(s, i, limit, longer);
        lemma_longer_end(s, i, limit, longer, base);
        match value_end(s, i, limit, base) {
            Ok(j) => {
                if i < j <= limit {
                    lemma_longer_marker(s, j, limit, longer, base, false);
                }
            },
            Err(_) => {},
        }
    }
}

/// Behind values it is what follows that decides.
proof fn lemma_fill_goes_on(s: Seq<u8>, i: int, limit: int, longer: int, base: int)
    requires
        i <= limit <= longer,
        limit <= s.len(),
        values_fill(s, i, limit, base) is Ok,
    ensures
        values_fill(s, i, longer, base) == values_fill(s, limit, longer, base),
    decreases limit - i,
{
    if i < limit {
        lemma_step(s, i, limit, base);
        lemma_step(s, i, longer, base);
        lemma_longer_end(s, i, limit, longer, base);
        match value_end(s, i, limit, base) {
            Ok(j) => {
                if i < j <= limit {
                    lemma_fill_goes_on(s, j, limit, longer, base);
                }
            },
            Err(_) => {},
        }
    }
}

/// Whether octets are values, one after the other.
pub open spec fn are_values(octets: Seq<u8>) -> bool {
    values_fill(octets, 0, octets.len() as int, 0) is Ok
}

/// Values that were found are all there.
proof fn lemma_there_end(s: Seq<u8>, i: int, limit: int, base: int)
    requires
        0 <= i,
    ensures
        value_end(s, i, limit, base) matches Ok(j) ==> j <= s.len(),
    decreases limit - i, 0int,
{
    lemma_header(s, i, limit);
    match header_at(s, i, limit) {
        Ok(h) => {
            match h.len {
                Some(len) => {
                    if h.start > i && h.start + len <= limit && is_constructed(h.tag) {
                        lemma_there_fill(s, h.start, h.start + len, base);
                        lemma_filled(s, h.start, h.start + len, base);
                    }
                },
                None => {
                    if h.start > i && h.start <= limit && is_constructed(h.tag) {
                        lemma_there_marker(s, h.start, limit, base, true);
                    }
                },
            }
        },
        Err(_) => {},
    }
}

/// Octets that are values are all there.
pub proof fn lemma_there_fill(s: Seq<u8>, i: int, limit: int, base: int)
    requires
        0 <= i <= s.len(),
        i <= limit,
    ensures
        values_fill(s, i, limit, base) is Ok ==> limit <= s.len(),
    decreases limit - i, 1int,
{
    if i < limit {
        lemma_step(s, i, limit, base);
        lemma_there_end(s, i, limit, base);
        match value_end(s, i, limit, base) {
            Ok(j) => {
                if i < j <= limit {
                    lemma_there_fill(s, j, limit, base);
                }
            },
            Err(_) => {},
        }
    }
}

proof fn lemma_there_marker(s: Seq<u8>, i: int, limit: int, base: int, first: bool)
    requires
        0 <= i,
    ensures
        marker_end(s, i, limit, base, first) matches Ok(j) ==> j <= s.len(),
    decreases limit - i, 1int,
{
    if i < limit {
        lemma_step(s, i, limit, base);
        lemma_header(s, i, limit);
        match value_end(s, i, limit, base) {
            Ok(j) => {
                if i < j <= limit {
                    lemma_there_marker(s, j, limit, base, false);
                }
            },
            Err(_) => {},
        }
    }
}

/// Octets are values wherever they are held and wherever faults would be reported.
pub proof fn lemma_values_held(s: Seq<u8>, i: int, octets: Seq<u8>, base: int)
    requires
        holds_at(s, i, octets),
    ensures
        values_fill(s, i, i + octets.len(), base) is Ok == are_values(octets),
{
    let n = octets.len() as int;
    assert forall|k: int| 0 <= k < n implies #[trigger] octets[k] == s[k + i] by {
        assert(s.subrange(i, i + n)[k] == octets[k]);
    }
    lemma_same_fill(s, octets, i, 0, n, base - i);
    lemma_base_fill(octets, 0, n, base - i, 0);
}

/// Values behind values are values, and what stands behind values is values only if it is so alone.
pub proof fn values_in_a_row(a: Seq<u8>, b: Seq<u8>)
    requires
        are_values(a),
    ensures
        are_values(a + b) == are_values(b),
        are_values(Seq::empty()),
{
    let s = a + b;
    let n = a.len() as int;
    assert(s.subrange(0, n) =~= a);
    assert(s.subrange(n, n + b.len()) =~= b);
    lemma_values_held(s, 0, a, 0);
    lemma_values_held(s, n, b, 0);
    lemma_fill_goes_on(s, 0, n, s.len() as int, 0);
}

/// A value with a primitive tag is a value whatever its content is, and one with a constructed tag
/// is one exactly if its content consists of values.
#[verifier::spinoff_prover]
#[verifier::rlimit(60)]
pub proof fn written_is_value(tag: u8, content: Seq<u8>)
    requires
        tag % 32 != 31,
        tag != 0,
        content.len() <= 0xffff_ffff,
    ensures
        tag % 64 < 32 ==> are_values(written(tag, content)),
        tag % 64 >= 32 ==> are_values(written(tag, content)) == are_values(content),
{
    let s = written(tag, content);
    let n = content.len() as int;
    let octets = length_octets(n);
    let end = s.len() as int;
    let start = 1 + octets.len() as int;
    assert(s.subrange(1, start) =~= octets);
    assert(s.subrange(start, end) =~= content);
    lemma_length_octets(s, 1, end, n);
    assert(s[0] == tag);
    assert(header_at(s, 0, end) == Ok::<Header, Fault>(Header { tag, len: Some(n), start }));
    lemma_step(s, 0, end, 0);
    lemma_values_held(s, start, content, 0);
    lemma_filled(s, start, end, 0);
    assert(values_fill(s, end, end, 0) == Ok::<int, Fault>(end));
}

/// The number of octets of a value with content of `n` octets.
pub open spec fn written_len(n: int) -> int {
    1 + length_octets(n).len() + n
}

/// Computes the number of octets of a value with content of `n` octets.
pub(crate) fn len_of_value(n: u128) -> (res: u128)
    requires
        n < 0x1000_0000_0000_0000_0000_0000,
    ensures
        res == written_len(n as int),
        res <= n + 6,
{
    if n < 0x80 {
        n + 2
    } else if n < 0x100 {
        n + 3
    } else if n < 0x1_0000 {
        n + 4
    } else if n < 0x100_0000 {
        n + 5
    } else {
        n + 6
    }
}

} // verus!
