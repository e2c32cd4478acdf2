use byteorder::{ByteOrder, LittleEndian};
use vstd::prelude::*;
use vstd::slice::slice_to_vec;
use vstd::utf8::{decode_utf8, encode_utf8, valid_utf8};

use crate::error::CodecError;

verus! {

broadcast use vstd::utf8::encode_utf8_valid_utf8, vstd::utf8::encode_utf8_decode_utf8;

/// A value with a compact, length-implicit byte form.
///
/// `fixed_bytes` is the form `encode_fixed` writes; `fixed_decodes(b, r)` says
/// that `r` is what `decode_fixed` returns on `b`.
pub trait FixedCodec: Sized + View {
    spec fn fixed_bytes(&self) -> Seq<u8>;

    spec fn fixed_decodes(b: Seq<u8>, r: Result<Self, CodecError>) -> bool;

    /// Values whose form fits the machine's limits.
    spec fn fixed_encodable(&self) -> bool;

    fn encode_fixed(&self) -> (r: Vec<u8>)
        requires
            self.fixed_encodable(),
        ensures
            r@ == self.fixed_bytes(),
    ;

    fn decode_fixed(b: &[u8]) -> (r: Result<Self, CodecError>)
        ensures
            Self::fixed_decodes(b@, r),
    ;

    /// Equal values have the same fixed form.
    proof fn lemma_fixed_deterministic(a: Self, b: Self)
        requires
            a@ == b@,
        ensures
            a.fixed_bytes() == b.fixed_bytes(),
    ;

    /// Decoding the fixed form of a value gives back a value equal to it.
    proof fn lemma_fixed_round_trip(v: Self)
        requires
            v.fixed_encodable(),
        ensures
            forall|r: Result<Self, CodecError>|
                Self::fixed_decodes(v.fixed_bytes(), r) ==> (r matches Ok(w) && w@ == v@),
    ;
}

/// The four bytes of `v`, least significant first.
pub open spec fn le_bytes_u32(v: u32) -> Seq<u8> {
    seq![v as u8, (v >> 8u32) as u8, (v >> 16u32) as u8, (v >> 24u32) as u8]
}

/// The eight bytes of `v`, least significant first.
pub open spec fn le_bytes_u64(v: u64) -> Seq<u8> {
    seq![
        v as u8,
        (v >> 8u64) as u8,
        (v >> 16u64) as u8,
        (v >> 24u64) as u8,
        (v >> 32u64) as u8,
        (v >> 40u64) as u8,
        (v >> 48u64) as u8,
        (v >> 56u64) as u8,
    ]
}

/// The `u32` whose bytes, least significant first, open `b`.
pub open spec fn le_value_u32(b: Seq<u8>) -> u32
    recommends
        b.len() >= 4,
{
    (b[0] as u32) | ((b[1] as u32) << 8u32) | ((b[2] as u32) << 16u32) | ((b[3] as u32) << 24u32)
}

/// The `u64` whose bytes, least significant first, open `b`.
pub open spec fn le_value_u64(b: Seq<u8>) -> u64
    recommends
        b.len() >= 8,
{
    (b[0] as u64) | ((b[1] as u64) << 8u64) | ((b[2] as u64) << 16u64) | ((b[3] as u64) << 24u64)
        | ((b[4] as u64) << 32u64) | ((b[5] as u64) << 40u64) | ((b[6] as u64) << 48u64) | ((
    b[7] as u64) << 56u64)
}

pub open spec fn bool_parse(b: Seq<u8>) -> Result<bool, CodecError> {
    if b.len() == 0 {
        Err(CodecError::DecodeBool)
    } else if b[0] == 0 {
        Ok(false)
    } else if b[0] == 1 {
        Ok(true)
    } else {
        Err(CodecError::DecodeBool)
    }
}

pub open spec fn u8_parse(b: Seq<u8>) -> Result<u8, CodecError> {
    if b.len() == 0 {
        Err(CodecError::DecodeUint8)
    } else {
        Ok(b[0])
    }
}

pub open spec fn u32_parse(b: Seq<u8>) -> Result<u32, CodecError> {
    if b.len() < 4 {
        Err(CodecError::DecodeUint32)
    } else {
        Ok(le_value_u32(b))
    }
}

pub open spec fn u64_parse(b: Seq<u8>) -> Result<u64, CodecError> {
    if b.len() < 8 {
        Err(CodecError::DecodeUint64)
    } else {
        Ok(le_value_u64(b))
    }
}

/// Relies on byteorder's `LittleEndian::write_u32`: it writes the bytes of `v`,
/// least significant first.
#[verifier::external_body]
fn write_u32_le(v: u32) -> (r: Vec<u8>)
    ensures
        r@ == le_bytes_u32(v),
{
    let mut buf = [0u8; 4];
    LittleEndian::write_u32(&mut buf, v);
    buf.to_vec()
}

/// Relies on byteorder's `LittleEndian::read_u32`: it reads the first four bytes,
/// least significant first, and panics on fewer.
#[verifier::external_body]
fn read_u32_le(b: &[u8]) -> (r: u32)
    requires
        b@.len() >= 4,
    ensures
        r == le_value_u32(b@),
{
    LittleEndian::read_u32(b)
}

/// Relies on byteorder's `LittleEndian::write_u64`: it writes the bytes of `v`,
/// least significant first.
#[verifier::external_body]
fn write_u64_le(v: u64) -> (r: Vec<u8>)
    ensures
        r@ == le_bytes_u64(v),
{
    let mut buf = [0u8; 8];
    LittleEndian::write_u64(&mut buf, v);
    buf.to_vec()
}

/// Relies on byteorder's `LittleEndian::read_u64`: it reads the first eight bytes,
/// least significant first, and panics on fewer.
#[verifier::external_body]
fn read_u64_le(b: &[u8]) -> (r: u64)
    requires
        b@.len() >= 8,
    ensures
        r == le_value_u64(b@),
{
    LittleEndian::read_u64(b)
}

/// Relies on `String::from_utf8`: it accepts exactly the well-formed UTF-8 byte
/// sequences, and the string it returns holds the characters they encode.
#[verifier::external_body]
pub(crate) fn string_from_utf8(b: &[u8]) -> (r: Option<String>)
    ensures
        r is Some <==> valid_utf8(b@),
        r matches Some(s) ==> s@ == decode_utf8(b@),
{
    String::from_utf8(b.to_vec()).ok()
}

pub proof fn lemma_le_u32_round_trip(v: u32)
    ensures
        le_value_u32(le_bytes_u32(v)) == v,
{
    assert(((v as u8) as u32) | ((((v >> 8u32) as u8) as u32) << 8u32) | ((((v >> 16u32) as u8)
        as u32) << 16u32) | ((((v >> 24u32) as u8) as u32) << 24u32) == v) by (bit_vector);
}

pub proof fn lemma_le_u64_round_trip(v: u64)
    ensures
        le_value_u64(le_bytes_u64(v)) == v,
{
    assert(((v as u8) as u64) | ((((v >> 8u64) as u8) as u64) << 8u64) | ((((v >> 16u64) as u8)
        as u64) << 16u64) | ((((v >> 24u64) as u8) as u64) << 24u64) | ((((v >> 32u64) as u8)
        as u64) << 32u64) | ((((v >> 40u64) as u8) as u64) << 40u64) | ((((v >> 48u64) as u8)
        as u64) << 48u64) | ((((v >> 56u64) as u8) as u64) << 56u64) == v) by (bit_vector);
}

impl FixedCodec for bool {
    open spec fn fixed_bytes(&self) -> Seq<u8> {
        if *self {
            seq![1u8]
        } else {
            seq![0u8]
        }
    }

    open spec fn fixed_decodes(b: Seq<u8>, r: Result<bool, CodecError>) -> bool {
        r == bool_parse(b)
    }

    open spec fn fixed_encodable(&self) -> bool {
        true
    }

    fn encode_fixed(&self) -> (r: Vec<u8>) {
        if *self {
            vec![1u8]
        } else {
            vec![0u8]
        }
    }

    fn decode_fixed(b: &[u8]) -> (r: Result<bool, CodecError>) {
        if b.len() == 0 {
            return Err(CodecError::DecodeBool);
        }
        match b[0] {
            0 => Ok(false),
            1 => Ok(true),
            _ => Err(CodecError::DecodeBool),
        }
    }

    proof fn lemma_fixed_deterministic(a: bool, b: bool) {
    }

    proof fn lemma_fixed_round_trip(v: bool) {
    }
}

impl FixedCodec for u8 {
    open spec fn fixed_bytes(&self) -> Seq<u8> {
        seq![*self]
    }

    open spec fn fixed_decodes(b: Seq<u8>, r: Result<u8, CodecError>) -> bool {
        r == u8_parse(b)
    }

    open spec fn fixed_encodable(&self) -> bool {
        true
    }

    fn encode_fixed(&self) -> (r: Vec<u8>) {
        vec![*self]
    }

    fn decode_fixed(b: &[u8]) -> (r: Result<u8, CodecError>) {
        if b.len() == 0 {
            Err(CodecError::DecodeUint8)
        } else {
            Ok(b[0])
        }
    }

    proof fn lemma_fixed_deterministic(a: u8, b: u8) {
    }

    proof fn lemma_fixed_round_trip(v: u8) {
    }
}

impl FixedCodec for u32 {
    open spec fn fixed_bytes(&self) -> Seq<u8> {
        le_bytes_u32(*self)
    }

    open spec fn fixed_decodes(b: Seq<u8>, r: Result<u32, CodecError>) -> bool {
        r == u32_parse(b)
    }

    open spec fn fixed_encodable(&self) -> bool {
        true
    }

    fn encode_fixed(&self) -> (r: Vec<u8>) {
        write_u32_le(*self)
    }

    fn decode_fixed(b: &[u8]) -> (r: Result<u32, CodecError>) {
        if b.len() < 4 {
            Err(CodecError::DecodeUint32)
        } else {
            Ok(read_u32_le(b))
        }
    }

    proof fn lemma_fixed_deterministic(a: u32, b: u32) {
    }

    proof fn lemma_fixed_round_trip(v: u32) {
        lemma_le_u32_round_trip(v);
    }
}

impl FixedCodec for u64 {
    open spec fn fixed_bytes(&self) -> Seq<u8> {
        le_bytes_u64(*self)
    }

    open spec fn fixed_decodes(b: Seq<u8>, r: Result<u64, CodecError>) -> bool {
        r == u64_parse(b)
    }

    open spec fn fixed_encodable(&self) -> bool {
        true
    }

    fn encode_fixed(&self) -> (r: Vec<u8>) {
        write_u64_le(*self)
    }

    fn decode_fixed(b: &[u8]) -> (r: Result<u64, CodecError>) {
        if b.len() < 8 {
            Err(CodecError::DecodeUint64)
        } else {
            Ok(read_u64_le(b))
        }
    }

    proof fn lemma_fixed_deterministic(a: u64, b: u64) {
    }

    proof fn lemma_fixed_round_trip(v: u64) {
        lemma_le_u64_round_trip(v);
    }
}

impl FixedCodec for String {
    open spec fn fixed_bytes(&self) -> Seq<u8> {
        encode_utf8(self@)
    }

    /// Well-formed UTF-8 decodes to the string it encodes; anything else fails and
    /// carries the bytes.
    open spec fn fixed_decodes(b: Seq<u8>, r: Result<String, CodecError>) -> bool {
        if valid_utf8(b) {
            r matches Ok(s) && s@ == decode_utf8(b)
        } else {
            r matches Err(CodecError::StringUTF8(e)) && e@ == b
        }
    }

    open spec fn fixed_encodable(&self) -> bool {
        true
    }

    fn encode_fixed(&self) -> (r: Vec<u8>) {
        slice_to_vec(self.as_str().as_bytes())
    }

    fn decode_fixed(b: &[u8]) -> (r: Result<String, CodecError>) {
        match string_from_utf8(b) {
            Some(s) => Ok(s),
            None => Err(CodecError::StringUTF8(slice_to_vec(b))),
        }
    }

    proof fn lemma_fixed_deterministic(a: String, b: String) {
    }

    proof fn lemma_fixed_round_trip(v: String) {
    }
}

/// A byte buffer is its own fixed form.
impl FixedCodec for Vec<u8> {
    open spec fn fixed_bytes(&self) -> Seq<u8> {
        self@
    }

    open spec fn fixed_decodes(b: Seq<u8>, r: Result<Vec<u8>, CodecError>) -> bool {
        r matches Ok(v) && v@ == b
    }

    open spec fn fixed_encodable(&self) -> bool {
        true
    }

    fn encode_fixed(&self) -> (r: Vec<u8>) {
        self.clone()
    }

    fn decode_fixed(b: &[u8]) -> (r: Result<Vec<u8>, CodecError>) {
        Ok(slice_to_vec(b))
    }

    proof fn lemma_fixed_deterministic(a: Vec<u8>, b: Vec<u8>) {
    }

    proof fn lemma_fixed_round_trip(v: Vec<u8>) {
    }
}

/// Every scalar decoder fails on empty input, each with its own error.
pub proof fn lemma_empty_input_fails()
    ensures
        bool_parse(Seq::empty()) == Err::<bool, CodecError>(CodecError::DecodeBool),
        u8_parse(Seq::empty()) == Err::<u8, CodecError>(CodecError::DecodeUint8),
        u32_parse(Seq::empty()) == Err::<u32, CodecError>(CodecError::DecodeUint32),
        u64_parse(Seq::empty()) == Err::<u64, CodecError>(CodecError::DecodeUint64),
{
}

} // verus!
