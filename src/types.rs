use vstd::prelude::*;
use vstd::slice::slice_subrange;
use vstd::utf8::{decode_utf8, encode_utf8, is_ascii_chars, valid_utf8};

use crate::error::CodecError;
use crate::fixed::{string_from_utf8, FixedCodec};
use crate::rlp_bytes::{
    be_min, be_value, data_parse, decode_data, decode_list, encode_data, encode_list, is_item,
    lemma_be_min, lemma_be_min_len, lemma_data_parse_complete, lemma_flatten_elem,
    lemma_flatten_one, lemma_list_parse_complete, lemma_rlp_data_len, list_parse, pow256,
    rlp_data, rlp_list, views,
};

verus! {

broadcast use vstd::utf8::encode_utf8_valid_utf8, vstd::utf8::encode_utf8_decode_utf8,
    vstd::utf8::is_ascii_chars_encode_utf8;

pub const HASH_LEN: usize = 32;

pub const ADDRESS_LEN: usize = 20;

// ---- models and layouts ----

pub open spec fn is_hex_char(c: char) -> bool {
    ('0' <= c <= '9') || ('a' <= c <= 'f') || ('A' <= c <= 'F')
}

/// `0x` followed by hex digits.
pub open spec fn is_hex_str(s: Seq<char>) -> bool {
    s.len() >= 2 && s[0] == '0' && s[1] == 'x' && forall|i: int|
        2 <= i < s.len() ==> is_hex_char(#[trigger] s[i])
}

/// A 32-byte hash or a 20-byte address: a 1-list around its raw bytes.
pub open spec fn bytes_rlp(h: Seq<u8>) -> Seq<u8> {
    rlp_list(seq![rlp_data(h)])
}

/// A hex string: a 1-list around its text without the leading `0x`.
pub open spec fn hex_rlp(s: Seq<char>) -> Seq<u8> {
    rlp_list(seq![rlp_data(encode_utf8(s).skip(2))])
}

/// An unsigned integer: its shortest big-endian bytes.
pub open spec fn uint_rlp(n: nat) -> Seq<u8> {
    rlp_data(be_min(n))
}

pub struct ValidatorExtendModel {
    pub bls_pub_key: Seq<char>,
    pub address: Seq<u8>,
    pub propose_weight: u32,
    pub vote_weight: u32,
}

pub open spec fn validator_valid(v: ValidatorExtendModel) -> bool {
    is_hex_str(v.bls_pub_key) && v.address.len() == ADDRESS_LEN
}

pub open spec fn validator_items(v: ValidatorExtendModel) -> Seq<Seq<u8>> {
    seq![
        hex_rlp(v.bls_pub_key),
        bytes_rlp(v.address),
        uint_rlp(v.propose_weight as nat),
        uint_rlp(v.vote_weight as nat),
    ]
}

pub open spec fn validator_rlp(v: ValidatorExtendModel) -> Seq<u8> {
    rlp_list(validator_items(v))
}

pub open spec fn validators_rlp(vs: Seq<ValidatorExtendModel>) -> Seq<u8> {
    rlp_list(vs.map_values(|v: ValidatorExtendModel| validator_rlp(v)))
}

pub struct MetadataModel {
    pub chain_id: Seq<u8>,
    pub common_ref: Seq<char>,
    pub timeout_gap: u64,
    pub cycles_limit: u64,
    pub cycles_price: u64,
    pub interval: u64,
    pub verifier_list: Seq<ValidatorExtendModel>,
    pub propose_ratio: u64,
    pub prevote_ratio: u64,
    pub precommit_ratio: u64,
    pub brake_ratio: u64,
    pub tx_num_limit: u64,
    pub max_tx_size: u64,
}

pub open spec fn metadata_valid(m: MetadataModel) -> bool {
    &&& m.chain_id.len() == HASH_LEN
    &&& is_hex_str(m.common_ref)
    &&& forall|i: int| 0 <= i < m.verifier_list.len() ==> validator_valid(#[trigger] m.verifier_list[i])
}

pub open spec fn metadata_items(m: MetadataModel) -> Seq<Seq<u8>> {
    seq![
        bytes_rlp(m.chain_id),
        hex_rlp(m.common_ref),
        uint_rlp(m.timeout_gap as nat),
        uint_rlp(m.cycles_limit as nat),
        uint_rlp(m.cycles_price as nat),
        uint_rlp(m.interval as nat),
        validators_rlp(m.verifier_list),
        uint_rlp(m.propose_ratio as nat),
        uint_rlp(m.prevote_ratio as nat),
        uint_rlp(m.precommit_ratio as nat),
        uint_rlp(m.brake_ratio as nat),
        uint_rlp(m.tx_num_limit as nat),
        uint_rlp(m.max_tx_size as nat),
    ]
}

pub open spec fn metadata_rlp(m: MetadataModel) -> Seq<u8> {
    rlp_list(metadata_items(m))
}

// ---- what decoding accepts ----

/// A 1-list around exactly `len` raw bytes.
pub open spec fn bytes_parse(b: Seq<u8>, len: nat) -> Option<Seq<u8>> {
    match list_parse(b) {
        Some(items) => if items.len() == 1 {
            match data_parse(items[0]) {
                Some(d) => if d.len() == len {
                    Some(d)
                } else {
                    None
                },
                None => None,
            }
        } else {
            None
        },
        None => None,
    }
}

/// The text rebuilt from the bytes of a hex string's body.
pub open spec fn hex_text(d: Seq<u8>) -> Seq<char> {
    decode_utf8(seq![0x30u8, 0x78u8] + d)
}

pub open spec fn hex_parse(b: Seq<u8>) -> Option<Seq<char>> {
    match list_parse(b) {
        Some(items) => if items.len() == 1 {
            match data_parse(items[0]) {
                Some(d) => if valid_utf8(seq![0x30u8, 0x78u8] + d) && is_hex_str(hex_text(d)) {
                    Some(hex_text(d))
                } else {
                    None
                },
                None => None,
            }
        } else {
            None
        },
        None => None,
    }
}

/// An unsigned integer of at most `width` bytes, written without leading zeros.
pub open spec fn uint_parse(b: Seq<u8>, width: nat) -> Option<nat> {
    match data_parse(b) {
        Some(d) => if d.len() <= width && (d.len() == 0 || d[0] != 0) {
            Some(be_value(d))
        } else {
            None
        },
        None => None,
    }
}

pub open spec fn validator_fields(items: Seq<Seq<u8>>) -> Option<ValidatorExtendModel> {
    if items.len() == 4 && hex_parse(items[0]) is Some && bytes_parse(items[1], ADDRESS_LEN as nat)
        is Some && uint_parse(items[2], 4) is Some && uint_parse(items[3], 4) is Some {
        Some(
            ValidatorExtendModel {
                bls_pub_key: hex_parse(items[0])->Some_0,
                address: bytes_parse(items[1], ADDRESS_LEN as nat)->Some_0,
                propose_weight: uint_parse(items[2], 4)->Some_0 as u32,
                vote_weight: uint_parse(items[3], 4)->Some_0 as u32,
            },
        )
    } else {
        None
    }
}

pub open spec fn validator_parse(b: Seq<u8>) -> Option<ValidatorExtendModel> {
    match list_parse(b) {
        Some(items) => validator_fields(items),
        None => None,
    }
}

pub open spec fn validators_parse(b: Seq<u8>) -> Option<Seq<ValidatorExtendModel>> {
    match list_parse(b) {
        Some(elts) => if forall|i: int| 0 <= i < elts.len() ==> (#[trigger] validator_parse(elts[i]))
            is Some {
            Some(elts.map_values(|e: Seq<u8>| validator_parse(e)->Some_0))
        } else {
            None
        },
        None => None,
    }
}

pub open spec fn metadata_fields_ok(items: Seq<Seq<u8>>) -> bool {
    &&& items.len() == 13
    &&& bytes_parse(items[0], HASH_LEN as nat) is Some
    &&& hex_parse(items[1]) is Some
    &&& uint_parse(items[2], 8) is Some
    &&& uint_parse(items[3], 8) is Some
    &&& uint_parse(items[4], 8) is Some
    &&& uint_parse(items[5], 8) is Some
    &&& validators_parse(items[6]) is Some
    &&& uint_parse(items[7], 8) is Some
    &&& uint_parse(items[8], 8) is Some
    &&& uint_parse(items[9], 8) is Some
    &&& uint_parse(items[10], 8) is Some
    &&& uint_parse(items[11], 8) is Some
    &&& uint_parse(items[12], 8) is Some
}

pub open spec fn metadata_fields(items: Seq<Seq<u8>>) -> MetadataModel {
    MetadataModel {
        chain_id: bytes_parse(items[0], HASH_LEN as nat)->Some_0,
        common_ref: hex_parse(items[1])->Some_0,
        timeout_gap: uint_parse(items[2], 8)->Some_0 as u64,
        cycles_limit: uint_parse(items[3], 8)->Some_0 as u64,
        cycles_price: uint_parse(items[4], 8)->Some_0 as u64,
        interval: uint_parse(items[5], 8)->Some_0 as u64,
        verifier_list: validators_parse(items[6])->Some_0,
        propose_ratio: uint_parse(items[7], 8)->Some_0 as u64,
        prevote_ratio: uint_parse(items[8], 8)->Some_0 as u64,
        precommit_ratio: uint_parse(items[9], 8)->Some_0 as u64,
        brake_ratio: uint_parse(items[10], 8)->Some_0 as u64,
        tx_num_limit: uint_parse(items[11], 8)->Some_0 as u64,
        max_tx_size: uint_parse(items[12], 8)->Some_0 as u64,
    }
}

pub open spec fn metadata_parse(b: Seq<u8>) -> Option<MetadataModel> {
    match list_parse(b) {
        Some(items) => if metadata_fields_ok(items) {
            Some(metadata_fields(items))
        } else {
            None
        },
        None => None,
    }
}

/// The arity errors of a record of `n` fields: a short list fails at its first
/// missing index, a long one with `IncorrectListLen`.
pub open spec fn arity_error(b: Seq<u8>, n: nat) -> Option<CodecError> {
    match list_parse(b) {
        Some(items) => if items.len() < n {
            Some(CodecError::ListTooShort(items.len() as usize))
        } else if items.len() > n {
            Some(CodecError::IncorrectListLen)
        } else {
            None
        },
        None => if b.len() > 0 && b[0] < 0xc0 {
            Some(CodecError::ExpectedList)
        } else {
            None
        },
    }
}

// ---- outside calls ----

/// Relies on rlp's `encode` of a `u64`: the canonical byte string of its shortest
/// big-endian bytes.
#[verifier::external_body]
fn rlp_encode_u64(v: u64) -> (r: Vec<u8>)
    ensures
        r@ == rlp_data(be_min(v as nat)),
{
    rlp::encode(&v).to_vec()
}

// ---- shared decoding steps ----

/// The elements of a record of `n` fields.
fn decode_record(b: &[u8], n: usize) -> (r: Result<Vec<Vec<u8>>, CodecError>)
    ensures
        match arity_error(b@, n as nat) {
            Some(e) => r == Err::<Vec<Vec<u8>>, CodecError>(e),
            None => match list_parse(b@) {
                Some(items) => r matches Ok(v) && views(v@) == items && v@.len() == n,
                None => r is Err,
            },
        },
{
    let items = match decode_list(b) {
        Ok(items) => items,
        Err(e) => return Err(e),
    };
    proof {
        assert(items@.len() == views(items@).len());
    }
    if items.len() < n {
        return Err(CodecError::ListTooShort(items.len()));
    }
    if items.len() > n {
        return Err(CodecError::IncorrectListLen);
    }
    Ok(items)
}

fn decode_uint(b: &[u8], width: usize) -> (r: Result<u64, CodecError>)
    requires
        1 <= width <= 8,
    ensures
        match uint_parse(b@, width as nat) {
            Some(n) => r == Ok::<u64, CodecError>(n as u64) && n < pow256(width as nat),
            None => r is Err,
        },
{
    let d = match decode_data(b) {
        Ok(d) => d,
        Err(e) => return Err(e),
    };
    if d.len() > width || (d.len() > 0 && d[0] == 0) {
        return Err(CodecError::Malformed);
    }
    let mut v: u64 = 0;
    let mut i: usize = 0;
    proof {
        reveal_with_fuel(pow256, 9);
        lemma_pow256_mono(d@.len(), width as nat);
        lemma_pow256_mono(width as nat, 8);
    }
    while i < d.len()
        invariant
            i <= d@.len() <= width <= 8,
            v as nat == be_value(d@.take(i as int)),
            be_value(d@.take(i as int)) < pow256(i as nat),
            pow256(8) == 0x1_0000_0000_0000_0000,
        decreases d@.len() - i,
    {
        let ghost p = pow256(i as nat);
        let ghost x = d@[i as int] as nat;
        proof {
            assert(d@.take(i + 1).drop_last() =~= d@.take(i as int));
            lemma_pow256_mono((i + 1) as nat, 8);
            assert(pow256((i + 1) as nat) == 256 * p);
            assert(v * 256 + x < 256 * p) by (nonlinear_arith)
                requires
                    v < p,
                    x < 256,
            ;
        }
        v = v * 256 + d[i] as u64;
        i = i + 1;
    }
    proof {
        assert(d@.take(i as int) =~= d@);
        lemma_pow256_mono(d@.len(), width as nat);
    }
    Ok(v)
}

proof fn lemma_pow256_mono(i: nat, j: nat)
    requires
        i <= j,
    ensures
        pow256(i) <= pow256(j),
        pow256(i) >= 1,
    decreases j,
{
    if i < j {
        lemma_pow256_mono(i, (j - 1) as nat);
    } else if i > 0 {
        lemma_pow256_mono((i - 1) as nat, (i - 1) as nat);
    }
}

// ---- Hash and Address ----

/// A 32-byte identifier.
#[derive(Debug, PartialEq, Eq)]
pub struct Hash {
    bytes: Vec<u8>,
}

impl View for Hash {
    type V = Seq<u8>;

    closed spec fn view(&self) -> Seq<u8> {
        self.bytes@
    }
}

impl Hash {
    #[verifier::type_invariant]
    spec fn inv(&self) -> bool {
        self.bytes@.len() == HASH_LEN
    }

    /// Fails with `InvalidLength` unless there are exactly 32 bytes.
    pub fn from_bytes(b: Vec<u8>) -> (r: Result<Hash, CodecError>)
        ensures
            b@.len() == HASH_LEN ==> (r matches Ok(h) && h@ == b@),
            b@.len() != HASH_LEN ==> r == Err::<Hash, CodecError>(CodecError::InvalidLength),
    {
        if b.len() == HASH_LEN {
            Ok(Hash { bytes: b })
        } else {
            Err(CodecError::InvalidLength)
        }
    }

    pub fn as_bytes(&self) -> (r: Vec<u8>)
        ensures
            r@ == self@,
            r@.len() == HASH_LEN,
    {
        proof {
            use_type_invariant(self);
        }
        self.bytes.clone()
    }

    pub fn rlp_encode(&self) -> (r: Vec<u8>)
        ensures
            r@ == bytes_rlp(self@),
    {
        proof {
            use_type_invariant(self);
        }
        encode_bytes_item(self.bytes.as_slice())
    }

    pub fn rlp_decode(b: &[u8]) -> (r: Result<Hash, CodecError>)
        ensures
            match bytes_parse(b@, HASH_LEN as nat) {
                Some(d) => r matches Ok(h) && h@ == d,
                None => r is Err,
            },
            arity_error(b@, 1) matches Some(e) ==> r == Err::<Hash, CodecError>(e),
            (list_parse(b@) matches Some(items) && items.len() == 1 && (data_parse(items[0]) matches Some(
                d) && d.len() != HASH_LEN)) ==> r == Err::<Hash, CodecError>(CodecError::InvalidLength),
    {
        let d = match decode_bytes_item(b) {
            Ok(d) => d,
            Err(e) => return Err(e),
        };
        Hash::from_bytes(d)
    }
}

/// A 20-byte account identifier.
#[derive(Debug, PartialEq, Eq)]
pub struct Address {
    bytes: Vec<u8>,
}

impl View for Address {
    type V = Seq<u8>;

    closed spec fn view(&self) -> Seq<u8> {
        self.bytes@
    }
}

impl Address {
    #[verifier::type_invariant]
    spec fn inv(&self) -> bool {
        self.bytes@.len() == ADDRESS_LEN
    }

    /// Fails with `InvalidLength` unless there are exactly 20 bytes.
    pub fn from_bytes(b: Vec<u8>) -> (r: Result<Address, CodecError>)
        ensures
            b@.len() == ADDRESS_LEN ==> (r matches Ok(a) && a@ == b@),
            b@.len() != ADDRESS_LEN ==> r == Err::<Address, CodecError>(CodecError::InvalidLength),
    {
        if b.len() == ADDRESS_LEN {
            Ok(Address { bytes: b })
        } else {
            Err(CodecError::InvalidLength)
        }
    }

    pub fn as_bytes(&self) -> (r: Vec<u8>)
        ensures
            r@ == self@,
            r@.len() == ADDRESS_LEN,
    {
        proof {
            use_type_invariant(self);
        }
        self.bytes.clone()
    }

    pub fn rlp_encode(&self) -> (r: Vec<u8>)
        ensures
            r@ == bytes_rlp(self@),
    {
        proof {
            use_type_invariant(self);
        }
        encode_bytes_item(self.bytes.as_slice())
    }

    pub fn rlp_decode(b: &[u8]) -> (r: Result<Address, CodecError>)
        ensures
            match bytes_parse(b@, ADDRESS_LEN as nat) {
                Some(d) => r matches Ok(a) && a@ == d,
                None => r is Err,
            },
            arity_error(b@, 1) matches Some(e) ==> r == Err::<Address, CodecError>(e),
            (list_parse(b@) matches Some(items) && items.len() == 1 && (data_parse(items[0]) matches Some(
                d) && d.len() != ADDRESS_LEN)) ==> r == Err::<Address, CodecError>(CodecError::InvalidLength),
    {
        let d = match decode_bytes_item(b) {
            Ok(d) => d,
            Err(e) => return Err(e),
        };
        Address::from_bytes(d)
    }
}

/// A 1-list around the raw bytes `d`.
fn encode_bytes_item(d: &[u8]) -> (r: Vec<u8>)
    requires
        d@.len() <= 64,
    ensures
        r@ == bytes_rlp(d@),
{
    let item = encode_data(d);
    let mut items: Vec<Vec<u8>> = Vec::new();
    items.push(item);
    proof {
        assert(views(items@) =~= seq![rlp_data(d@)]);
        lemma_flatten_one(rlp_data(d@));
        lemma_rlp_data_len(d@);
    }
    encode_list(&items)
}

/// The raw bytes inside a 1-list.
fn decode_bytes_item(b: &[u8]) -> (r: Result<Vec<u8>, CodecError>)
    ensures
        match list_parse(b@) {
            Some(items) => if items.len() == 1 {
                match data_parse(items[0]) {
                    Some(d) => r matches Ok(v) && v@ == d,
                    None => r is Err,
                }
            } else {
                r == Err::<Vec<u8>, CodecError>(arity_error(b@, 1)->Some_0)
            },
            None => r is Err,
        },
        arity_error(b@, 1) matches Some(e) ==> r == Err::<Vec<u8>, CodecError>(e),
{
    let items = match decode_record(b, 1) {
        Ok(items) => items,
        Err(e) => return Err(e),
    };
    proof {
        assert(views(items@)[0] == items@[0]@);
    }
    decode_data(items[0].as_slice())
}

// ---- Hex ----

/// A hex string with its leading `0x`.
#[derive(Debug, PartialEq, Eq)]
pub struct Hex {
    inner: String,
}

impl View for Hex {
    type V = Seq<char>;

    closed spec fn view(&self) -> Seq<char> {
        self.inner@
    }
}

proof fn lemma_hex_ascii(s: Seq<char>)
    requires
        is_hex_str(s),
    ensures
        is_ascii_chars(s),
        encode_utf8(s).len() == s.len(),
        encode_utf8(s).skip(2) =~= encode_utf8(s.skip(2)),
        seq![0x30u8, 0x78u8] + encode_utf8(s).skip(2) =~= encode_utf8(s),
{
    assert forall|i: int| 0 <= i < s.len() implies '\0' <= #[trigger] s[i] <= '\u{7f}' by {
        if i >= 2 {
            assert(is_hex_char(s[i]));
        }
    }
    assert(is_ascii_chars(s));
    assert(is_ascii_chars(s.skip(2)));
    vstd::utf8::is_ascii_chars_encode_utf8(s);
    vstd::utf8::is_ascii_chars_encode_utf8(s.skip(2));
    let e = encode_utf8(s);
    assert(e[0] == s[0] as u8);
    assert(e[1] == s[1] as u8);
    assert forall|i: int| 0 <= i < s.len() - 2 implies #[trigger] encode_utf8(s.skip(2))[i] == e[i
        + 2] by {
        assert(encode_utf8(s.skip(2))[i] == s.skip(2)[i] as u8);
        assert(e[i + 2] == s[i + 2] as u8);
    }
}

impl Hex {
    #[verifier::type_invariant]
    spec fn inv(&self) -> bool {
        is_hex_str(self.inner@)
    }

    /// Accepts `0x` followed by hex digits; anything else is a `Custom` error.
    pub fn from_string(s: String) -> (r: Result<Hex, CodecError>)
        ensures
            is_hex_str(s@) ==> (r matches Ok(h) && h@ == s@),
            !is_hex_str(s@) ==> r matches Err(CodecError::Custom(_)),
    {
        if !s.as_str().is_ascii() {
            proof {
                if is_hex_str(s@) {
                    lemma_hex_ascii(s@);
                }
            }
            return Err(CodecError::Custom("hex string error".to_owned()));
        }
        let bytes = s.as_str().as_bytes();
        proof {
            assert(is_ascii_chars(s@));
            assert(bytes@.len() == s@.len());
        }
        if bytes.len() < 2 || bytes[0] != 0x30 || bytes[1] != 0x78 {
            proof {
                if s@.len() >= 2 {
                    assert(bytes@[0] == s@[0] as u8);
                    assert(bytes@[1] == s@[1] as u8);
                }
            }
            return Err(CodecError::Custom("hex string error".to_owned()));
        }
        proof {
            assert(bytes@[0] == s@[0] as u8);
            assert(bytes@[1] == s@[1] as u8);
        }
        let mut i: usize = 2;
        while i < bytes.len()
            invariant
                2 <= i <= bytes@.len(),
                bytes@ == encode_utf8(s@),
                bytes@.len() == s@.len(),
                is_ascii_chars(s@),
                s@[0] == '0' && s@[1] == 'x',
                forall|j: int| 2 <= j < i ==> is_hex_char(#[trigger] s@[j]),
            decreases bytes@.len() - i,
        {
            let c = bytes[i];
            proof {
                assert(c == s@[i as int] as u8);
                assert(s@[i as int] <= '\u{7f}');
            }
            if !((0x30 <= c && c <= 0x39) || (0x61 <= c && c <= 0x66) || (0x41 <= c && c <= 0x46)) {
                return Err(CodecError::Custom("hex string error".to_owned()));
            }
            i = i + 1;
        }
        Ok(Hex { inner: s })
    }

    /// The text, with its leading `0x`.
    pub fn as_string(&self) -> (r: String)
        ensures
            r@ == self@,
    {
        self.inner.clone()
    }

    pub fn rlp_encode(&self) -> (r: Vec<u8>)
        requires
            hex_rlp(self@).len() < 0x1_0000_0000,
        ensures
            r@ == hex_rlp(self@),
    {
        proof {
            use_type_invariant(self);
            lemma_hex_ascii(self@);
        }
        let bytes = self.inner.as_str().as_bytes();
        let body = slice_subrange(bytes, 2, bytes.len());
        let item = encode_data(body);
        let mut items: Vec<Vec<u8>> = Vec::new();
        items.push(item);
        proof {
            assert(body@ =~= encode_utf8(self@).skip(2));
            assert(views(items@) =~= seq![rlp_data(body@)]);
            lemma_flatten_one(rlp_data(body@));
        }
        encode_list(&items)
    }

    pub fn rlp_decode(b: &[u8]) -> (r: Result<Hex, CodecError>)
        ensures
            match hex_parse(b@) {
                Some(s) => r matches Ok(h) && h@ == s,
                None => r is Err,
            },
            arity_error(b@, 1) matches Some(e) ==> r == Err::<Hex, CodecError>(e),
            (list_parse(b@) matches Some(items) && items.len() == 1 && data_parse(items[0]) is Some) ==> {
                let d = data_parse(list_parse(b@)->Some_0[0])->Some_0;
                &&& !valid_utf8(seq![0x30u8, 0x78u8] + d) ==> r == Err::<Hex, CodecError>(
                    CodecError::ExpectedData,
                )
                &&& valid_utf8(seq![0x30u8, 0x78u8] + d) && !is_hex_str(hex_text(d)) ==> r matches Err(
                    CodecError::Custom(_),
                )
            },
    {
        let d = match decode_bytes_item(b) {
            Ok(d) => d,
            Err(e) => return Err(e),
        };
        let mut full: Vec<u8> = vec![0x30u8, 0x78u8];
        full.extend_from_slice(d.as_slice());
        proof {
            assert(full@ =~= seq![0x30u8, 0x78u8] + d@);
        }
        match string_from_utf8(full.as_slice()) {
            Some(s) => Hex::from_string(s),
            None => Err(CodecError::ExpectedData),
        }
    }
}

// ---- ValidatorExtend ----

/// A validator: its BLS public key, its address and its two weights.
#[derive(Debug, PartialEq, Eq)]
pub struct ValidatorExtend {
    pub bls_pub_key: Hex,
    pub address: Address,
    pub propose_weight: u32,
    pub vote_weight: u32,
}

impl View for ValidatorExtend {
    type V = ValidatorExtendModel;

    open spec fn view(&self) -> ValidatorExtendModel {
        ValidatorExtendModel {
            bls_pub_key: self.bls_pub_key@,
            address: self.address@,
            propose_weight: self.propose_weight,
            vote_weight: self.vote_weight,
        }
    }
}

proof fn lemma_item_bound(items: Seq<Seq<u8>>, i: int)
    requires
        0 <= i < items.len(),
    ensures
        items[i].len() <= rlp_list(items).len(),
{
    lemma_flatten_elem(items, i);
}

impl ValidatorExtend {
    pub fn rlp_encode(&self) -> (r: Vec<u8>)
        requires
            validator_rlp(self@).len() < 0x1_0000_0000,
        ensures
            r@ == validator_rlp(self@),
    {
        proof {
            lemma_item_bound(validator_items(self@), 0);
        }
        let mut items: Vec<Vec<u8>> = Vec::new();
        items.push(self.bls_pub_key.rlp_encode());
        items.push(self.address.rlp_encode());
        items.push(rlp_encode_u64(self.propose_weight as u64));
        items.push(rlp_encode_u64(self.vote_weight as u64));
        proof {
            assert(views(items@) =~= validator_items(self@));
        }
        encode_list(&items)
    }

    /// Anything but a list of exactly four elements fails with `IncorrectListLen`;
    /// the key and the address are nested RLP values.
    pub fn rlp_decode(b: &[u8]) -> (r: Result<ValidatorExtend, CodecError>)
        ensures
            match validator_parse(b@) {
                Some(m) => r matches Ok(v) && v@ == m,
                None => r is Err,
            },
            ((b@.len() > 0 && b@[0] < 0xc0) || (list_parse(b@) matches Some(items) && items.len() != 4))
                ==> r == Err::<ValidatorExtend, CodecError>(CodecError::IncorrectListLen),
    {
        let items = match decode_list(b) {
            Ok(items) => items,
            Err(e) => {
                if b.len() > 0 && b[0] < 0xc0 {
                    return Err(CodecError::IncorrectListLen);
                }
                return Err(e);
            },
        };
        if items.len() != 4 {
            proof {
                assert(views(items@).len() == items@.len());
            }
            return Err(CodecError::IncorrectListLen);
        }
        proof {
            assert(views(items@)[0] == items@[0]@);
            assert(views(items@)[1] == items@[1]@);
            assert(views(items@)[2] == items@[2]@);
            assert(views(items@)[3] == items@[3]@);
        }
        let bls_pub_key = match Hex::rlp_decode(items[0].as_slice()) {
            Ok(v) => v,
            Err(e) => return Err(e),
        };
        let address = match Address::rlp_decode(items[1].as_slice()) {
            Ok(v) => v,
            Err(e) => return Err(e),
        };
        let propose_weight = match decode_uint(items[2].as_slice(), 4) {
            Ok(v) => v,
            Err(e) => return Err(e),
        };
        let vote_weight = match decode_uint(items[3].as_slice(), 4) {
            Ok(v) => v,
            Err(e) => return Err(e),
        };
        proof {
            reveal_with_fuel(pow256, 5);
        }
        Ok(
            ValidatorExtend {
                bls_pub_key,
                address,
                propose_weight: propose_weight as u32,
                vote_weight: vote_weight as u32,
            },
        )
    }
}

// ---- Metadata ----

pub open spec fn validator_models(vs: Seq<ValidatorExtend>) -> Seq<ValidatorExtendModel> {
    vs.map_values(|v: ValidatorExtend| v@)
}

/// The parameters of a chain.
#[derive(Debug, PartialEq, Eq)]
pub struct Metadata {
    pub chain_id: Hash,
    pub common_ref: Hex,
    pub timeout_gap: u64,
    pub cycles_limit: u64,
    pub cycles_price: u64,
    pub interval: u64,
    pub verifier_list: Vec<ValidatorExtend>,
    pub propose_ratio: u64,
    pub prevote_ratio: u64,
    pub precommit_ratio: u64,
    pub brake_ratio: u64,
    pub tx_num_limit: u64,
    pub max_tx_size: u64,
}

impl View for Metadata {
    type V = MetadataModel;

    open spec fn view(&self) -> MetadataModel {
        MetadataModel {
            chain_id: self.chain_id@,
            common_ref: self.common_ref@,
            timeout_gap: self.timeout_gap,
            cycles_limit: self.cycles_limit,
            cycles_price: self.cycles_price,
            interval: self.interval,
            verifier_list: validator_models(self.verifier_list@),
            propose_ratio: self.propose_ratio,
            prevote_ratio: self.prevote_ratio,
            precommit_ratio: self.precommit_ratio,
            brake_ratio: self.brake_ratio,
            tx_num_limit: self.tx_num_limit,
            max_tx_size: self.max_tx_size,
        }
    }
}

/// The validators as a homogeneous RLP list.
fn encode_validators(vs: &Vec<ValidatorExtend>) -> (r: Vec<u8>)
    requires
        validators_rlp(validator_models(vs@)).len() < 0x1_0000_0000,
    ensures
        r@ == validators_rlp(validator_models(vs@)),
{
    let ghost all = validator_models(vs@).map_values(|v: ValidatorExtendModel| validator_rlp(v));
    let mut encs: Vec<Vec<u8>> = Vec::new();
    let mut i: usize = 0;
    while i < vs.len()
        invariant
            i <= vs@.len(),
            all == validator_models(vs@).map_values(|v: ValidatorExtendModel| validator_rlp(v)),
            rlp_list(all).len() < 0x1_0000_0000,
            views(encs@) == all.take(i as int),
        decreases vs@.len() - i,
    {
        proof {
            lemma_item_bound(all, i as int);
            assert(validator_models(vs@)[i as int] == vs@[i as int]@);
        }
        let e = vs[i].rlp_encode();
        proof {
            assert(validator_models(vs@)[i as int] == vs@[i as int]@);
            assert(all[i as int] == e@);
            assert(views(encs@.push(e)) =~= views(encs@) + seq![e@]);
            assert(all.take(i as int) + seq![all[i as int]] =~= all.take(i + 1));
        }
        encs.push(e);
        i = i + 1;
    }
    proof {
        assert(all.take(i as int) =~= all);
    }
    encode_list(&encs)
}

/// The validators of a homogeneous RLP list, each decoded in turn.
fn decode_validators(b: &[u8]) -> (r: Result<Vec<ValidatorExtend>, CodecError>)
    ensures
        match validators_parse(b@) {
            Some(vs) => r matches Ok(v) && validator_models(v@) == vs,
            None => r is Err,
        },
{
    let elts = match decode_list(b) {
        Ok(elts) => elts,
        Err(e) => return Err(e),
    };
    let ghost ev = views(elts@);
    let mut out: Vec<ValidatorExtend> = Vec::new();
    let mut i: usize = 0;
    while i < elts.len()
        invariant
            i <= elts@.len(),
            ev == views(elts@),
            list_parse(b@) == Some(ev),
            out@.len() == i,
            forall|j: int| 0 <= j < i ==> (#[trigger] validator_parse(ev[j])) is Some && out@[j]@
                == validator_parse(ev[j])->Some_0,
        decreases elts@.len() - i,
    {
        proof {
            assert(ev[i as int] == elts@[i as int]@);
        }
        let v = match ValidatorExtend::rlp_decode(elts[i].as_slice()) {
            Ok(v) => v,
            Err(e) => return Err(e),
        };
        out.push(v);
        i = i + 1;
    }
    proof {
        let vs = ev.map_values(|e: Seq<u8>| validator_parse(e)->Some_0);
        assert(validator_models(out@) =~= vs);
    }
    Ok(out)
}

impl Metadata {
    #[verifier::rlimit(50)]
    pub fn rlp_encode(&self) -> (r: Vec<u8>)
        requires
            metadata_rlp(self@).len() < 0x1_0000_0000,
        ensures
            r@ == metadata_rlp(self@),
    {
        proof {
            lemma_item_bound(metadata_items(self@), 1);
            lemma_item_bound(metadata_items(self@), 6);
        }
        let mut items: Vec<Vec<u8>> = Vec::new();
        items.push(self.chain_id.rlp_encode());
        items.push(self.common_ref.rlp_encode());
        items.push(rlp_encode_u64(self.timeout_gap));
        items.push(rlp_encode_u64(self.cycles_limit));
        items.push(rlp_encode_u64(self.cycles_price));
        items.push(rlp_encode_u64(self.interval));
        items.push(encode_validators(&self.verifier_list));
        items.push(rlp_encode_u64(self.propose_ratio));
        items.push(rlp_encode_u64(self.prevote_ratio));
        items.push(rlp_encode_u64(self.precommit_ratio));
        items.push(rlp_encode_u64(self.brake_ratio));
        items.push(rlp_encode_u64(self.tx_num_limit));
        items.push(rlp_encode_u64(self.max_tx_size));
        proof {
            assert(views(items@) =~= metadata_items(self@));
        }
        encode_list(&items)
    }

    /// A list of other than thirteen elements fails: a short one at its first
    /// missing index.
    #[verifier::rlimit(50)]
    pub fn rlp_decode(b: &[u8]) -> (r: Result<Metadata, CodecError>)
        ensures
            match metadata_parse(b@) {
                Some(m) => r matches Ok(v) && v@ == m,
                None => r is Err,
            },
            arity_error(b@, 13) matches Some(e) ==> r == Err::<Metadata, CodecError>(e),
    {
        let items = match decode_record(b, 13) {
            Ok(items) => items,
            Err(e) => return Err(e),
        };
        let ghost iv = views(items@);
        proof {
            assert forall|j: int| 0 <= j < 13 implies #[trigger] iv[j] == items@[j]@ by {}
        }
        let chain_id = match Hash::rlp_decode(items[0].as_slice()) {
            Ok(v) => v,
            Err(e) => return Err(e),
        };
        let common_ref = match Hex::rlp_decode(items[1].as_slice()) {
            Ok(v) => v,
            Err(e) => return Err(e),
        };
        let timeout_gap = match decode_uint(items[2].as_slice(), 8) {
            Ok(v) => v,
            Err(e) => return Err(e),
        };
        let cycles_limit = match decode_uint(items[3].as_slice(), 8) {
            Ok(v) => v,
            Err(e) => return Err(e),
        };
        let cycles_price = match decode_uint(items[4].as_slice(), 8) {
            Ok(v) => v,
            Err(e) => return Err(e),
        };
        let interval = match decode_uint(items[5].as_slice(), 8) {
            Ok(v) => v,
            Err(e) => return Err(e),
        };
        let verifier_list = match decode_validators(items[6].as_slice()) {
            Ok(v) => v,
            Err(e) => return Err(e),
        };
        let propose_ratio = match decode_uint(items[7].as_slice(), 8) {
            Ok(v) => v,
            Err(e) => return Err(e),
        };
        let prevote_ratio = match decode_uint(items[8].as_slice(), 8) {
            Ok(v) => v,
            Err(e) => return Err(e),
        };
        let precommit_ratio = match decode_uint(items[9].as_slice(), 8) {
            Ok(v) => v,
            Err(e) => return Err(e),
        };
        let brake_ratio = match decode_uint(items[10].as_slice(), 8) {
            Ok(v) => v,
            Err(e) => return Err(e),
        };
        let tx_num_limit = match decode_uint(items[11].as_slice(), 8) {
            Ok(v) => v,
            Err(e) => return Err(e),
        };
        let max_tx_size = match decode_uint(items[12].as_slice(), 8) {
            Ok(v) => v,
            Err(e) => return Err(e),
        };
        Ok(
            Metadata {
                chain_id,
                common_ref,
                timeout_gap,
                cycles_limit,
                cycles_price,
                interval,
                verifier_list,
                propose_ratio,
                prevote_ratio,
                precommit_ratio,
                brake_ratio,
                tx_num_limit,
                max_tx_size,
            },
        )
    }
}

// ---- round trips ----

/// A hash or an address read back from its RLP form is the same bytes.
pub proof fn lemma_bytes_round_trip(h: Seq<u8>)
    requires
        h.len() <= 64,
    ensures
        bytes_parse(bytes_rlp(h), h.len()) == Some(h),
        is_item(bytes_rlp(h)),
{
    lemma_data_parse_complete(h);
    lemma_rlp_data_len(h);
    lemma_flatten_one(rlp_data(h));
    lemma_list_parse_complete(seq![rlp_data(h)]);
}

/// A hex string read back from its RLP form is the same text, leading `0x`
/// included, though the form holds only what follows it.
pub proof fn lemma_hex_round_trip(s: Seq<char>)
    requires
        is_hex_str(s),
        hex_rlp(s).len() < 0x1_0000_0000,
    ensures
        hex_parse(hex_rlp(s)) == Some(s),
        is_item(hex_rlp(s)),
{
    lemma_hex_ascii(s);
    let d = encode_utf8(s).skip(2);
    lemma_flatten_one(rlp_data(d));
    lemma_data_parse_complete(d);
    lemma_list_parse_complete(seq![rlp_data(d)]);
    assert(seq![0x30u8, 0x78u8] + d =~= encode_utf8(s));
}

/// An integer of at most `width` bytes read back from its RLP form is the same
/// integer.
pub proof fn lemma_uint_round_trip(n: nat, width: nat)
    requires
        width <= 8,
        n < pow256(width),
    ensures
        uint_parse(uint_rlp(n), width) == Some(n),
        is_item(uint_rlp(n)),
{
    lemma_be_min(n);
    lemma_be_min_len(n, width);
    lemma_data_parse_complete(be_min(n));
}

/// A validator read back from its RLP form is the same validator.
pub proof fn lemma_validator_round_trip(v: ValidatorExtendModel)
    requires
        validator_valid(v),
        validator_rlp(v).len() < 0x1_0000_0000,
    ensures
        validator_parse(validator_rlp(v)) == Some(v),
        is_item(validator_rlp(v)),
{
    let items = validator_items(v);
    reveal_with_fuel(pow256, 5);
    lemma_item_bound(items, 0);
    lemma_hex_round_trip(v.bls_pub_key);
    lemma_bytes_round_trip(v.address);
    lemma_uint_round_trip(v.propose_weight as nat, 4);
    lemma_uint_round_trip(v.vote_weight as nat, 4);
    lemma_list_parse_complete(items);
}

/// A list of validators read back from its RLP form, a homogeneous list, is
/// the same list.
pub proof fn lemma_validators_round_trip(vs: Seq<ValidatorExtendModel>)
    requires
        forall|i: int| 0 <= i < vs.len() ==> validator_valid(#[trigger] vs[i]),
        validators_rlp(vs).len() < 0x1_0000_0000,
    ensures
        validators_parse(validators_rlp(vs)) == Some(vs),
        is_item(validators_rlp(vs)),
{
    let elts = vs.map_values(|v: ValidatorExtendModel| validator_rlp(v));
    assert forall|i: int| 0 <= i < elts.len() implies is_item(#[trigger] elts[i]) && validator_parse(
        elts[i],
    ) == Some(vs[i]) by {
        lemma_item_bound(elts, i);
        lemma_validator_round_trip(vs[i]);
    }
    lemma_list_parse_complete(elts);
    assert(elts.map_values(|e: Seq<u8>| validator_parse(e)->Some_0) =~= vs);
}

/// Chain parameters read back from their RLP form are the same parameters.
#[verifier::rlimit(50)]
pub proof fn lemma_metadata_round_trip(m: MetadataModel)
    requires
        metadata_valid(m),
        metadata_rlp(m).len() < 0x1_0000_0000,
    ensures
        metadata_parse(metadata_rlp(m)) == Some(m),
        is_item(metadata_rlp(m)),
{
    let items = metadata_items(m);
    reveal_with_fuel(pow256, 9);
    lemma_item_bound(items, 1);
    lemma_item_bound(items, 6);
    lemma_bytes_round_trip(m.chain_id);
    lemma_hex_round_trip(m.common_ref);
    lemma_validators_round_trip(m.verifier_list);
    lemma_uint_round_trip(m.timeout_gap as nat, 8);
    lemma_uint_round_trip(m.cycles_limit as nat, 8);
    lemma_uint_round_trip(m.cycles_price as nat, 8);
    lemma_uint_round_trip(m.interval as nat, 8);
    lemma_uint_round_trip(m.propose_ratio as nat, 8);
    lemma_uint_round_trip(m.prevote_ratio as nat, 8);
    lemma_uint_round_trip(m.precommit_ratio as nat, 8);
    lemma_uint_round_trip(m.brake_ratio as nat, 8);
    lemma_uint_round_trip(m.tx_num_limit as nat, 8);
    lemma_uint_round_trip(m.max_tx_size as nat, 8);
    assert forall|i: int| 0 <= i < items.len() implies is_item(#[trigger] items[i]) by {}
    lemma_list_parse_complete(items);
    assert(metadata_fields(items) == m);
}

/// The fixed form of a hash is its RLP form.
impl FixedCodec for Hash {
    open spec fn fixed_bytes(&self) -> Seq<u8> {
        bytes_rlp(self@)
    }

    open spec fn fixed_decodes(b: Seq<u8>, r: Result<Hash, CodecError>) -> bool {
        match bytes_parse(b, HASH_LEN as nat) {
            Some(d) => r matches Ok(v) && v@ == d,
            None => r is Err,
        }
    }

    open spec fn fixed_encodable(&self) -> bool {
        self@.len() == HASH_LEN
    }

    fn encode_fixed(&self) -> (r: Vec<u8>) {
        self.rlp_encode()
    }

    fn decode_fixed(b: &[u8]) -> (r: Result<Hash, CodecError>) {
        Hash::rlp_decode(b)
    }

    proof fn lemma_fixed_deterministic(a: Hash, b: Hash) {
    }

    proof fn lemma_fixed_round_trip(v: Hash) {
        lemma_bytes_round_trip(v@);
    }
}

/// The fixed form of an address is its RLP form.
impl FixedCodec for Address {
    open spec fn fixed_bytes(&self) -> Seq<u8> {
        bytes_rlp(self@)
    }

    open spec fn fixed_decodes(b: Seq<u8>, r: Result<Address, CodecError>) -> bool {
        match bytes_parse(b, ADDRESS_LEN as nat) {
            Some(d) => r matches Ok(v) && v@ == d,
            None => r is Err,
        }
    }

    open spec fn fixed_encodable(&self) -> bool {
        self@.len() == ADDRESS_LEN
    }

    fn encode_fixed(&self) -> (r: Vec<u8>) {
        self.rlp_encode()
    }

    fn decode_fixed(b: &[u8]) -> (r: Result<Address, CodecError>) {
        Address::rlp_decode(b)
    }

    proof fn lemma_fixed_deterministic(a: Address, b: Address) {
    }

    proof fn lemma_fixed_round_trip(v: Address) {
        lemma_bytes_round_trip(v@);
    }
}

/// The fixed form of a hex string is its RLP form.
impl FixedCodec for Hex {
    open spec fn fixed_bytes(&self) -> Seq<u8> {
        hex_rlp(self@)
    }

    open spec fn fixed_decodes(b: Seq<u8>, r: Result<Hex, CodecError>) -> bool {
        match hex_parse(b) {
            Some(s) => r matches Ok(v) && v@ == s,
            None => r is Err,
        }
    }

    open spec fn fixed_encodable(&self) -> bool {
        is_hex_str(self@) && hex_rlp(self@).len() < 0x1_0000_0000
    }

    fn encode_fixed(&self) -> (r: Vec<u8>) {
        self.rlp_encode()
    }

    fn decode_fixed(b: &[u8]) -> (r: Result<Hex, CodecError>) {
        Hex::rlp_decode(b)
    }

    proof fn lemma_fixed_deterministic(a: Hex, b: Hex) {
    }

    proof fn lemma_fixed_round_trip(v: Hex) {
        lemma_hex_round_trip(v@);
    }
}

/// The fixed form of chain parameters is their RLP form.
impl FixedCodec for Metadata {
    open spec fn fixed_bytes(&self) -> Seq<u8> {
        metadata_rlp(self@)
    }

    open spec fn fixed_decodes(b: Seq<u8>, r: Result<Metadata, CodecError>) -> bool {
        match metadata_parse(b) {
            Some(m) => r matches Ok(v) && v@ == m,
            None => r is Err,
        }
    }

    open spec fn fixed_encodable(&self) -> bool {
        metadata_valid(self@) && metadata_rlp(self@).len() < 0x1_0000_0000
    }

    fn encode_fixed(&self) -> (r: Vec<u8>) {
        self.rlp_encode()
    }

    fn decode_fixed(b: &[u8]) -> (r: Result<Metadata, CodecError>) {
        Metadata::rlp_decode(b)
    }

    proof fn lemma_fixed_deterministic(a: Metadata, b: Metadata) {
    }

    proof fn lemma_fixed_round_trip(v: Metadata) {
        lemma_metadata_round_trip(v@);
    }
}

} // verus!
