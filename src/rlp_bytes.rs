use vstd::prelude::*;
use vstd::slice::{slice_subrange, slice_to_vec};

use crate::error::CodecError;

verus! {

/// The shortest big-endian bytes of `n`; empty for zero.
pub open spec fn be_min(n: nat) -> Seq<u8>
    decreases n,
{
    if n == 0 {
        seq![]
    } else {
        be_min(n / 256).push((n % 256) as u8)
    }
}

/// The number that the big-endian bytes `s` write.
pub open spec fn be_value(s: Seq<u8>) -> nat
    decreases s.len(),
{
    if s.len() == 0 {
        0
    } else {
        be_value(s.drop_last()) * 256 + s.last() as nat
    }
}

/// The RLP header of a payload of `len` bytes; `base` is 0x80 for a byte string
/// and 0xc0 for a list.
pub open spec fn header(base: nat, len: nat) -> Seq<u8> {
    if len <= 55 {
        seq![(base + len) as u8]
    } else {
        seq![(base + 55 + be_min(len).len()) as u8] + be_min(len)
    }
}

/// The canonical RLP form of the byte string `d`.
pub open spec fn rlp_data(d: Seq<u8>) -> Seq<u8> {
    if d.len() == 1 && d[0] < 0x80 {
        d
    } else {
        header(0x80, d.len()) + d
    }
}

/// The items laid one after another.
pub open spec fn flatten(items: Seq<Seq<u8>>) -> Seq<u8>
    decreases items.len(),
{
    if items.len() == 0 {
        seq![]
    } else {
        flatten(items.drop_last()) + items.last()
    }
}

/// The RLP list whose elements, each already encoded, are `items`.
pub open spec fn rlp_list(items: Seq<Seq<u8>>) -> Seq<u8> {
    header(0xc0, flatten(items).len()) + flatten(items)
}

pub open spec fn views(v: Seq<Vec<u8>>) -> Seq<Seq<u8>> {
    v.map_values(|x: Vec<u8>| x@)
}

/// The header and payload lengths read from a long-form header whose length
/// field takes `lol` bytes.
pub open spec fn long_info(b: Seq<u8>, lol: nat) -> Option<(nat, nat)> {
    if b.len() < 2 || b[1] == 0 || b.len() < 1 + lol || lol > 8 {
        None
    } else {
        let v = be_value(b.subrange(1, 1 + lol as int));
        if v <= 55 {
            None
        } else {
            Some(((1 + lol) as nat, v))
        }
    }
}

/// The header and payload lengths of the first RLP item of `b`, where `b` holds
/// a header that the item's bytes fit behind.
pub open spec fn payload_info_of(b: Seq<u8>) -> Option<(nat, nat)> {
    if b.len() == 0 {
        None
    } else {
        let l = b[0];
        let r = if l <= 0x7f {
            Some((0nat, 1nat))
        } else if l <= 0xb7 {
            Some((1nat, (l - 0x80) as nat))
        } else if l <= 0xbf {
            long_info(b, (l - 0xb7) as nat)
        } else if l <= 0xf7 {
            Some((1nat, (l - 0xc0) as nat))
        } else {
            long_info(b, (l - 0xf7) as nat)
        };
        match r {
            Some((h, v)) => if h + v <= b.len() {
                r
            } else {
                None
            },
            None => None,
        }
    }
}

/// `x` is exactly one RLP item, as far as its header tells.
pub open spec fn is_item(x: Seq<u8>) -> bool {
    payload_info_of(x) matches Some((h, v)) && h + v == x.len()
}

/// The items that a list payload splits into, front to back.
pub open spec fn split_items(p: Seq<u8>) -> Option<Seq<Seq<u8>>>
    decreases p.len(),
{
    if p.len() == 0 {
        Some(seq![])
    } else {
        match payload_info_of(p) {
            None => None,
            Some((h, v)) => if h + v == 0 || h + v > p.len() {
                None
            } else {
                match split_items(p.skip((h + v) as int)) {
                    None => None,
                    Some(rest) => Some(seq![p.take((h + v) as int)] + rest),
                }
            },
        }
    }
}

/// The elements of `b` read as one whole RLP list.
pub open spec fn list_parse(b: Seq<u8>) -> Option<Seq<Seq<u8>>> {
    match payload_info_of(b) {
        Some((h, v)) => if b[0] >= 0xc0 && h + v == b.len() {
            split_items(b.skip(h as int))
        } else {
            None
        },
        None => None,
    }
}

/// The byte string `b` holds when it is one whole canonical RLP byte string.
pub open spec fn data_parse(b: Seq<u8>) -> Option<Seq<u8>> {
    match payload_info_of(b) {
        Some((h, v)) => if b[0] < 0xc0 && h + v == b.len() && !(h == 1 && v == 1 && b[1] < 0x80) {
            Some(b.skip(h as int))
        } else {
            None
        },
        None => None,
    }
}

/// Relies on rlp's `encode` of a byte slice: the canonical RLP byte string.
/// Its header writes the length as a `u32`, hence the bound.
#[verifier::external_body]
fn rlp_encode_slice(d: &[u8]) -> (r: Vec<u8>)
    requires
        d@.len() < 0x1_0000_0000,
    ensures
        r@ == rlp_data(d@),
{
    rlp::encode(&d).to_vec()
}

/// Relies on rlp's `RlpStream::new_list` and `append_raw`: a list of `count`
/// elements whose encoded bytes are `payload` gets the list header in front.
#[verifier::external_body]
fn rlp_wrap_list(payload: &[u8], count: usize) -> (r: Vec<u8>)
    requires
        payload@.len() < 0x1_0000_0000,
        count == 0 ==> payload@.len() == 0,
    ensures
        r@ == header(0xc0, payload@.len()) + payload@,
{
    let mut s = rlp::RlpStream::new_list(count);
    s.append_raw(payload, count);
    s.out().to_vec()
}

/// Relies on rlp's `Rlp::payload_info`: the lengths of the header and the payload
/// of the first item of `b`, or an error when the header is cut short, writes its
/// length with a leading zero or in long form below 56, or promises more bytes
/// than follow. A length field may take up to eight bytes (a 64-bit `usize`).
#[verifier::external_body]
fn rlp_payload_info(b: &[u8]) -> (r: Option<(usize, usize)>)
    ensures
        match payload_info_of(b@) {
            Some((h, v)) => r == Some((h as usize, v as usize)),
            None => r is None,
        },
{
    rlp::Rlp::new(b).payload_info().ok().map(|p| (p.header_len, p.value_len))
}

/// The canonical RLP byte string holding `d`.
pub fn encode_data(d: &[u8]) -> (r: Vec<u8>)
    requires
        d@.len() < 0x1_0000_0000,
    ensures
        r@ == rlp_data(d@),
{
    rlp_encode_slice(d)
}

/// The RLP list whose elements, already encoded, are `items`.
pub fn encode_list(items: &Vec<Vec<u8>>) -> (r: Vec<u8>)
    requires
        flatten(views(items@)).len() < 0x1_0000_0000,
    ensures
        r@ == rlp_list(views(items@)),
{
    let ghost all = views(items@);
    let mut payload: Vec<u8> = Vec::new();
    let mut i: usize = 0;
    while i < items.len()
        invariant
            i <= items.len(),
            all == views(items@),
            payload@ == flatten(all.take(i as int)),
        decreases items.len() - i,
    {
        proof {
            assert(all.take(i + 1).drop_last() =~= all.take(i as int));
        }
        payload.extend_from_slice(items[i].as_slice());
        i = i + 1;
    }
    proof {
        assert(all.take(i as int) =~= all);
        if items.len() == 0 {
            assert(all.take(0) =~= Seq::<Seq<u8>>::empty());
        }
    }
    rlp_wrap_list(payload.as_slice(), items.len())
}

/// The elements of `b`, a whole RLP list, each as its own encoded bytes.
pub fn decode_list(b: &[u8]) -> (r: Result<Vec<Vec<u8>>, CodecError>)
    ensures
        match list_parse(b@) {
            Some(items) => r matches Ok(v) && views(v@) == items,
            None => r is Err,
        },
        b@.len() > 0 && b@[0] < 0xc0 ==> r == Err::<Vec<Vec<u8>>, CodecError>(
            CodecError::ExpectedList,
        ),
{
    if b.len() == 0 {
        return Err(CodecError::Malformed);
    }
    if b[0] < 0xc0 {
        return Err(CodecError::ExpectedList);
    }
    let (h, v) = match rlp_payload_info(b) {
        Some(info) => info,
        None => return Err(CodecError::Malformed),
    };
    if h + v != b.len() {
        return Err(CodecError::Malformed);
    }
    let ghost p = b@.skip(h as int);
    assert(list_parse(b@) == split_items(p));
    let mut items: Vec<Vec<u8>> = Vec::new();
    let mut off: usize = h;
    while off < b.len()
        invariant
            h <= off <= b@.len(),
            p == b@.skip(h as int),
            b@.len() > 0 && b@[0] >= 0xc0,
            list_parse(b@) == split_items(p),
            split_items(p) == match split_items(b@.skip(off as int)) {
                None => None,
                Some(rest) => Some(views(items@) + rest),
            },
        decreases b@.len() - off,
    {
        let rest = slice_subrange(b, off, b.len());
        assert(rest@ =~= b@.skip(off as int));
        let (ih, iv) = match rlp_payload_info(rest) {
            Some(info) => info,
            None => {
                assert(split_items(b@.skip(off as int)) is None);
                return Err(CodecError::Malformed);
            },
        };
        if ih + iv == 0 {
            return Err(CodecError::Malformed);
        }
        let item = slice_to_vec(slice_subrange(b, off, off + ih + iv));
        proof {
            let s = b@.skip(off as int);
            assert(item@ =~= s.take((ih + iv) as int));
            assert(b@.skip((off + ih + iv) as int) =~= s.skip((ih + iv) as int));
            assert(views(items@.push(item)) =~= views(items@) + seq![item@]);
            if let Some(tail) = split_items(s.skip((ih + iv) as int)) {
                assert(views(items@) + (seq![item@] + tail) =~= (views(items@) + seq![item@])
                    + tail);
            }
        }
        items.push(item);
        off = off + ih + iv;
    }
    proof {
        assert(b@.skip(off as int) =~= Seq::<u8>::empty());
        assert(views(items@) + Seq::<Seq<u8>>::empty() =~= views(items@));
    }
    Ok(items)
}

/// The byte string that `b`, a whole canonical RLP byte string, holds.
pub fn decode_data(b: &[u8]) -> (r: Result<Vec<u8>, CodecError>)
    ensures
        match data_parse(b@) {
            Some(d) => r matches Ok(v) && v@ == d,
            None => r is Err,
        },
        b@.len() > 0 && b@[0] >= 0xc0 ==> r == Err::<Vec<u8>, CodecError>(
            CodecError::ExpectedData,
        ),
{
    if b.len() == 0 {
        return Err(CodecError::Malformed);
    }
    if b[0] >= 0xc0 {
        return Err(CodecError::ExpectedData);
    }
    let (h, v) = match rlp_payload_info(b) {
        Some(info) => info,
        None => return Err(CodecError::Malformed),
    };
    if h + v != b.len() || (h == 1 && v == 1 && b[1] < 0x80) {
        return Err(CodecError::Malformed);
    }
    let d = slice_to_vec(slice_subrange(b, h, b.len()));
    assert(d@ =~= b@.skip(h as int));
    Ok(d)
}

// ---- lemmas on big-endian lengths ----

pub open spec fn pow256(k: nat) -> nat
    decreases k,
{
    if k == 0 {
        1
    } else {
        256 * pow256((k - 1) as nat)
    }
}

pub(crate) proof fn lemma_be_min(n: nat)
    ensures
        be_value(be_min(n)) == n,
        (be_min(n).len() == 0) == (n == 0),
        n > 0 ==> be_min(n)[0] != 0,
    decreases n,
{
    if n > 0 {
        lemma_be_min(n / 256);
        let s = be_min(n);
        assert(s.drop_last() =~= be_min(n / 256));
        assert((n / 256) * 256 + n % 256 == n) by (nonlinear_arith);
        assert(((n % 256) as u8) as nat == n % 256);
        if n / 256 == 0 {
            assert(n % 256 == n);
        }
    }
}

pub(crate) proof fn lemma_be_min_len(n: nat, k: nat)
    requires
        n < pow256(k),
    ensures
        be_min(n).len() <= k,
    decreases n,
{
    if n > 0 {
        if k == 0 {
            assert(pow256(0) == 1);
        } else {
            let p = pow256((k - 1) as nat);
            assert(n < 256 * p);
            assert(n / 256 < p) by (nonlinear_arith)
                requires
                    n < 256 * p,
            ;
            lemma_be_min_len(n / 256, (k - 1) as nat);
        }
    }
}

pub(crate) proof fn lemma_rlp_data_len(d: Seq<u8>)
    requires
        d.len() < 0x1_0000_0000_0000_0000,
    ensures
        rlp_data(d).len() <= d.len() + 9,
{
    lemma_be_min_len_u64(d.len());
}

proof fn lemma_be_min_len_u64(n: nat)
    requires
        n < 0x1_0000_0000_0000_0000,
    ensures
        be_min(n).len() <= 8,
{
    reveal_with_fuel(pow256, 9);
    lemma_be_min_len(n, 8);
}

proof fn lemma_be_value_min(s: Seq<u8>)
    requires
        s.len() > 0,
        s[0] != 0,
    ensures
        be_min(be_value(s)) == s,
        be_value(s) > 0,
    decreases s.len(),
{
    let p = s.drop_last();
    let n = be_value(s);
    let q = be_value(p);
    let last = s.last() as nat;
    assert(n == q * 256 + last);
    assert(n / 256 == q && n % 256 == last) by (nonlinear_arith)
        requires
            n == q * 256 + last,
            last < 256,
    ;
    if s.len() == 1 {
        assert(q == 0);
        assert(be_min(n) =~= be_min(0).push(last as u8));
        assert(s =~= seq![s[0]]);
    } else {
        lemma_be_value_min(p);
        assert(be_min(n) == be_min(q).push(last as u8));
        assert(s =~= p.push(s.last()));
    }
}

// ---- lemmas on headers and items ----

proof fn lemma_header_info(base: nat, payload: Seq<u8>)
    requires
        base == 0x80 || base == 0xc0,
        payload.len() < 0x1_0000_0000_0000_0000,
        base == 0x80 ==> !(payload.len() == 1 && payload[0] < 0x80),
    ensures
        payload_info_of(header(base, payload.len()) + payload) == Some(
            (header(base, payload.len()).len(), payload.len()),
        ),
{
    let len = payload.len();
    let b = header(base, len) + payload;
    if len > 55 {
        lemma_be_min(len);
        lemma_be_min_len_u64(len);
        let m = be_min(len);
        assert(b.subrange(1, 1 + m.len() as int) =~= m);
    }
}

/// An item keeps its header reading when bytes follow it.
proof fn lemma_info_extend(x: Seq<u8>, y: Seq<u8>)
    requires
        is_item(x),
    ensures
        payload_info_of(x + y) == payload_info_of(x),
{
    let b = x + y;
    if x.len() >= 2 {
        let l = x[0];
        if l > 0xb7 && l <= 0xbf {
            let lol = (l - 0xb7) as nat;
            if lol <= 8 && x.len() >= 1 + lol {
                assert(b.subrange(1, 1 + lol as int) =~= x.subrange(1, 1 + lol as int));
            }
        } else if l > 0xf7 {
            let lol = (l - 0xf7) as nat;
            if lol <= 8 && x.len() >= 1 + lol {
                assert(b.subrange(1, 1 + lol as int) =~= x.subrange(1, 1 + lol as int));
            }
        }
    }
}

/// The bytes that a header reading covers form one item.
proof fn lemma_info_take(b: Seq<u8>)
    requires
        payload_info_of(b) is Some,
    ensures
        ({
            let (h, v) = payload_info_of(b)->Some_0;
            is_item(b.take((h + v) as int)) && payload_info_of(b.take((h + v) as int))
                == payload_info_of(b)
        }),
{
    let (h, v) = payload_info_of(b)->Some_0;
    let x = b.take((h + v) as int);
    let l = b[0];
    if l > 0xb7 && l <= 0xbf {
        let lol = (l - 0xb7) as nat;
        assert(x.subrange(1, 1 + lol as int) =~= b.subrange(1, 1 + lol as int));
    } else if l > 0xf7 {
        let lol = (l - 0xf7) as nat;
        assert(x.subrange(1, 1 + lol as int) =~= b.subrange(1, 1 + lol as int));
    }
}

pub(crate) proof fn lemma_flatten_elem(s: Seq<Seq<u8>>, i: int)
    requires
        0 <= i < s.len(),
    ensures
        s[i].len() <= flatten(s).len(),
    decreases s.len(),
{
    if i < s.len() - 1 {
        lemma_flatten_elem(s.drop_last(), i);
    }
}

pub(crate) proof fn lemma_flatten_one(x: Seq<u8>)
    ensures
        flatten(seq![x]) == x,
{
    assert(seq![x].drop_last() =~= Seq::<Seq<u8>>::empty());
    assert(flatten(Seq::<Seq<u8>>::empty()) + x =~= x);
}

pub(crate) proof fn lemma_flatten_split(s: Seq<Seq<u8>>, k: int)
    requires
        0 <= k <= s.len(),
    ensures
        flatten(s) == flatten(s.take(k)) + flatten(s.skip(k)),
    decreases s.len(),
{
    if k == s.len() {
        assert(s.take(k) =~= s);
        assert(s.skip(k) =~= Seq::<Seq<u8>>::empty());
        assert(flatten(s) + Seq::<u8>::empty() =~= flatten(s));
    } else {
        let d = s.drop_last();
        lemma_flatten_split(d, k);
        assert(d.take(k) =~= s.take(k));
        assert(s.skip(k).drop_last() =~= d.skip(k));
        assert(s.skip(k).last() == s.last());
        assert(flatten(s.take(k)) + flatten(d.skip(k)) + s.last() =~= flatten(s.take(k)) + (
        flatten(d.skip(k)) + s.last()));
    }
}

proof fn lemma_split_sound(p: Seq<u8>)
    requires
        split_items(p) is Some,
    ensures
        flatten(split_items(p)->Some_0) == p,
        forall|i: int|
            0 <= i < split_items(p)->Some_0.len() ==> is_item(#[trigger] split_items(p)->Some_0[i]),
    decreases p.len(),
{
    if p.len() == 0 {
        assert(p =~= Seq::<u8>::empty());
    } else {
        let (h, v) = payload_info_of(p)->Some_0;
        let t = (h + v) as int;
        lemma_split_sound(p.skip(t));
        lemma_info_take(p);
        let items = split_items(p)->Some_0;
        let rest = split_items(p.skip(t))->Some_0;
        assert(items == seq![p.take(t)] + rest);
        lemma_flatten_split(items, 1);
        assert(items.take(1) =~= seq![p.take(t)]);
        assert(items.skip(1) =~= rest);
        lemma_flatten_one(p.take(t));
        assert(p.take(t) + p.skip(t) =~= p);
        assert forall|i: int| 0 <= i < items.len() implies is_item(#[trigger] items[i]) by {
            if i > 0 {
                assert(items[i] == rest[i - 1]);
            }
        }
    }
}

proof fn lemma_split_complete(items: Seq<Seq<u8>>)
    requires
        forall|i: int| 0 <= i < items.len() ==> is_item(#[trigger] items[i]),
    ensures
        split_items(flatten(items)) == Some(items),
    decreases items.len(),
{
    if items.len() == 0 {
        assert(flatten(items) =~= Seq::<u8>::empty());
        assert(items =~= Seq::<Seq<u8>>::empty());
    } else {
        let p = flatten(items);
        let tail = items.skip(1);
        lemma_flatten_split(items, 1);
        assert(items.take(1) =~= seq![items[0]]);
        lemma_flatten_one(items[0]);
        assert(p == items[0] + flatten(tail));
        assert(is_item(items[0]));
        lemma_info_extend(items[0], flatten(tail));
        let t = items[0].len() as int;
        assert(p.take(t) =~= items[0]);
        assert(p.skip(t) =~= flatten(tail));
        assert forall|i: int| 0 <= i < tail.len() implies is_item(#[trigger] tail[i]) by {
            assert(tail[i] == items[i + 1]);
        }
        lemma_split_complete(tail);
        assert(seq![items[0]] + tail =~= items);
    }
}

/// Reading a whole RLP list gives elements that are items and that, laid out
/// again under a list header, give back the same bytes.
pub proof fn lemma_list_parse_sound(b: Seq<u8>)
    requires
        list_parse(b) is Some,
    ensures
        rlp_list(list_parse(b)->Some_0) == b,
        forall|i: int|
            0 <= i < list_parse(b)->Some_0.len() ==> is_item(#[trigger] list_parse(b)->Some_0[i]),
{
    let (h, v) = payload_info_of(b)->Some_0;
    let p = b.skip(h as int);
    lemma_split_sound(p);
    let l = b[0];
    if l > 0xf7 {
        let lol = (l - 0xf7) as nat;
        let s = b.subrange(1, 1 + lol as int);
        lemma_be_value_min(s);
    }
    assert(b.take(h as int) + p =~= b);
    assert(b.take(h as int) =~= header(0xc0, p.len()));
}

/// A list of items, encoded, reads back as the same items.
pub proof fn lemma_list_parse_complete(items: Seq<Seq<u8>>)
    requires
        forall|i: int| 0 <= i < items.len() ==> is_item(#[trigger] items[i]),
        flatten(items).len() < 0x1_0000_0000_0000_0000,
    ensures
        list_parse(rlp_list(items)) == Some(items),
        is_item(rlp_list(items)),
{
    let p = flatten(items);
    lemma_header_info(0xc0, p);
    lemma_split_complete(items);
    let b = rlp_list(items);
    if p.len() > 55 {
        lemma_be_min(p.len());
        lemma_be_min_len_u64(p.len());
    }
    assert(b.skip(header(0xc0, p.len()).len() as int) =~= p);
}

/// Reading a whole canonical byte string gives the bytes that encode back to it.
pub proof fn lemma_data_parse_sound(b: Seq<u8>)
    requires
        data_parse(b) is Some,
    ensures
        rlp_data(data_parse(b)->Some_0) == b,
{
    let (h, v) = payload_info_of(b)->Some_0;
    let d = b.skip(h as int);
    let l = b[0];
    if l > 0xb7 {
        let lol = (l - 0xb7) as nat;
        let s = b.subrange(1, 1 + lol as int);
        lemma_be_value_min(s);
    }
    if h == 0 {
        assert(d =~= b);
    } else {
        assert(b.take(h as int) + d =~= b);
        assert(b.take(h as int) =~= header(0x80, d.len()));
    }
}

/// A byte string, encoded, reads back as the same bytes and forms one item.
pub proof fn lemma_data_parse_complete(d: Seq<u8>)
    requires
        d.len() < 0x1_0000_0000_0000_0000,
    ensures
        data_parse(rlp_data(d)) == Some(d),
        is_item(rlp_data(d)),
{
    let b = rlp_data(d);
    if d.len() == 1 && d[0] < 0x80 {
        assert(b.skip(0) =~= d);
    } else {
        lemma_header_info(0x80, d);
        if d.len() > 55 {
            lemma_be_min(d.len());
            lemma_be_min_len_u64(d.len());
        }
        assert(b.skip(header(0x80, d.len()).len() as int) =~= d);
    }
}

} // verus!
