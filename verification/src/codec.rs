//! Writing and reading the items that the persisted records are made of.

use vstd::prelude::*;
use crate::cbor::{
    be_uint, copy_range, head_at, lemma_head_advances, link_at, links_from, prepend, read_head,
    read_link, Head, LINK_TAG, MAX_LINK_LEN,
};
use crate::content_id::{cid_binary, link_target, read_link_target, CidModel, ContentId};

verus! {

/// The bytes of an item head with the shortest form of its argument.
#[verifier::opaque]
pub open spec fn head_bytes(major: u8, arg: u64) -> Seq<u8> {
    let top = (major * 32) as int;
    if arg < 24 {
        seq![(top + arg) as u8]
    } else if arg < 0x100 {
        seq![(top + 24) as u8, arg as u8]
    } else if arg < 0x1_0000 {
        seq![(top + 25) as u8, (arg / 0x100) as u8, (arg % 0x100) as u8]
    } else if arg < 0x1_0000_0000 {
        seq![
            (top + 26) as u8,
            (arg / 0x100_0000) as u8,
            (arg / 0x1_0000 % 0x100) as u8,
            (arg / 0x100 % 0x100) as u8,
            (arg % 0x100) as u8,
        ]
    } else {
        seq![
            (top + 27) as u8,
            (arg / 0x100_0000_0000_0000) as u8,
            (arg / 0x1_0000_0000_0000 % 0x100) as u8,
            (arg / 0x100_0000_0000 % 0x100) as u8,
            (arg / 0x1_0000_0000 % 0x100) as u8,
            (arg / 0x100_0000 % 0x100) as u8,
            (arg / 0x1_0000 % 0x100) as u8,
            (arg / 0x100 % 0x100) as u8,
            (arg % 0x100) as u8,
        ]
    }
}

/// Appends an item head.
pub fn write_head(out: &mut Vec<u8>, major: u8, arg: u64)
    requires
        major < 8,
    ensures
        final(out)@ == old(out)@ + head_bytes(major, arg),
{
    proof {
        reveal(head_bytes);
    }
    let top: u8 = major * 32;
    if arg < 24 {
        out.push(top + arg as u8);
    } else if arg < 0x100 {
        out.push(top + 24);
        out.push(arg as u8);
    } else if arg < 0x1_0000 {
        out.push(top + 25);
        out.push((arg / 0x100) as u8);
        out.push((arg % 0x100) as u8);
    } else if arg < 0x1_0000_0000 {
        out.push(top + 26);
        out.push((arg / 0x100_0000) as u8);
        out.push((arg / 0x1_0000 % 0x100) as u8);
        out.push((arg / 0x100 % 0x100) as u8);
        out.push((arg % 0x100) as u8);
    } else {
        out.push(top + 27);
        out.push((arg / 0x100_0000_0000_0000) as u8);
        out.push((arg / 0x1_0000_0000_0000 % 0x100) as u8);
        out.push((arg / 0x100_0000_0000 % 0x100) as u8);
        out.push((arg / 0x1_0000_0000 % 0x100) as u8);
        out.push((arg / 0x100_0000 % 0x100) as u8);
        out.push((arg / 0x1_0000 % 0x100) as u8);
        out.push((arg / 0x100 % 0x100) as u8);
        out.push((arg % 0x100) as u8);
    }
    assert(out@ =~= old(out)@ + head_bytes(major, arg));
}

/// The first byte of a head holds the major type and the short argument.
proof fn lemma_first_byte(major: u8, low: u8)
    requires
        major < 8,
        low < 32,
    ensures
        ((major * 32) as int + low) as u8 / 32 == major,
        ((major * 32) as int + low) as u8 % 32 == low,
{
}

/// Dividing by 256 again and again divides by its powers.
proof fn lemma_shifts(arg: u64)
    ensures
        arg / 0x1_0000 == arg / 0x100 / 0x100,
        arg / 0x100_0000 == arg / 0x1_0000 / 0x100,
        arg / 0x1_0000_0000 == arg / 0x100_0000 / 0x100,
        arg / 0x100_0000_0000 == arg / 0x1_0000_0000 / 0x100,
        arg / 0x1_0000_0000_0000 == arg / 0x100_0000_0000 / 0x100,
        arg / 0x100_0000_0000_0000 == arg / 0x1_0000_0000_0000 / 0x100,
{
    assert(arg / 0x1_0000 == arg / 0x100 / 0x100) by (bit_vector);
    assert(arg / 0x100_0000 == arg / 0x1_0000 / 0x100) by (bit_vector);
    assert(arg / 0x1_0000_0000 == arg / 0x100_0000 / 0x100) by (bit_vector);
    assert(arg / 0x100_0000_0000 == arg / 0x1_0000_0000 / 0x100) by (bit_vector);
    assert(arg / 0x1_0000_0000_0000 == arg / 0x100_0000_0000 / 0x100) by (bit_vector);
    assert(arg / 0x100_0000_0000_0000 == arg / 0x1_0000_0000_0000 / 0x100) by (bit_vector);
}

/// The digits of a number in base 256 give the number back.
#[verifier::rlimit(40)]
proof fn lemma_digits(arg: u64)
    ensures
        arg < 0x1_0000 ==> arg == (arg / 0x100) * 0x100 + arg % 0x100,
        arg < 0x1_0000_0000 ==> arg == (arg / 0x100_0000) * 0x100_0000 + (arg / 0x1_0000 % 0x100)
            * 0x1_0000 + (arg / 0x100 % 0x100) * 0x100 + arg % 0x100,
        arg == (arg / 0x100_0000_0000_0000) * 0x100_0000_0000_0000 + (arg / 0x1_0000_0000_0000
            % 0x100) * 0x1_0000_0000_0000 + (arg / 0x100_0000_0000 % 0x100) * 0x100_0000_0000 + (arg
            / 0x1_0000_0000 % 0x100) * 0x1_0000_0000 + (arg / 0x100_0000 % 0x100) * 0x100_0000 + (arg
            / 0x1_0000 % 0x100) * 0x1_0000 + (arg / 0x100 % 0x100) * 0x100 + arg % 0x100,
{
    lemma_shifts(arg);
    let d0 = arg as int;
    let d1 = d0 / 0x100;
    let d2 = d1 / 0x100;
    let d3 = d2 / 0x100;
    let d4 = d3 / 0x100;
    let d5 = d4 / 0x100;
    let d6 = d5 / 0x100;
    let d7 = d6 / 0x100;
    assert(d0 == d1 * 0x100 + d0 % 0x100);
    assert(d1 == d2 * 0x100 + d1 % 0x100);
    assert(d2 == d3 * 0x100 + d2 % 0x100);
    assert(d3 == d4 * 0x100 + d3 % 0x100);
    assert(d4 == d5 * 0x100 + d4 % 0x100);
    assert(d5 == d6 * 0x100 + d5 % 0x100);
    assert(d6 == d7 * 0x100 + d6 % 0x100);
}

/// The number that eight bytes write, digit by digit.
proof fn lemma_be_uint_digits(bytes: Seq<u8>, start: int)
    ensures
        be_uint(bytes, start, 1) == bytes[start],
        be_uint(bytes, start, 2) == bytes[start] * 0x100 + bytes[start + 1],
        be_uint(bytes, start, 4) == bytes[start] * 0x100_0000 + bytes[start + 1] * 0x1_0000
            + bytes[start + 2] * 0x100 + bytes[start + 3],
        be_uint(bytes, start, 8) == bytes[start] * 0x100_0000_0000_0000 + bytes[start + 1]
            * 0x1_0000_0000_0000 + bytes[start + 2] * 0x100_0000_0000 + bytes[start + 3]
            * 0x1_0000_0000 + bytes[start + 4] * 0x100_0000 + bytes[start + 5] * 0x1_0000
            + bytes[start + 6] * 0x100 + bytes[start + 7],
{
    reveal_with_fuel(be_uint, 9);
}

/// A head that was written is read back, whatever stands before and after it.
#[verifier::rlimit(40)]
pub proof fn lemma_head_round_trip(prefix: Seq<u8>, major: u8, arg: u64, rest: Seq<u8>)
    requires
        major < 8,
        prefix.len() + head_bytes(major, arg).len() + rest.len() <= usize::MAX,
    ensures
        head_at(prefix + head_bytes(major, arg) + rest, prefix.len() as int) == Some(
            Head { major, arg, next: (prefix.len() + head_bytes(major, arg).len()) as usize },
        ),
{
    reveal(head_bytes);
    let written = head_bytes(major, arg);
    let bytes = prefix + written + rest;
    let start = prefix.len() as int;
    assert forall|k: int| 0 <= k < written.len() implies bytes[start + k] == written[k] by {}
    assert(bytes[start] == written[0]);
    lemma_be_uint_digits(bytes, start + 1);
    lemma_digits(arg);
    if arg < 24 {
        lemma_first_byte(major, arg as u8);
    } else if arg < 0x100 {
        lemma_first_byte(major, 24);
        assert(bytes[start + 1] == written[1]);
    } else if arg < 0x1_0000 {
        lemma_first_byte(major, 25);
        assert(bytes[start + 1] == written[1]);
        assert(bytes[start + 2] == written[2]);
    } else if arg < 0x1_0000_0000 {
        lemma_first_byte(major, 26);
        assert(bytes[start + 1] == written[1]);
        assert(bytes[start + 2] == written[2]);
        assert(bytes[start + 3] == written[3]);
        assert(bytes[start + 4] == written[4]);
    } else {
        lemma_first_byte(major, 27);
        assert(bytes[start + 1] == written[1]);
        assert(bytes[start + 2] == written[2]);
        assert(bytes[start + 3] == written[3]);
        assert(bytes[start + 4] == written[4]);
        assert(bytes[start + 5] == written[5]);
        assert(bytes[start + 6] == written[6]);
        assert(bytes[start + 7] == written[7]);
        assert(bytes[start + 8] == written[8]);
    }
}

/// The bytes of an unsigned number.
pub open spec fn uint_item(v: u64) -> Seq<u8> {
    head_bytes(0, v)
}

/// The bytes of a byte string.
pub open spec fn bytes_item(data: Seq<u8>) -> Seq<u8> {
    head_bytes(2, data.len() as u64) + data
}

/// The bytes of a text string, given as its UTF-8 bytes.
pub open spec fn text_item(data: Seq<u8>) -> Seq<u8> {
    head_bytes(3, data.len() as u64) + data
}

/// The bytes of a link to the block `id`.
pub open spec fn link_item(id: CidModel) -> Seq<u8> {
    head_bytes(6, LINK_TAG) + bytes_item(seq![0u8] + cid_binary(id.codec, id.hash, id.digest))
}

/// Appends all of `data`.
pub fn write_all(out: &mut Vec<u8>, data: &[u8])
    ensures
        final(out)@ == old(out)@ + data@,
{
    let mut i: usize = 0;
    while i < data.len()
        invariant
            i <= data@.len(),
            out@ == old(out)@ + data@.subrange(0, i as int),
        decreases data@.len() - i,
    {
        out.push(data[i]);
        i = i + 1;
        assert(out@ =~= old(out)@ + data@.subrange(0, i as int));
    }
    assert(data@.subrange(0, i as int) =~= data@);
}

/// Appends an unsigned number.
pub fn write_uint(out: &mut Vec<u8>, v: u64)
    ensures
        final(out)@ == old(out)@ + uint_item(v),
{
    write_head(out, 0, v);
}

/// Appends a byte string.
pub fn write_bytes(out: &mut Vec<u8>, data: &[u8])
    ensures
        final(out)@ == old(out)@ + bytes_item(data@),
{
    write_head(out, 2, data.len() as u64);
    write_all(out, data);
    assert(out@ =~= old(out)@ + bytes_item(data@));
}

/// Appends a link to the block `id`.
pub fn write_link(out: &mut Vec<u8>, id: &ContentId)
    ensures
        final(out)@ == old(out)@ + link_item(id@),
        travels(id@),
{
    let binary = id.to_bytes();
    let mut body: Vec<u8> = Vec::new();
    body.push(0u8);
    write_all(&mut body, binary.as_slice());
    assert(body@ =~= seq![0u8] + cid_binary(id@.codec, id@.hash, id@.digest));
    write_head(out, 6, LINK_TAG);
    write_bytes(out, body.as_slice());
    assert(out@ =~= old(out)@ + link_item(id@));
}

/// The unsigned number written at `pos`, and the position after it.
pub open spec fn uint_at(bytes: Seq<u8>, pos: int) -> Option<(u64, int)> {
    match head_at(bytes, pos) {
        Some(h) => if h.major == 0 {
            Some((h.arg, h.next as int))
        } else {
            None
        },
        None => None,
    }
}

/// The length of the array that starts at `pos`, and the position of its
/// first item.
pub open spec fn array_at(bytes: Seq<u8>, pos: int) -> Option<(u64, int)> {
    match head_at(bytes, pos) {
        Some(h) => if h.major == 4 {
            Some((h.arg, h.next as int))
        } else {
            None
        },
        None => None,
    }
}

/// The string of major type `major` written at `pos`, and the position
/// after it.
pub open spec fn string_at(bytes: Seq<u8>, pos: int, major: u8) -> Option<(Seq<u8>, int)> {
    match head_at(bytes, pos) {
        Some(h) => if h.major == major && h.arg <= bytes.len() - h.next {
            Some((bytes.subrange(h.next as int, h.next + h.arg), h.next + h.arg))
        } else {
            None
        },
        None => None,
    }
}

/// The block that the link at `pos` points to, and the position after the
/// link.
pub open spec fn target_at(bytes: Seq<u8>, pos: int) -> Option<(CidModel, int)> {
    match head_at(bytes, pos) {
        Some(h) => if h.major == 6 && h.arg == LINK_TAG {
            match link_at(bytes, h.next as int) {
                Some((raw, after)) => match link_target(raw) {
                    Some(id) => Some((id, after)),
                    None => None,
                },
                None => None,
            }
        } else {
            None
        },
        None => None,
    }
}

/// The binary form of the identifier is short enough for a link and is
/// read back as the identifier.
pub open spec fn travels(id: CidModel) -> bool {
    let binary = cid_binary(id.codec, id.hash, id.digest);
    binary.len() < MAX_LINK_LEN && link_target(binary) == Some(id)
}

/// An unsigned number that was written is read back.
pub proof fn lemma_uint_round_trip(prefix: Seq<u8>, v: u64, rest: Seq<u8>)
    requires
        prefix.len() + uint_item(v).len() + rest.len() <= usize::MAX,
    ensures
        uint_at(prefix + uint_item(v) + rest, prefix.len() as int) == Some(
            (v, (prefix.len() + uint_item(v).len()) as int),
        ),
{
    lemma_head_round_trip(prefix, 0, v, rest);
}

/// The head of an array that was written is read back.
pub proof fn lemma_array_round_trip(prefix: Seq<u8>, n: u64, rest: Seq<u8>)
    requires
        prefix.len() + head_bytes(4, n).len() + rest.len() <= usize::MAX,
    ensures
        array_at(prefix + head_bytes(4, n) + rest, prefix.len() as int) == Some(
            (n, (prefix.len() + head_bytes(4, n).len()) as int),
        ),
{
    lemma_head_round_trip(prefix, 4, n, rest);
}

/// A string that was written is read back.
pub proof fn lemma_string_round_trip(prefix: Seq<u8>, major: u8, data: Seq<u8>, rest: Seq<u8>)
    requires
        major == 2 || major == 3,
        prefix.len() + head_bytes(major, data.len() as u64).len() + data.len() + rest.len()
            <= usize::MAX,
    ensures
        string_at(
            prefix + (head_bytes(major, data.len() as u64) + data) + rest,
            prefix.len() as int,
            major,
        ) == Some(
            (
                data,
                (prefix.len() + head_bytes(major, data.len() as u64).len() + data.len()) as int,
            ),
        ),
{
    let head = head_bytes(major, data.len() as u64);
    let bytes = prefix + (head + data) + rest;
    assert(bytes =~= prefix + head + (data + rest));
    lemma_head_round_trip(prefix, major, data.len() as u64, data + rest);
    let next = (prefix.len() + head.len()) as int;
    assert(bytes.subrange(next, next + data.len()) =~= data);
}

/// A link that was written is read back, where its identifier travels.
#[verifier::rlimit(40)]
pub proof fn lemma_link_round_trip(prefix: Seq<u8>, id: CidModel, rest: Seq<u8>)
    requires
        travels(id),
        prefix.len() + link_item(id).len() + rest.len() <= usize::MAX,
    ensures
        target_at(prefix + link_item(id) + rest, prefix.len() as int) == Some(
            (id, (prefix.len() + link_item(id).len()) as int),
        ),
{
    let tag = head_bytes(6, LINK_TAG);
    let body = seq![0u8] + cid_binary(id.codec, id.hash, id.digest);
    let head = head_bytes(2, body.len() as u64);
    let bytes = prefix + link_item(id) + rest;
    assert(bytes =~= prefix + tag + (bytes_item(body) + rest));
    lemma_head_round_trip(prefix, 6, LINK_TAG, bytes_item(body) + rest);
    assert(bytes =~= (prefix + tag) + head + (body + rest));
    lemma_head_round_trip(prefix + tag, 2, body.len() as u64, body + rest);
    let next = (prefix.len() + tag.len() + head.len()) as int;
    assert(bytes[next] == body[0]);
    assert(bytes.subrange(next + 1, next + body.len()) =~= cid_binary(
        id.codec,
        id.hash,
        id.digest,
    ));
}

/// Two parts between a prefix and a rest can be grouped in other ways.
pub proof fn lemma_two_parts(p: Seq<u8>, x: Seq<u8>, y: Seq<u8>, r: Seq<u8>)
    ensures
        p + (x + y) + r == p + x + (y + r),
        p + (x + y) + r == (p + x) + y + r,
{
    assert(p + (x + y) + r =~= p + x + (y + r));
    assert(p + (x + y) + r =~= (p + x) + y + r);
}

/// Three parts between a prefix and a rest can be grouped in other ways.
pub proof fn lemma_three_parts(p: Seq<u8>, x: Seq<u8>, y: Seq<u8>, z: Seq<u8>, r: Seq<u8>)
    ensures
        p + (x + y + z) + r == p + x + (y + z + r),
        p + (x + y + z) + r == (p + x) + y + (z + r),
        p + (x + y + z) + r == (p + x + y) + z + r,
{
    assert(p + (x + y + z) + r =~= p + x + (y + z + r));
    assert(p + (x + y + z) + r =~= (p + x) + y + (z + r));
    assert(p + (x + y + z) + r =~= (p + x + y) + z + r);
}

/// Nothing before or after a string of bytes changes it.
pub proof fn lemma_no_parts(x: Seq<u8>)
    ensures
        Seq::<u8>::empty() + x == x,
        x + Seq::<u8>::empty() == x,
        Seq::<u8>::empty() + x + Seq::<u8>::empty() == x,
{
    assert(Seq::<u8>::empty() + x =~= x);
    assert(x + Seq::<u8>::empty() =~= x);
}

/// A head takes between one and nine bytes.
pub proof fn lemma_head_len(major: u8, arg: u64)
    ensures
        1 <= head_bytes(major, arg).len() <= 9,
{
    reveal(head_bytes);
}

/// The walk over the items of a block passes over a number.
pub proof fn lemma_uint_passed(prefix: Seq<u8>, v: u64, rest: Seq<u8>, remaining: nat)
    requires
        0 < remaining <= uint_item(v).len() + rest.len(),
        prefix.len() + uint_item(v).len() + rest.len() <= usize::MAX,
    ensures
        links_from(prefix + uint_item(v) + rest, prefix.len() as int, remaining) == links_from(
            prefix + uint_item(v) + rest,
            (prefix.len() + uint_item(v).len()) as int,
            (remaining - 1) as nat,
        ),
{
    reveal(links_from);
    lemma_head_round_trip(prefix, 0, v, rest);
    lemma_head_len(0, v);
}

/// The walk over the items of a block passes over a string.
pub proof fn lemma_string_passed(
    prefix: Seq<u8>,
    major: u8,
    data: Seq<u8>,
    rest: Seq<u8>,
    remaining: nat,
)
    requires
        major == 2 || major == 3,
        0 < remaining <= head_bytes(major, data.len() as u64).len() + data.len() + rest.len(),
        prefix.len() + head_bytes(major, data.len() as u64).len() + data.len() + rest.len()
            <= usize::MAX,
    ensures
        links_from(
            prefix + (head_bytes(major, data.len() as u64) + data) + rest,
            prefix.len() as int,
            remaining,
        ) == links_from(
            prefix + (head_bytes(major, data.len() as u64) + data) + rest,
            (prefix.len() + head_bytes(major, data.len() as u64).len() + data.len()) as int,
            (remaining - 1) as nat,
        ),
{
    reveal(links_from);
    let head = head_bytes(major, data.len() as u64);
    let bytes = prefix + (head + data) + rest;
    assert(bytes =~= prefix + head + (data + rest));
    lemma_head_round_trip(prefix, major, data.len() as u64, data + rest);
    lemma_head_len(major, data.len() as u64);
}

/// The walk over the items of a block enters an array: its items are
/// walked next.
pub proof fn lemma_array_entered(prefix: Seq<u8>, n: u64, rest: Seq<u8>, remaining: nat)
    requires
        0 < remaining <= head_bytes(4, n).len() + rest.len(),
        prefix.len() + head_bytes(4, n).len() + rest.len() <= usize::MAX,
    ensures
        links_from(prefix + head_bytes(4, n) + rest, prefix.len() as int, remaining) == links_from(
            prefix + head_bytes(4, n) + rest,
            (prefix.len() + head_bytes(4, n).len()) as int,
            (remaining - 1 + n) as nat,
        ),
{
    reveal(links_from);
    lemma_head_round_trip(prefix, 4, n, rest);
    lemma_head_len(4, n);
}

/// The parts of a link that was written are read back: its tag, and the
/// binary form of its identifier.
pub proof fn lemma_link_parts(prefix: Seq<u8>, id: CidModel, rest: Seq<u8>)
    requires
        cid_binary(id.codec, id.hash, id.digest).len() < MAX_LINK_LEN,
        prefix.len() + link_item(id).len() + rest.len() <= usize::MAX,
    ensures
        head_at(prefix + link_item(id) + rest, prefix.len() as int) == Some(
            Head {
                major: 6,
                arg: LINK_TAG,
                next: (prefix.len() + head_bytes(6, LINK_TAG).len()) as usize,
            },
        ),
        link_at(
            prefix + link_item(id) + rest,
            (prefix.len() + head_bytes(6, LINK_TAG).len()) as int,
        ) == Some(
            (
                cid_binary(id.codec, id.hash, id.digest),
                (prefix.len() + link_item(id).len()) as int,
            ),
        ),
{
    let tag = head_bytes(6, LINK_TAG);
    let body = seq![0u8] + cid_binary(id.codec, id.hash, id.digest);
    let head = head_bytes(2, body.len() as u64);
    let bytes = prefix + link_item(id) + rest;
    assert(bytes =~= prefix + tag + (bytes_item(body) + rest));
    lemma_head_round_trip(prefix, 6, LINK_TAG, bytes_item(body) + rest);
    assert(bytes =~= (prefix + tag) + head + (body + rest));
    lemma_head_round_trip(prefix + tag, 2, body.len() as u64, body + rest);
    let next = (prefix.len() + tag.len() + head.len()) as int;
    assert(bytes[next] == body[0]);
    assert(bytes.subrange(next + 1, next + body.len()) =~= cid_binary(
        id.codec,
        id.hash,
        id.digest,
    ));
}

/// The walk over the items of a block finds a link.
pub proof fn lemma_link_found(prefix: Seq<u8>, id: CidModel, rest: Seq<u8>, remaining: nat)
    requires
        cid_binary(id.codec, id.hash, id.digest).len() < MAX_LINK_LEN,
        0 < remaining <= link_item(id).len() + rest.len(),
        prefix.len() + link_item(id).len() + rest.len() <= usize::MAX,
    ensures
        links_from(prefix + link_item(id) + rest, prefix.len() as int, remaining) == prepend(
            cid_binary(id.codec, id.hash, id.digest),
            links_from(
                prefix + link_item(id) + rest,
                (prefix.len() + link_item(id).len()) as int,
                (remaining - 1) as nat,
            ),
        ),
{
    reveal(links_from);
    lemma_link_parts(prefix, id, rest);
    lemma_head_len(6, LINK_TAG);
    lemma_head_len(2, (1 + cid_binary(id.codec, id.hash, id.digest).len()) as u64);
}

/// Reads the unsigned number at `pos`.
pub fn read_uint(bytes: &[u8], pos: usize) -> (r: Option<(u64, usize)>)
    ensures
        match r {
            Some((v, next)) => uint_at(bytes@, pos as int) == Some((v, next as int)) && pos < next
                <= bytes@.len(),
            None => uint_at(bytes@, pos as int) is None,
        },
{
    let len: usize = bytes.len();
    match read_head(bytes, pos) {
        Some(h) => {
            proof {
                lemma_head_advances(bytes@, pos as int);
            }
            if h.major == 0 {
                Some((h.arg, h.next))
            } else {
                None
            }
        },
        None => None,
    }
}

/// Reads the head of the array at `pos`.
pub fn read_array(bytes: &[u8], pos: usize) -> (r: Option<(u64, usize)>)
    ensures
        match r {
            Some((n, next)) => array_at(bytes@, pos as int) == Some((n, next as int)) && pos < next
                <= bytes@.len(),
            None => array_at(bytes@, pos as int) is None,
        },
{
    let len: usize = bytes.len();
    match read_head(bytes, pos) {
        Some(h) => {
            proof {
                lemma_head_advances(bytes@, pos as int);
            }
            if h.major == 4 {
                Some((h.arg, h.next))
            } else {
                None
            }
        },
        None => None,
    }
}

/// Reads the string of major type `major` at `pos`.
pub fn read_string(bytes: &[u8], pos: usize, major: u8) -> (r: Option<(Vec<u8>, usize)>)
    ensures
        match r {
            Some((data, next)) => string_at(bytes@, pos as int, major) == Some(
                (data@, next as int),
            ) && pos < next <= bytes@.len(),
            None => string_at(bytes@, pos as int, major) is None,
        },
{
    let len: usize = bytes.len();
    match read_head(bytes, pos) {
        Some(h) => {
            proof {
                lemma_head_advances(bytes@, pos as int);
            }
            if h.major == major && h.arg <= (len - h.next) as u64 {
                let after: usize = h.next + h.arg as usize;
                Some((copy_range(bytes, h.next, after), after))
            } else {
                None
            }
        },
        None => None,
    }
}

/// Reads the link at `pos`.
pub fn read_target(bytes: &[u8], pos: usize) -> (r: Option<(ContentId, usize)>)
    ensures
        match r {
            Some((id, next)) => target_at(bytes@, pos as int) == Some((id@, next as int)) && pos
                < next <= bytes@.len(),
            None => target_at(bytes@, pos as int) is None,
        },
{
    let len: usize = bytes.len();
    match read_head(bytes, pos) {
        Some(h) => {
            proof {
                lemma_head_advances(bytes@, pos as int);
            }
            if h.major == 6 && h.arg == LINK_TAG {
                match read_link(bytes, h.next) {
                    Some((raw, after)) => {
                        proof {
                            lemma_head_advances(bytes@, h.next as int);
                        }
                        match read_link_target(raw.as_slice()) {
                            Some(id) => Some((id, after)),
                            None => None,
                        }
                    },
                    None => None,
                }
            } else {
                None
            }
        },
        None => None,
    }
}

} // verus!
