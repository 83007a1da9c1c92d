//! Reading the structure of DAG-CBOR blocks: item heads, and the links that
//! a block embeds.

use vstd::prelude::*;

verus! {

/// Tag that marks a byte string as a link to another block.
pub const LINK_TAG: u64 = 42;

/// Longest byte string accepted as a link.
pub const MAX_LINK_LEN: u64 = 100;

/// The head of one CBOR item: its major type, its argument, and the position
/// of the byte after the head.
#[derive(Clone, Copy, Debug, PartialEq, Eq, Structural)]
pub struct Head {
    pub major: u8,
    pub arg: u64,
    pub next: usize,
}

/// The big-endian number written in the `n` bytes from `start`.
pub open spec fn be_uint(bytes: Seq<u8>, start: int, n: nat) -> nat
    decreases n,
{
    if n == 0 {
        0
    } else {
        be_uint(bytes, start, (n - 1) as nat) * 256 + bytes[start + n - 1] as nat
    }
}

/// A head whose argument follows the first byte in `width` bytes. Outside
/// major type 7 the argument must need that width: at least `least`.
pub open spec fn wide_head(bytes: Seq<u8>, pos: int, major: u8, width: nat, least: nat) -> Option<
    Head,
> {
    if pos + 1 + width > bytes.len() {
        None
    } else {
        let arg = be_uint(bytes, pos + 1, width);
        if major != 7 && arg < least {
            None
        } else {
            Some(Head { major, arg: arg as u64, next: (pos + 1 + width) as usize })
        }
    }
}

/// The item head that starts at `pos`, if a well-formed one does.
pub open spec fn head_at(bytes: Seq<u8>, pos: int) -> Option<Head> {
    if pos < 0 || pos >= bytes.len() {
        None
    } else {
        let major = bytes[pos] / 32;
        let low = bytes[pos] % 32;
        if low < 24 {
            Some(Head { major, arg: low as u64, next: (pos + 1) as usize })
        } else if low == 24 {
            wide_head(bytes, pos, major, 1, 24)
        } else if low == 25 {
            wide_head(bytes, pos, major, 2, 0x100)
        } else if low == 26 {
            wide_head(bytes, pos, major, 4, 0x1_0000)
        } else if low == 27 {
            wide_head(bytes, pos, major, 8, 0x1_0000_0000)
        } else {
            None
        }
    }
}

/// A head lies inside the bytes and ends after it starts.
pub proof fn lemma_head_advances(bytes: Seq<u8>, pos: int)
    requires
        bytes.len() <= usize::MAX,
        head_at(bytes, pos) is Some,
    ensures
        0 <= pos < head_at(bytes, pos)->0.next <= bytes.len(),
        head_at(bytes, pos)->0.major < 8,
{
}

/// Reads the `width` bytes from `start` as a big-endian number.
fn read_be(bytes: &[u8], start: usize, width: usize) -> (v: u64)
    requires
        width == 1 || width == 2 || width == 4 || width == 8,
        start + width <= bytes@.len(),
    ensures
        v == be_uint(bytes@, start as int, width as nat),
{
    proof {
        reveal_with_fuel(be_uint, 9);
    }
    let len: usize = bytes.len();
    let mut v: u64 = 0;
    let mut k: usize = 0;
    while k < width
        invariant
            k <= width <= 8,
            len == bytes@.len(),
            start + width <= len,
            v == be_uint(bytes@, start as int, k as nat),
            k == 0 ==> v == 0,
            k >= 1 ==> v < 0x100 || k >= 2,
            k >= 2 ==> v < 0x1_0000 || k >= 3,
            k >= 3 ==> v < 0x100_0000 || k >= 4,
            k >= 4 ==> v < 0x1_0000_0000 || k >= 5,
            k >= 5 ==> v < 0x100_0000_0000 || k >= 6,
            k >= 6 ==> v < 0x1_0000_0000_0000 || k >= 7,
            k >= 7 ==> v < 0x100_0000_0000_0000 || k >= 8,
        decreases width - k,
    {
        v = v * 256 + bytes[start + k] as u64;
        k = k + 1;
    }
    v
}

/// Reads the item head at `pos`.
pub fn read_head(bytes: &[u8], pos: usize) -> (r: Option<Head>)
    ensures
        r == head_at(bytes@, pos as int),
{
    if pos >= bytes.len() {
        return None;
    }
    let major: u8 = bytes[pos] / 32;
    let low: u8 = bytes[pos] % 32;
    if low < 24 {
        return Some(Head { major, arg: low as u64, next: pos + 1 });
    }
    if low > 27 {
        return None;
    }
    let width: usize = if low == 24 {
        1
    } else if low == 25 {
        2
    } else if low == 26 {
        4
    } else {
        8
    };
    let least: u64 = if low == 24 {
        24
    } else if low == 25 {
        0x100
    } else if low == 26 {
        0x1_0000
    } else {
        0x1_0000_0000
    };
    if width > bytes.len() - pos - 1 {
        return None;
    }
    let arg = read_be(bytes, pos + 1, width);
    if major != 7 && arg < least {
        return None;
    }
    Some(Head { major, arg, next: pos + 1 + width })
}

/// The link written at `pos`: a byte string that starts with a zero byte,
/// and the position after it.
pub open spec fn link_at(bytes: Seq<u8>, pos: int) -> Option<(Seq<u8>, int)> {
    match head_at(bytes, pos) {
        None => None,
        Some(h) => {
            if h.major != 2 || h.arg < 1 || h.arg > MAX_LINK_LEN || h.arg > bytes.len() - h.next
                || bytes[h.next as int] != 0 {
                None
            } else {
                Some((bytes.subrange(h.next + 1, h.next + h.arg), h.next + h.arg))
            }
        },
    }
}

/// The links embedded in the `remaining` items that start at `pos`, in the
/// order in which they are written; `None` where the bytes are not that many
/// well-formed items.
#[verifier::opaque]
pub open spec fn links_from(bytes: Seq<u8>, pos: int, remaining: nat) -> Option<Seq<Seq<u8>>>
    decreases bytes.len() - pos,
{
    if remaining == 0 {
        Some(Seq::empty())
    } else if pos < 0 || remaining > bytes.len() - pos {
        None
    } else {
        match head_at(bytes, pos) {
            None => None,
            Some(h) => {
                if h.next <= pos {
                    None
                } else if h.major == 2 || h.major == 3 {
                    if h.arg > bytes.len() - h.next {
                        None
                    } else {
                        links_from(bytes, h.next + h.arg, (remaining - 1) as nat)
                    }
                } else if h.major == 4 {
                    links_from(bytes, h.next as int, (remaining - 1 + h.arg) as nat)
                } else if h.major == 5 {
                    links_from(bytes, h.next as int, (remaining - 1 + 2 * h.arg) as nat)
                } else if h.major == 6 {
                    if h.arg == LINK_TAG {
                        match link_at(bytes, h.next as int) {
                            None => None,
                            Some((link, after)) => {
                                if after <= pos {
                                    None
                                } else {
                                    prepend(link, links_from(bytes, after, (remaining - 1) as nat))
                                }
                            },
                        }
                    } else {
                        links_from(bytes, h.next as int, remaining)
                    }
                } else {
                    links_from(bytes, h.next as int, (remaining - 1) as nat)
                }
            },
        }
    }
}

/// `link` put before the links of the rest, where the rest is well formed.
pub open spec fn prepend(link: Seq<u8>, rest: Option<Seq<Seq<u8>>>) -> Option<Seq<Seq<u8>>> {
    match rest {
        None => None,
        Some(links) => Some(seq![link] + links),
    }
}

/// `found` put before the links of the rest, where the rest is well formed.
pub open spec fn prepend_all(found: Seq<Seq<u8>>, rest: Option<Seq<Seq<u8>>>) -> Option<
    Seq<Seq<u8>>,
> {
    match rest {
        None => None,
        Some(links) => Some(found + links),
    }
}

/// The links that a block embeds: those of the one item that it holds.
pub open spec fn links_of(bytes: Seq<u8>) -> Option<Seq<Seq<u8>>> {
    links_from(bytes, 0, 1)
}

/// The byte strings held in a list of vectors.
pub open spec fn byte_strings(list: Seq<Vec<u8>>) -> Seq<Seq<u8>> {
    Seq::new(list.len(), |i: int| list[i]@)
}

/// The byte strings of an optional list of vectors.
pub open spec fn found_links(found: Option<Vec<Vec<u8>>>) -> Option<Seq<Seq<u8>>> {
    match found {
        Some(list) => Some(byte_strings(list@)),
        None => None,
    }
}

/// Copies the bytes from `from` up to `to`.
pub fn copy_range(bytes: &[u8], from: usize, to: usize) -> (out: Vec<u8>)
    requires
        from <= to <= bytes@.len(),
    ensures
        out@ == bytes@.subrange(from as int, to as int),
{
    let mut out: Vec<u8> = Vec::new();
    let mut i: usize = from;
    while i < to
        invariant
            from <= i <= to <= bytes@.len(),
            out@ == bytes@.subrange(from as int, i as int),
        decreases to - i,
    {
        out.push(bytes[i]);
        i = i + 1;
        assert(out@ =~= bytes@.subrange(from as int, i as int));
    }
    out
}

/// Reads the link written at `pos`.
pub fn read_link(bytes: &[u8], pos: usize) -> (r: Option<(Vec<u8>, usize)>)
    ensures
        match r {
            Some((link, after)) => link_at(bytes@, pos as int) == Some((link@, after as int)),
            None => link_at(bytes@, pos as int) is None,
        },
{
    let len: usize = bytes.len();
    match read_head(bytes, pos) {
        None => None,
        Some(h) => {
            proof {
                lemma_head_advances(bytes@, pos as int);
            }
            if h.major != 2 || h.arg < 1 || h.arg > MAX_LINK_LEN || h.arg > (bytes.len()
                - h.next) as u64 || bytes[h.next] != 0 {
                None
            } else {
                let after: usize = h.next + h.arg as usize;
                Some((copy_range(bytes, h.next + 1, after), after))
            }
        },
    }
}

/// Walks the items of a block and collects the links that it embeds.
pub fn scan_links(bytes: &[u8]) -> (r: Option<Vec<Vec<u8>>>)
    ensures
        found_links(r) == links_of(bytes@),
{
    let len: usize = bytes.len();
    let mut found: Vec<Vec<u8>> = Vec::new();
    let mut pos: usize = 0;
    let mut remaining: usize = 1;
    assert(byte_strings(found@) + Seq::<Seq<u8>>::empty() =~= byte_strings(found@));
    while remaining > 0
        invariant
            len == bytes@.len(),
            pos <= len,
            links_of(bytes@) == prepend_all(
                byte_strings(found@),
                links_from(bytes@, pos as int, remaining as nat),
            ),
        decreases len - pos,
    {
        proof {
            reveal_with_fuel(links_from, 2);
        }
        if remaining > len - pos {
            return None;
        }
        let h = match read_head(bytes, pos) {
            None => {
                return None;
            },
            Some(h) => h,
        };
        proof {
            lemma_head_advances(bytes@, pos as int);
        }
        let room: usize = len - h.next;
        if h.major == 2 || h.major == 3 {
            if h.arg > room as u64 {
                return None;
            }
            pos = h.next + h.arg as usize;
            remaining = remaining - 1;
        } else if h.major == 4 {
            if h.arg > room as u64 {
                return None;
            }
            if remaining - 1 > room - h.arg as usize {
                return None;
            }
            pos = h.next;
            remaining = remaining - 1 + h.arg as usize;
        } else if h.major == 5 {
            if h.arg > room as u64 {
                return None;
            }
            if h.arg as usize > room - h.arg as usize {
                return None;
            }
            if remaining - 1 > room - 2 * (h.arg as usize) {
                return None;
            }
            pos = h.next;
            remaining = remaining - 1 + 2 * (h.arg as usize);
        } else if h.major == 6 {
            if h.arg == LINK_TAG {
                match read_link(bytes, h.next) {
                    None => {
                        return None;
                    },
                    Some((link, after)) => {
                        proof {
                            lemma_head_advances(bytes@, h.next as int);
                            let rest = links_from(bytes@, after as int, (remaining - 1) as nat);
                            if rest is Some {
                                assert(byte_strings(found@.push(link)) + rest->0 =~= byte_strings(
                                    found@,
                                ) + (seq![link@] + rest->0));
                            }
                        }
                        found.push(link);
                        pos = after;
                        remaining = remaining - 1;
                    },
                }
            } else {
                pos = h.next;
            }
        } else {
            pos = h.next;
            remaining = remaining - 1;
        }
    }
    proof {
        reveal(links_from);
        assert(byte_strings(found@) + Seq::<Seq<u8>>::empty() =~= byte_strings(found@));
    }
    Some(found)
}

} // verus!
