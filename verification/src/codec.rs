//! Fixed-size page encodings.  Every page kind — header, leaf, internal —
//! encodes to exactly 4096 bytes, reproducing the layout a disk-backed
//! index would use: a type tag byte at offset 0 of node pages (0 internal,
//! 1 leaf), a 16-bit little-endian count at offset 8, the key array at
//! offset 16, for internal nodes the child-offset array right after the full
//! key array, and zero padding everywhere else.

use vstd::prelude::*;

use crate::internal::{InternalNode, INTERNAL_NODE_MAX_LEN};
use crate::leaf::{LeafNode, LEAF_NODE_MAX_LEN};
use crate::page::{Header, PageOffset};

verus! {

/// The size of every encoded page.
pub const PAGE_SIZE: usize = 4096;

pub open spec fn zeros(n: nat) -> Seq<u8> {
    Seq::new(n, |i: int| 0u8)
}

/// The bytes of absent child slots: each is the reserved NULL offset,
/// `0xFFFFFFFF`, so the run is solid `0xFF` bytes.
pub open spec fn nulls(n: nat) -> Seq<u8> {
    Seq::new(n, |i: int| 0xFFu8)
}

/// The `n`-byte little-endian encoding of (the low `n` bytes of) `v`.
pub open spec fn u128_le_bytes(v: u128, n: nat) -> Seq<u8>
    decreases n,
{
    if n == 0 {
        Seq::empty()
    } else {
        seq![(v % 256) as u8] + u128_le_bytes(v / 256, (n - 1) as nat)
    }
}

pub open spec fn u16_le_bytes(v: u16) -> Seq<u8> {
    seq![(v % 256) as u8, (v / 256) as u8]
}

pub open spec fn u32_le_bytes(v: u32) -> Seq<u8> {
    seq![
        (v % 256) as u8,
        ((v / 256) % 256) as u8,
        ((v / 65536) % 256) as u8,
        ((v / 16777216) % 256) as u8,
    ]
}

/// The keys of a node, each as 16 little-endian bytes, in order.
pub open spec fn ids_bytes(s: Seq<u128>) -> Seq<u8>
    decreases s.len(),
{
    if s.len() == 0 {
        Seq::empty()
    } else {
        u128_le_bytes(s[0], 16) + ids_bytes(s.drop_first())
    }
}

/// The child offsets of an internal node, each as 4 little-endian bytes.
pub open spec fn offsets_bytes(s: Seq<u32>) -> Seq<u8>
    decreases s.len(),
{
    if s.len() == 0 {
        Seq::empty()
    } else {
        u32_le_bytes(s[0]) + offsets_bytes(s.drop_first())
    }
}

/// A header page: the root offset at the start, zeros to the end.
pub open spec fn header_encoding(h: Header) -> Seq<u8> {
    u32_le_bytes(h.root_offset.value) + zeros((PAGE_SIZE - 4) as nat)
}

/// A leaf page: tag byte 1, count at offset 8, keys from offset 16, the
/// unused remainder of the key array zeroed.
pub open spec fn leaf_encoding(l: LeafNode) -> Seq<u8> {
    seq![1u8] + zeros(7) + u16_le_bytes(l.ids@.len() as u16) + zeros(6) + ids_bytes(l.ids@)
        + zeros((16 * (LEAF_NODE_MAX_LEN - l.ids@.len())) as nat)
}

/// An internal page: tag byte 0, count at offset 8, the full-capacity key
/// array from offset 16 (live keys, then zeros), the full-capacity child
/// array after it (live offsets, then NULL slots), then tail padding.
pub open spec fn internal_encoding(nd: InternalNode) -> Seq<u8> {
    seq![0u8] + zeros(7) + u16_le_bytes(nd.ids@.len() as u16) + zeros(6) + ids_bytes(nd.ids@)
        + zeros((16 * (INTERNAL_NODE_MAX_LEN - nd.ids@.len())) as nat) + offsets_bytes(
        nd.child_offsets@.map_values(|p: crate::page::PageOffset| p.value),
    ) + nulls((4 * (INTERNAL_NODE_MAX_LEN + 1 - nd.child_offsets@.len())) as nat) + zeros(16)
}

/// 256 to the `n`: the number of values `n` little-endian bytes can hold.
pub open spec fn pow256(n: nat) -> int
    decreases n,
{
    if n == 0 {
        1
    } else {
        256 * pow256((n - 1) as nat)
    }
}

/// The value a little-endian byte sequence denotes.
pub open spec fn le_val(s: Seq<u8>) -> int
    decreases s.len(),
{
    if s.len() == 0 {
        0
    } else {
        s[0] + 256 * le_val(s.drop_first())
    }
}

proof fn lemma_pow256_values()
    ensures
        pow256(2) == 0x10000,
        pow256(4) == 0x100000000,
        pow256(16) == 0x100000000000000000000000000000000,
{
    reveal_with_fuel(pow256, 17);
}

/// Reading back the little-endian bytes of a value below `pow256(n)`
/// returns the value: the encoding loses nothing.
proof fn lemma_le_val_inverts(v: u128, n: nat)
    requires
        v < pow256(n),
    ensures
        le_val(u128_le_bytes(v, n)) == v,
    decreases n,
{
    if n > 0 {
        vstd::arithmetic::div_mod::lemma_multiply_divide_lt(
            v as int,
            256,
            pow256((n - 1) as nat),
        );
        lemma_le_val_inverts(v / 256, (n - 1) as nat);
        let s = u128_le_bytes(v, n);
        assert(s.drop_first() =~= u128_le_bytes(v / 256, (n - 1) as nat));
        assert(le_val(s) == (v % 256) + 256 * le_val(u128_le_bytes(v / 256, (n - 1) as nat)));
    }
}

/// The 4-byte encoding of a `u32` agrees with the general little-endian
/// encoding of the same value.
proof fn lemma_u32_le_bytes_agree(v: u32)
    ensures
        u32_le_bytes(v) == u128_le_bytes(v as u128, 4),
{
    let x = v as u128;
    vstd::arithmetic::div_mod::lemma_div_denominator(x as int, 256, 256);
    vstd::arithmetic::div_mod::lemma_div_denominator(x as int, 65536, 256);
    assert(x / 256 / 256 == x / 65536);
    assert(x / 65536 / 256 == x / 16777216);
    assert(u128_le_bytes(x, 4) == seq![(x % 256) as u8] + u128_le_bytes(x / 256, 3));
    assert(u128_le_bytes(x / 256, 3) == seq![((x / 256) % 256) as u8] + u128_le_bytes(
        x / 65536,
        2,
    ));
    assert(u128_le_bytes(x / 65536, 2) == seq![((x / 65536) % 256) as u8] + u128_le_bytes(
        x / 16777216,
        1,
    ));
    assert(u128_le_bytes(x / 16777216, 1) == seq![((x / 16777216) % 256) as u8] + u128_le_bytes(
        x / 16777216 / 256,
        0,
    ));
    assert(u128_le_bytes(x / 16777216 / 256, 0) == Seq::<u8>::empty());
    assert(u32_le_bytes(v) =~= u128_le_bytes(x, 4));
}

/// Within the flat key-array bytes, the `i`th 16-byte slot holds exactly
/// the `i`th key's encoding.
proof fn lemma_ids_bytes_segment(s: Seq<u128>, i: int)
    requires
        0 <= i < s.len(),
    ensures
        ids_bytes(s).subrange(16 * i, 16 * i + 16) == u128_le_bytes(s[i], 16),
    decreases i,
{
    lemma_ids_bytes_len(s);
    lemma_u128_le_bytes_len(s[0], 16);
    lemma_ids_bytes_len(s.drop_first());
    if i == 0 {
        assert(ids_bytes(s).subrange(0, 16) =~= u128_le_bytes(s[0], 16));
    } else {
        lemma_ids_bytes_segment(s.drop_first(), i - 1);
        assert(ids_bytes(s).subrange(16 * i, 16 * i + 16) =~= ids_bytes(s.drop_first()).subrange(
            16 * (i - 1),
            16 * (i - 1) + 16,
        ));
    }
}

/// Within the flat child-offset bytes, the `j`th 4-byte slot holds exactly
/// the `j`th offset's encoding.
proof fn lemma_offsets_bytes_segment(s: Seq<u32>, j: int)
    requires
        0 <= j < s.len(),
    ensures
        offsets_bytes(s).subrange(4 * j, 4 * j + 4) == u32_le_bytes(s[j]),
    decreases j,
{
    lemma_offsets_bytes_len(s);
    lemma_offsets_bytes_len(s.drop_first());
    if j == 0 {
        assert(offsets_bytes(s).subrange(0, 4) =~= u32_le_bytes(s[0]));
    } else {
        lemma_offsets_bytes_segment(s.drop_first(), j - 1);
        assert(offsets_bytes(s).subrange(4 * j, 4 * j + 4) =~= offsets_bytes(
            s.drop_first(),
        ).subrange(4 * (j - 1), 4 * (j - 1) + 4));
    }
}

proof fn lemma_u128_le_bytes_len(v: u128, n: nat)
    ensures
        u128_le_bytes(v, n).len() == n,
    decreases n,
{
    if n > 0 {
        lemma_u128_le_bytes_len(v / 256, (n - 1) as nat);
    }
}

proof fn lemma_ids_bytes_len(s: Seq<u128>)
    ensures
        ids_bytes(s).len() == 16 * s.len(),
    decreases s.len(),
{
    if s.len() > 0 {
        lemma_u128_le_bytes_len(s[0], 16);
        lemma_ids_bytes_len(s.drop_first());
    }
}

proof fn lemma_offsets_bytes_len(s: Seq<u32>)
    ensures
        offsets_bytes(s).len() == 4 * s.len(),
    decreases s.len(),
{
    if s.len() > 0 {
        lemma_offsets_bytes_len(s.drop_first());
    }
}

proof fn lemma_ids_bytes_push(s: Seq<u128>, v: u128)
    ensures
        ids_bytes(s.push(v)) == ids_bytes(s) + u128_le_bytes(v, 16),
    decreases s.len(),
{
    let t = s.push(v);
    lemma_u128_le_bytes_len(v, 16);
    if s.len() == 0 {
        assert(t.drop_first() =~= Seq::<u128>::empty());
        assert(ids_bytes(Seq::<u128>::empty()) == Seq::<u8>::empty());
        assert(t[0] == v);
        assert(ids_bytes(t) == u128_le_bytes(t[0], 16) + ids_bytes(t.drop_first()));
        assert(ids_bytes(s) == Seq::<u8>::empty());
        assert(ids_bytes(t) =~= ids_bytes(s) + u128_le_bytes(v, 16));
    } else {
        assert(t.drop_first() =~= s.drop_first().push(v));
        lemma_ids_bytes_push(s.drop_first(), v);
        lemma_u128_le_bytes_len(s[0], 16);
        assert(t[0] == s[0]);
        assert(ids_bytes(t) == u128_le_bytes(t[0], 16) + ids_bytes(t.drop_first()));
        assert(ids_bytes(s) == u128_le_bytes(s[0], 16) + ids_bytes(s.drop_first()));
        assert(ids_bytes(t) =~= ids_bytes(s) + u128_le_bytes(v, 16));
    }
}

proof fn lemma_offsets_bytes_push(s: Seq<u32>, v: u32)
    ensures
        offsets_bytes(s.push(v)) == offsets_bytes(s) + u32_le_bytes(v),
    decreases s.len(),
{
    let t = s.push(v);
    if s.len() == 0 {
        assert(t.drop_first() =~= Seq::<u32>::empty());
        assert(offsets_bytes(Seq::<u32>::empty()) == Seq::<u8>::empty());
        assert(t[0] == v);
        assert(offsets_bytes(t) == u32_le_bytes(t[0]) + offsets_bytes(t.drop_first()));
        assert(offsets_bytes(s) == Seq::<u8>::empty());
        assert(offsets_bytes(t) =~= offsets_bytes(s) + u32_le_bytes(v));
    } else {
        assert(t.drop_first() =~= s.drop_first().push(v));
        lemma_offsets_bytes_push(s.drop_first(), v);
        assert(t[0] == s[0]);
        assert(offsets_bytes(t) == u32_le_bytes(t[0]) + offsets_bytes(t.drop_first()));
        assert(offsets_bytes(s) == u32_le_bytes(s[0]) + offsets_bytes(s.drop_first()));
        assert(offsets_bytes(t) =~= offsets_bytes(s) + u32_le_bytes(v));
    }
}

/// Append `n` zero bytes.
fn push_zeros(buf: &mut Vec<u8>, n: usize)
    ensures
        final(buf)@ == old(buf)@ + zeros(n as nat),
    decreases n,
{
    let mut k: usize = 0;
    while k < n
        invariant
            0 <= k <= n,
            buf@ == old(buf)@ + zeros(k as nat),
        decreases n - k,
    {
        buf.push(0u8);
        proof {
            assert(buf@ =~= old(buf)@ + zeros((k + 1) as nat));
        }
        k = k + 1;
    }
    proof {
        assert(buf@ =~= old(buf)@ + zeros(n as nat));
    }
}

/// Append `n` bytes of `0xFF`: the NULL fill of absent child slots.
fn push_nulls(buf: &mut Vec<u8>, n: usize)
    ensures
        final(buf)@ == old(buf)@ + nulls(n as nat),
    decreases n,
{
    let mut k: usize = 0;
    while k < n
        invariant
            0 <= k <= n,
            buf@ == old(buf)@ + nulls(k as nat),
        decreases n - k,
    {
        buf.push(0xFFu8);
        proof {
            assert(buf@ =~= old(buf)@ + nulls((k + 1) as nat));
        }
        k = k + 1;
    }
    proof {
        assert(buf@ =~= old(buf)@ + nulls(n as nat));
    }
}

/// Append the 16-byte little-endian form of `v`.
fn push_u128_le(buf: &mut Vec<u8>, v: u128)
    ensures
        final(buf)@ == old(buf)@ + u128_le_bytes(v, 16),
{
    let mut x = v;
    let mut k: usize = 0;
    while k < 16
        invariant
            0 <= k <= 16,
            old(buf)@ + u128_le_bytes(v, 16) == buf@ + u128_le_bytes(x, (16 - k) as nat),
        decreases 16 - k,
    {
        buf.push((x % 256) as u8);
        proof {
            assert(u128_le_bytes(x, (16 - k) as nat) == seq![(x % 256) as u8] + u128_le_bytes(
                x / 256,
                (16 - (k + 1)) as nat,
            ));
            assert(old(buf)@ + u128_le_bytes(v, 16) =~= buf@ + u128_le_bytes(
                x / 256,
                (16 - (k + 1)) as nat,
            ));
        }
        x = x / 256;
        k = k + 1;
    }
    proof {
        assert(u128_le_bytes(x, 0) =~= Seq::<u8>::empty());
        assert(final(buf)@ =~= old(buf)@ + u128_le_bytes(v, 16));
    }
}

/// Append the 4-byte little-endian form of `v`.
fn push_u32_le(buf: &mut Vec<u8>, v: u32)
    ensures
        final(buf)@ == old(buf)@ + u32_le_bytes(v),
{
    buf.push((v % 256) as u8);
    buf.push(((v / 256) % 256) as u8);
    buf.push(((v / 65536) % 256) as u8);
    buf.push(((v / 16777216) % 256) as u8);
    proof {
        assert(final(buf)@ =~= old(buf)@ + u32_le_bytes(v));
    }
}

/// Read the value of the 16 little-endian bytes at `at`.
fn read_u128_le(bytes: &Vec<u8>, at: usize) -> (v: u128)
    requires
        at + 16 <= bytes@.len(),
    ensures
        v as int == le_val(bytes@.subrange(at as int, at + 16)),
{
    proof {
        lemma_pow256_values();
    }
    let n = bytes.len();
    let mut v: u128 = 0;
    let mut k: usize = 16;
    while k > 0
        invariant
            at + 16 <= n == bytes@.len(),
            0 <= k <= 16,
            v as int == le_val(bytes@.subrange(at + k, at + 16)),
            v < pow256((16 - k) as nat),
            pow256(16) == 0x100000000000000000000000000000000,
        decreases k,
    {
        k = k - 1;
        proof {
            let tail = bytes@.subrange(at + k, at + 16);
            assert(tail.drop_first() =~= bytes@.subrange(at + k + 1, at + 16));
            assert(le_val(tail) == tail[0] + 256 * le_val(tail.drop_first()));
            assert(pow256((16 - k) as nat) == 256 * pow256((16 - k - 1) as nat));
            lemma_pow256_monotone((16 - k) as nat, 16);
            assert(v < pow256((16 - k - 1) as nat));
            assert((v as int) * 256 + 255 < pow256(16));
        }
        v = v * 256 + (bytes[at + k] as u128);
    }
    proof {
        assert(bytes@.subrange(at as int, at + 16) == bytes@.subrange(at + 0, at + 16));
    }
    v
}

proof fn lemma_pow256_monotone(m: nat, n: nat)
    requires
        m <= n,
    ensures
        pow256(m) <= pow256(n),
        pow256(m) >= 1,
    decreases n,
{
    if m < n {
        lemma_pow256_monotone(m, (n - 1) as nat);
    } else {
        if n > 0 {
            lemma_pow256_monotone((m - 1) as nat, (n - 1) as nat);
        }
    }
}

/// Read the value of the 4 little-endian bytes at `at`.
fn read_u32_le(bytes: &Vec<u8>, at: usize) -> (v: u32)
    requires
        at + 4 <= bytes@.len(),
    ensures
        v as int == le_val(bytes@.subrange(at as int, at + 4)),
{
    proof {
        lemma_pow256_values();
    }
    let n = bytes.len();
    let mut v: u32 = 0;
    let mut k: usize = 4;
    while k > 0
        invariant
            at + 4 <= n == bytes@.len(),
            0 <= k <= 4,
            v as int == le_val(bytes@.subrange(at + k, at + 4)),
            v < pow256((4 - k) as nat),
            pow256(4) == 0x100000000,
        decreases k,
    {
        k = k - 1;
        proof {
            let tail = bytes@.subrange(at + k, at + 4);
            assert(tail.drop_first() =~= bytes@.subrange(at + k + 1, at + 4));
            assert(le_val(tail) == tail[0] + 256 * le_val(tail.drop_first()));
            assert(pow256((4 - k) as nat) == 256 * pow256((4 - k - 1) as nat));
            lemma_pow256_monotone((4 - k) as nat, 4);
            assert(v < pow256((4 - k - 1) as nat));
            assert((v as int) * 256 + 255 < pow256(4));
        }
        v = v * 256 + (bytes[at + k] as u32);
    }
    proof {
        assert(bytes@.subrange(at as int, at + 4) == bytes@.subrange(at + 0, at + 4));
    }
    v
}

/// Encode a header page; the result is exactly `PAGE_SIZE` bytes.
pub fn encode_header(h: &Header) -> (r: Vec<u8>)
    ensures
        r@ == header_encoding(*h),
        r@.len() == PAGE_SIZE,
{
    let mut buf: Vec<u8> = Vec::new();
    push_u32_le(&mut buf, h.root_offset.value);
    push_zeros(&mut buf, PAGE_SIZE - 4);
    proof {
        assert(buf@ =~= header_encoding(*h));
    }
    buf
}

/// Encode a leaf page; the result is exactly `PAGE_SIZE` bytes.
pub fn encode_leaf(l: &LeafNode) -> (r: Vec<u8>)
    requires
        l.ids@.len() <= LEAF_NODE_MAX_LEN,
    ensures
        r@ == leaf_encoding(*l),
        r@.len() == PAGE_SIZE,
{
    let mut buf: Vec<u8> = Vec::new();
    buf.push(1u8);
    push_zeros(&mut buf, 7);
    let count = l.ids.len() as u16;
    buf.push((count % 256) as u8);
    buf.push((count / 256) as u8);
    push_zeros(&mut buf, 6);
    proof {
        assert(buf@ =~= seq![1u8] + zeros(7) + u16_le_bytes(l.ids@.len() as u16) + zeros(6));
    }
    let ghost head = buf@;

    let n = l.ids.len();
    let mut i: usize = 0;
    while i < n
        invariant
            0 <= i <= n == l.ids@.len(),
            buf@ == head + ids_bytes(l.ids@.subrange(0, i as int)),
        decreases n - i,
    {
        proof {
            lemma_ids_bytes_push(l.ids@.subrange(0, i as int), l.ids@[i as int]);
            assert(l.ids@.subrange(0, i + 1) =~= l.ids@.subrange(0, i as int).push(
                l.ids@[i as int],
            ));
        }
        push_u128_le(&mut buf, l.ids[i]);
        i = i + 1;
    }
    proof {
        assert(l.ids@.subrange(0, n as int) =~= l.ids@);
    }
    push_zeros(&mut buf, 16 * (LEAF_NODE_MAX_LEN - n));
    proof {
        assert(buf@ =~= leaf_encoding(*l));
        lemma_ids_bytes_len(l.ids@);
    }
    buf
}

/// Encode an internal page; the result is exactly `PAGE_SIZE` bytes.
pub fn encode_internal(nd: &InternalNode) -> (r: Vec<u8>)
    requires
        nd.ids@.len() <= INTERNAL_NODE_MAX_LEN,
        nd.child_offsets@.len() == nd.ids@.len() + 1,
    ensures
        r@ == internal_encoding(*nd),
        r@.len() == PAGE_SIZE,
{
    let mut buf: Vec<u8> = Vec::new();
    buf.push(0u8);
    push_zeros(&mut buf, 7);
    let count = nd.ids.len() as u16;
    buf.push((count % 256) as u8);
    buf.push((count / 256) as u8);
    push_zeros(&mut buf, 6);
    proof {
        assert(buf@ =~= seq![0u8] + zeros(7) + u16_le_bytes(nd.ids@.len() as u16) + zeros(6));
    }
    let ghost head = buf@;

    let n = nd.ids.len();
    let mut i: usize = 0;
    while i < n
        invariant
            0 <= i <= n == nd.ids@.len(),
            buf@ == head + ids_bytes(nd.ids@.subrange(0, i as int)),
        decreases n - i,
    {
        proof {
            lemma_ids_bytes_push(nd.ids@.subrange(0, i as int), nd.ids@[i as int]);
            assert(nd.ids@.subrange(0, i + 1) =~= nd.ids@.subrange(0, i as int).push(
                nd.ids@[i as int],
            ));
        }
        push_u128_le(&mut buf, nd.ids[i]);
        i = i + 1;
    }
    proof {
        assert(nd.ids@.subrange(0, n as int) =~= nd.ids@);
    }
    push_zeros(&mut buf, 16 * (INTERNAL_NODE_MAX_LEN - n));
    let ghost mid = buf@;
    let ghost offs = nd.child_offsets@.map_values(|p: crate::page::PageOffset| p.value);

    let m = nd.child_offsets.len();
    let mut j: usize = 0;
    while j < m
        invariant
            0 <= j <= m == nd.child_offsets@.len(),
            offs == nd.child_offsets@.map_values(|p: crate::page::PageOffset| p.value),
            offs.len() == m,
            buf@ == mid + offsets_bytes(offs.subrange(0, j as int)),
        decreases m - j,
    {
        proof {
            lemma_offsets_bytes_push(offs.subrange(0, j as int), offs[j as int]);
            assert(offs.subrange(0, j + 1) =~= offs.subrange(0, j as int).push(offs[j as int]));
        }
        push_u32_le(&mut buf, nd.child_offsets[j].value);
        proof {
            assert(offs[j as int] == nd.child_offsets@[j as int].value);
        }
        j = j + 1;
    }
    proof {
        assert(offs.subrange(0, m as int) =~= offs);
    }
    push_nulls(&mut buf, 4 * (INTERNAL_NODE_MAX_LEN + 1 - m));
    push_zeros(&mut buf, 16);
    proof {
        assert(buf@ =~= internal_encoding(*nd));
        lemma_ids_bytes_len(nd.ids@);
        lemma_offsets_bytes_len(offs);
    }
    buf
}

proof fn lemma_header_encoding_facts(h: Header, b: Seq<u8>)
    requires
        b == header_encoding(h),
    ensures
        b.len() == PAGE_SIZE,
        b.subrange(0, 4) == u32_le_bytes(h.root_offset.value),
{
    assert(b.subrange(0, 4) =~= u32_le_bytes(h.root_offset.value));
}

/// What each interesting region of a leaf encoding holds: the tag, the two
/// count bytes, and one 16-byte slot per stored key.
proof fn lemma_leaf_encoding_facts(l: LeafNode, b: Seq<u8>)
    requires
        l.ids@.len() <= LEAF_NODE_MAX_LEN,
        b == leaf_encoding(l),
    ensures
        b.len() == PAGE_SIZE,
        b[0] == 1,
        b[8] as int == l.ids@.len(),
        b[9] as int == 0,
        forall|j: int|
            0 <= j < l.ids@.len() ==> b.subrange(16 + 16 * j, 32 + 16 * j) == u128_le_bytes(
                #[trigger] l.ids@[j],
                16,
            ),
{
    let len = l.ids@.len() as int;
    lemma_ids_bytes_len(l.ids@);
    assert(b[8] == u16_le_bytes(l.ids@.len() as u16)[0]);
    assert(b[9] == u16_le_bytes(l.ids@.len() as u16)[1]);
    assert forall|j: int| 0 <= j < len implies b.subrange(16 + 16 * j, 32 + 16 * j)
        == u128_le_bytes(#[trigger] l.ids@[j], 16) by {
        lemma_ids_bytes_segment(l.ids@, j);
        assert(b.subrange(16 + 16 * j, 32 + 16 * j) =~= ids_bytes(l.ids@).subrange(
            16 * j,
            16 * j + 16,
        ));
    }
}

/// What each interesting region of an internal encoding holds: the tag, the
/// two count bytes, one 16-byte slot per key, and — after the full key
/// array, at byte 3264 — one 4-byte slot per child offset.
proof fn lemma_internal_encoding_facts(nd: InternalNode, b: Seq<u8>)
    requires
        nd.ids@.len() <= INTERNAL_NODE_MAX_LEN,
        nd.child_offsets@.len() == nd.ids@.len() + 1,
        b == internal_encoding(nd),
    ensures
        b.len() == PAGE_SIZE,
        b[0] == 0,
        b[8] as int == nd.ids@.len(),
        b[9] as int == 0,
        forall|j: int|
            0 <= j < nd.ids@.len() ==> b.subrange(16 + 16 * j, 32 + 16 * j) == u128_le_bytes(
                #[trigger] nd.ids@[j],
                16,
            ),
        forall|j: int|
            0 <= j < nd.child_offsets@.len() ==> b.subrange(3264 + 4 * j, 3268 + 4 * j)
                == u32_le_bytes((#[trigger] nd.child_offsets@[j]).value),
{
    let len = nd.ids@.len() as int;
    let offs = nd.child_offsets@.map_values(|p: crate::page::PageOffset| p.value);
    lemma_ids_bytes_len(nd.ids@);
    lemma_offsets_bytes_len(offs);
    assert(b[8] == u16_le_bytes(nd.ids@.len() as u16)[0]);
    assert(b[9] == u16_le_bytes(nd.ids@.len() as u16)[1]);
    assert forall|j: int| 0 <= j < len implies b.subrange(16 + 16 * j, 32 + 16 * j)
        == u128_le_bytes(#[trigger] nd.ids@[j], 16) by {
        lemma_ids_bytes_segment(nd.ids@, j);
        assert(b.subrange(16 + 16 * j, 32 + 16 * j) =~= ids_bytes(nd.ids@).subrange(
            16 * j,
            16 * j + 16,
        ));
    }
    assert forall|j: int| 0 <= j < nd.child_offsets@.len() implies b.subrange(
        3264 + 4 * j,
        3268 + 4 * j,
    ) == u32_le_bytes((#[trigger] nd.child_offsets@[j]).value) by {
        lemma_offsets_bytes_segment(offs, j);
        assert(offs[j] == nd.child_offsets@[j].value);
        assert(b.subrange(3264 + 4 * j, 3268 + 4 * j) =~= offsets_bytes(offs).subrange(
            4 * j,
            4 * j + 4,
        ));
    }
}

/// Decode a header page.  Decoding what `encode_header` produced returns
/// the header it was given.
pub fn decode_header(bytes: &Vec<u8>) -> (r: Option<Header>)
    ensures
        forall|h: Header| bytes@ == #[trigger] header_encoding(h) ==> r == Some(h),
{
    if bytes.len() != PAGE_SIZE {
        proof {
            assert forall|h: Header| bytes@ != #[trigger] header_encoding(h) by {
                lemma_header_encoding_facts(h, header_encoding(h));
            }
        }
        return None;
    }
    let value = read_u32_le(bytes, 0);
    proof {
        assert forall|h: Header| bytes@ == #[trigger] header_encoding(h) implies Some(
            Header { root_offset: PageOffset { value } },
        ) == Some(h) by {
            lemma_header_encoding_facts(h, bytes@);
            lemma_u32_le_bytes_agree(h.root_offset.value);
            lemma_pow256_values();
            lemma_le_val_inverts(h.root_offset.value as u128, 4);
            assert(value as int == le_val(u32_le_bytes(h.root_offset.value)));
        }
    }
    Some(Header::new(PageOffset::new(value)))
}

/// Decode a leaf page.  Decoding what `encode_leaf` produced returns a leaf
/// holding exactly the keys it was given.
pub fn decode_leaf(bytes: &Vec<u8>) -> (r: Option<LeafNode>)
    ensures
        forall|l: LeafNode| #![auto]
            l.ids@.len() <= LEAF_NODE_MAX_LEN && bytes@ == leaf_encoding(l) ==> r is Some
                && r->Some_0.ids@ == l.ids@,
{
    proof {
        lemma_pow256_values();
    }
    if bytes.len() != PAGE_SIZE {
        proof {
            assert forall|l: LeafNode| #![auto]
                l.ids@.len() <= LEAF_NODE_MAX_LEN implies bytes@ != leaf_encoding(l) by {
                lemma_leaf_encoding_facts(l, leaf_encoding(l));
            }
        }
        return None;
    }
    let count = (bytes[8] as usize) + 256 * (bytes[9] as usize);
    if bytes[0] != 1 || count > LEAF_NODE_MAX_LEN {
        proof {
            assert forall|l: LeafNode| #![auto]
                l.ids@.len() <= LEAF_NODE_MAX_LEN implies bytes@ != leaf_encoding(l) by {
                if bytes@ == leaf_encoding(l) {
                    lemma_leaf_encoding_facts(l, bytes@);
                }
            }
        }
        return None;
    }

    let mut ids: Vec<u128> = Vec::new();
    let mut i: usize = 0;
    while i < count
        invariant
            0 <= i <= count <= LEAF_NODE_MAX_LEN,
            bytes@.len() == PAGE_SIZE,
            ids@.len() == i,
            forall|j: int|
                0 <= j < i ==> (#[trigger] ids@[j]) as int == le_val(
                    bytes@.subrange(16 + 16 * j, 32 + 16 * j),
                ),
        decreases count - i,
    {
        let v = read_u128_le(bytes, 16 + 16 * i);
        ids.push(v);
        i = i + 1;
    }
    let decoded = LeafNode::new_from_ids(ids);
    proof {
        assert forall|l: LeafNode| #![auto]
            l.ids@.len() <= LEAF_NODE_MAX_LEN && bytes@ == leaf_encoding(l) implies decoded.ids@
            == l.ids@ by {
            lemma_leaf_encoding_facts(l, bytes@);
            assert(count == l.ids@.len());
            assert forall|j: int| 0 <= j < count implies decoded.ids@[j] == l.ids@[j] by {
                lemma_le_val_inverts(l.ids@[j], 16);
                assert(decoded.ids@[j] as int == le_val(bytes@.subrange(16 + 16 * j, 32 + 16 * j)));
                assert(bytes@.subrange(16 + 16 * j, 32 + 16 * j) == u128_le_bytes(l.ids@[j], 16));
            }
            assert(decoded.ids@ =~= l.ids@);
        }
    }
    Some(decoded)
}

/// Decode an internal page.  Decoding what `encode_internal` produced
/// returns a node holding exactly the keys and child offsets it was given.
pub fn decode_internal(bytes: &Vec<u8>) -> (r: Option<InternalNode>)
    ensures
        forall|nd: InternalNode| #![auto]
            nd.ids@.len() <= INTERNAL_NODE_MAX_LEN && nd.child_offsets@.len() == nd.ids@.len() + 1
                && bytes@ == internal_encoding(nd) ==> r is Some && r->Some_0.ids@ == nd.ids@
                && r->Some_0.child_offsets@ == nd.child_offsets@,
{
    proof {
        lemma_pow256_values();
    }
    if bytes.len() != PAGE_SIZE {
        proof {
            assert forall|nd: InternalNode| #![auto]
                nd.ids@.len() <= INTERNAL_NODE_MAX_LEN && nd.child_offsets@.len() == nd.ids@.len()
                    + 1 implies bytes@ != internal_encoding(nd) by {
                lemma_internal_encoding_facts(nd, internal_encoding(nd));
            }
        }
        return None;
    }
    let count = (bytes[8] as usize) + 256 * (bytes[9] as usize);
    if bytes[0] != 0 || count > INTERNAL_NODE_MAX_LEN {
        proof {
            assert forall|nd: InternalNode| #![auto]
                nd.ids@.len() <= INTERNAL_NODE_MAX_LEN && nd.child_offsets@.len() == nd.ids@.len()
                    + 1 implies bytes@ != internal_encoding(nd) by {
                if bytes@ == internal_encoding(nd) {
                    lemma_internal_encoding_facts(nd, bytes@);
                }
            }
        }
        return None;
    }

    let mut ids: Vec<u128> = Vec::new();
    let mut i: usize = 0;
    while i < count
        invariant
            0 <= i <= count <= INTERNAL_NODE_MAX_LEN,
            bytes@.len() == PAGE_SIZE,
            ids@.len() == i,
            forall|j: int|
                0 <= j < i ==> (#[trigger] ids@[j]) as int == le_val(
                    bytes@.subrange(16 + 16 * j, 32 + 16 * j),
                ),
        decreases count - i,
    {
        let v = read_u128_le(bytes, 16 + 16 * i);
        ids.push(v);
        i = i + 1;
    }

    let mut child_offsets: Vec<PageOffset> = Vec::new();
    let mut j: usize = 0;
    while j < count + 1
        invariant
            0 <= j <= count + 1,
            count <= INTERNAL_NODE_MAX_LEN,
            bytes@.len() == PAGE_SIZE,
            child_offsets@.len() == j,
            forall|k: int|
                0 <= k < j ==> (#[trigger] child_offsets@[k]).value as int == le_val(
                    bytes@.subrange(3264 + 4 * k, 3268 + 4 * k),
                ),
        decreases count + 1 - j,
    {
        let v = read_u32_le(bytes, 3264 + 4 * j);
        child_offsets.push(PageOffset::new(v));
        j = j + 1;
    }

    let decoded = InternalNode::new_from_ids(ids, child_offsets);
    proof {
        assert forall|nd: InternalNode| #![auto]
            nd.ids@.len() <= INTERNAL_NODE_MAX_LEN && nd.child_offsets@.len() == nd.ids@.len() + 1
                && bytes@ == internal_encoding(nd) implies decoded.ids@ == nd.ids@
            && decoded.child_offsets@ == nd.child_offsets@ by {
            lemma_internal_encoding_facts(nd, bytes@);
            assert(count == nd.ids@.len());
            assert forall|t: int| 0 <= t < count implies decoded.ids@[t] == nd.ids@[t] by {
                lemma_le_val_inverts(nd.ids@[t], 16);
                assert(decoded.ids@[t] as int == le_val(bytes@.subrange(16 + 16 * t, 32 + 16 * t)));
                assert(bytes@.subrange(16 + 16 * t, 32 + 16 * t) == u128_le_bytes(nd.ids@[t], 16));
            }
            assert forall|t: int| 0 <= t < count + 1 implies decoded.child_offsets@[t]
                == nd.child_offsets@[t] by {
                lemma_u32_le_bytes_agree(nd.child_offsets@[t].value);
                lemma_le_val_inverts(nd.child_offsets@[t].value as u128, 4);
                assert(decoded.child_offsets@[t].value as int == le_val(
                    bytes@.subrange(3264 + 4 * t, 3268 + 4 * t),
                ));
                assert(bytes@.subrange(3264 + 4 * t, 3268 + 4 * t) == u32_le_bytes(
                    nd.child_offsets@[t].value,
                ));
            }
            assert(decoded.ids@ =~= nd.ids@);
            assert(decoded.child_offsets@ =~= nd.child_offsets@);
        }
    }
    Some(decoded)
}

} // verus!
