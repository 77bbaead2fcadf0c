//! Framing of a byte payload into blocks that each fit one scalar field
//! element, and the exact inverse.
//!
//! A payload `b` is framed as a header block, which holds `b.len()` in its
//! first `LENGTH_BYTES` bytes (little-endian) and zeros after them, followed
//! by `b` and the zeros that make its length a multiple of `BLOCK_BYTES`; the
//! whole is cut into blocks of `BLOCK_BYTES` bytes. A block read as a
//! little-endian integer is below `2^248`, so it is a field element of any
//! scalar field of at least 249 bits. A field element comes back as its
//! canonical little-endian serialization of `ELEMENT_BYTES` bytes, whose last
//! byte is then zero.
use vstd::prelude::*;

use crate::error::VidError;

verus! {

/// Bytes of payload carried by one field element.
pub const BLOCK_BYTES: usize = 31;

/// Bytes in the canonical serialization of one field element.
pub const ELEMENT_BYTES: usize = 32;

/// Bytes of the header block that hold the payload's length.
pub const LENGTH_BYTES: usize = 8;

/// `256` to the power `c`.
pub open spec fn pow256(c: nat) -> nat
    decreases c,
{
    if c == 0 {
        1
    } else {
        256 * pow256((c - 1) as nat)
    }
}

/// The `count` low bytes of `n`, least significant first.
pub open spec fn le_bytes(n: nat, count: nat) -> Seq<u8>
    decreases count,
{
    if count == 0 {
        Seq::empty()
    } else {
        seq![(n % 256) as u8] + le_bytes(n / 256, (count - 1) as nat)
    }
}

/// The number that the bytes `s` write, least significant first.
pub open spec fn le_value(s: Seq<u8>) -> nat
    decreases s.len(),
{
    if s.len() == 0 {
        0
    } else {
        s[0] as nat + 256 * le_value(s.drop_first())
    }
}

/// Length of the payload's bytes and their padding, for `n` bytes.
pub open spec fn data_len(n: nat) -> nat {
    (((n + (BLOCK_BYTES as nat) - 1) as nat) / (BLOCK_BYTES as nat)) * (BLOCK_BYTES as nat)
}

/// Length of the framed payload for a payload of `n` bytes.
pub open spec fn framed_len(n: nat) -> nat {
    BLOCK_BYTES as nat + data_len(n)
}

/// The header block for a payload of `n` bytes.
pub open spec fn header_of(n: nat) -> Seq<u8> {
    le_bytes(n, LENGTH_BYTES as nat) + Seq::new((BLOCK_BYTES - LENGTH_BYTES) as nat, |i: int| 0u8)
}

/// The header, the payload and the zero padding.
pub open spec fn framed(b: Seq<u8>) -> Seq<u8> {
    header_of(b.len()) + b + Seq::new((data_len(b.len()) - b.len()) as nat, |i: int| 0u8)
}

/// Block `i` of a byte sequence cut into `BLOCK_BYTES`-byte pieces.
pub open spec fn block_at(s: Seq<u8>, i: int) -> Seq<u8> {
    s.subrange(i * BLOCK_BYTES, (i + 1) * BLOCK_BYTES)
}

/// The blocks that the payload `b` is dispersed as, in order.
pub open spec fn blocks_of(b: Seq<u8>) -> Seq<Seq<u8>> {
    Seq::new(framed_len(b.len()) / (BLOCK_BYTES as nat), |i: int| block_at(framed(b), i))
}

/// The byte sequences of a vector of vectors.
pub open spec fn views(v: Seq<Vec<u8>>) -> Seq<Seq<u8>> {
    v.map_values(|x: Vec<u8>| x@)
}

/// All the sequences of `s`, one after the other.
pub open spec fn concat<T>(s: Seq<Seq<T>>) -> Seq<T>
    decreases s.len(),
{
    if s.len() == 0 {
        Seq::empty()
    } else {
        concat(s.drop_last()) + s.last()
    }
}

/// The payload that a framed byte sequence holds, if it holds one: as many
/// bytes after the header block as the header gives.
pub open spec fn unframe(s: Seq<u8>) -> Option<Seq<u8>> {
    if s.len() >= BLOCK_BYTES {
        let n = le_value(s.take(LENGTH_BYTES as int));
        if BLOCK_BYTES + n <= s.len() {
            Some(s.subrange(BLOCK_BYTES as int, BLOCK_BYTES + n))
        } else {
            None
        }
    } else {
        None
    }
}

/// The serialization of a field element that holds one block.
pub open spec fn element_ok(e: Seq<u8>) -> bool {
    e.len() == ELEMENT_BYTES && e[BLOCK_BYTES as int] == 0u8
}

/// The canonical serialization of the field element whose value is `block`.
pub open spec fn element_of_block(block: Seq<u8>) -> Seq<u8> {
    block.push(0u8)
}

/// The payload that the serialized field elements `es` hold, if they hold one.
pub open spec fn payload_of(es: Seq<Seq<u8>>) -> Option<Seq<u8>> {
    if forall|i: int| 0 <= i < es.len() ==> element_ok(#[trigger] es[i]) {
        unframe(concat(es.map_values(|e: Seq<u8>| e.take(BLOCK_BYTES as int))))
    } else {
        None
    }
}

proof fn lemma_data_len(n: nat)
    ensures
        data_len(n) >= n,
        data_len(n) < n + BLOCK_BYTES,
        framed_len(n) / (BLOCK_BYTES as nat) * (BLOCK_BYTES as nat) == framed_len(n),
{
    let q = (n + 30) / 31;
    assert(q * 31 <= n + 30 && n + 30 < q * 31 + 31) by (nonlinear_arith)
        requires
            q == (n + 30) / 31,
            n >= 0,
    ;
    assert((31 + q * 31) / 31 * 31 == 31 + q * 31) by (nonlinear_arith)
        requires
            q >= 0,
    ;
}

proof fn lemma_le_bytes_len(n: nat, c: nat)
    ensures
        le_bytes(n, c).len() == c,
    decreases c,
{
    if c > 0 {
        lemma_le_bytes_len(n / 256, (c - 1) as nat);
    }
}

proof fn lemma_le_round_trip(n: nat, c: nat)
    requires
        n < pow256(c),
    ensures
        le_value(le_bytes(n, c)) == n,
    decreases c,
{
    if c > 0 {
        let m = (c - 1) as nat;
        assert(n / 256 < pow256(m)) by (nonlinear_arith)
            requires
                n < 256 * pow256(m),
        ;
        lemma_le_round_trip(n / 256, m);
        let x = le_bytes(n, c);
        assert(x.drop_first() =~= le_bytes(n / 256, m));
    }
}

proof fn lemma_pow256_8()
    ensures
        pow256(8) == 0x1_0000_0000_0000_0000,
{
    reveal_with_fuel(pow256, 9);
}

proof fn lemma_concat_blocks(s: Seq<u8>, n: nat)
    requires
        n * BLOCK_BYTES <= s.len(),
    ensures
        concat(Seq::new(n, |i: int| block_at(s, i))) =~= s.take(n * BLOCK_BYTES),
    decreases n,
{
    let x = Seq::new(n, |i: int| block_at(s, i));
    if n > 0 {
        let m = (n - 1) as nat;
        assert(x.drop_last() =~= Seq::new(m, |i: int| block_at(s, i)));
        lemma_concat_blocks(s, m);
        assert(s.take(m * BLOCK_BYTES) + block_at(s, m as int) =~= s.take(n * BLOCK_BYTES));
    }
}

/// Framing is exactly inverted: the field elements that hold the blocks of a
/// payload, serialized, give back that payload.
pub proof fn lemma_payload_round_trip(b: Seq<u8>)
    requires
        b.len() <= usize::MAX,
    ensures
        payload_of(blocks_of(b).map_values(|x: Seq<u8>| element_of_block(x))) == Some(b),
{
    let f = framed(b);
    let blocks = blocks_of(b);
    let es = blocks.map_values(|x: Seq<u8>| element_of_block(x));
    lemma_data_len(b.len());
    lemma_le_bytes_len(b.len(), 8);
    let n = framed_len(b.len()) / (BLOCK_BYTES as nat);
    assert(f.len() == n * 31);
    assert forall|i: int| 0 <= i < es.len() implies element_ok(#[trigger] es[i]) by {
        assert(i * 31 + 31 <= n * 31) by (nonlinear_arith)
            requires
                0 <= i < n,
        ;
        assert(blocks[i].len() == BLOCK_BYTES);
    }
    let taken = es.map_values(|e: Seq<u8>| e.take(BLOCK_BYTES as int));
    assert forall|i: int| 0 <= i < taken.len() implies #[trigger] taken[i] == blocks[i] by {
        assert(i * 31 + 31 <= n * 31) by (nonlinear_arith)
            requires
                0 <= i < n,
        ;
        assert(es[i].take(BLOCK_BYTES as int) =~= blocks[i]);
    }
    assert(taken =~= blocks);
    lemma_concat_blocks(f, n);
    assert(f.take(n * BLOCK_BYTES) =~= f);
    assert(f.take(LENGTH_BYTES as int) =~= le_bytes(b.len(), 8));
    lemma_pow256_8();
    lemma_le_round_trip(b.len(), 8);
    assert(f.subrange(BLOCK_BYTES as int, BLOCK_BYTES + b.len()) =~= b);
}

/// Frames `payload` and cuts it into blocks of `BLOCK_BYTES` bytes, each to be
/// read as one field element.
pub fn payload_to_blocks(payload: &Vec<u8>) -> (r: Vec<Vec<u8>>)
    requires
        payload.len() + 2 * BLOCK_BYTES <= usize::MAX,
    ensures
        views(r@) == blocks_of(payload@),
{
    let n = payload.len();
    proof {
        lemma_data_len(n as nat);
        lemma_le_bytes_len(n as nat, 8);
    }
    let total: usize = BLOCK_BYTES + ((n + BLOCK_BYTES - 1) / BLOCK_BYTES) * BLOCK_BYTES;
    let mut padded: Vec<u8> = Vec::new();
    let mut v: u64 = n as u64;
    let mut c: usize = 0;
    while c < LENGTH_BYTES
        invariant
            c <= LENGTH_BYTES,
            padded@ + le_bytes(v as nat, (LENGTH_BYTES - c) as nat) == le_bytes(n as nat, 8),
        decreases LENGTH_BYTES - c,
    {
        let ghost before = padded@;
        padded.push((v % 256) as u8);
        assert(le_bytes(v as nat, (LENGTH_BYTES - c) as nat) =~= seq![(v % 256) as u8] + le_bytes(
            (v / 256) as nat,
            (LENGTH_BYTES - c - 1) as nat,
        ));
        assert(padded@ + le_bytes((v / 256) as nat, (LENGTH_BYTES - c - 1) as nat) =~= before
            + le_bytes(v as nat, (LENGTH_BYTES - c) as nat));
        v = v / 256;
        c = c + 1;
    }
    assert(padded@ =~= le_bytes(n as nat, 8));
    while padded.len() < BLOCK_BYTES
        invariant
            LENGTH_BYTES <= padded.len() <= BLOCK_BYTES,
            padded@ == le_bytes(n as nat, 8) + Seq::new(
                (padded.len() - LENGTH_BYTES) as nat,
                |i: int| 0u8,
            ),
        decreases BLOCK_BYTES - padded.len(),
    {
        padded.push(0u8);
        assert(padded@ =~= le_bytes(n as nat, 8) + Seq::new(
            (padded.len() - LENGTH_BYTES) as nat,
            |i: int| 0u8,
        ));
    }
    assert(padded@ == header_of(n as nat));
    let mut i: usize = 0;
    while i < n
        invariant
            i <= n,
            n == payload.len(),
            padded@ == header_of(n as nat) + payload@.take(i as int),
        decreases n - i,
    {
        padded.push(payload[i]);
        i = i + 1;
        assert(padded@ =~= header_of(n as nat) + payload@.take(i as int));
    }
    assert(payload@.take(n as int) =~= payload@);
    assert(padded@ =~= header_of(n as nat) + payload@ + Seq::new(0, |j: int| 0u8));
    while padded.len() < total
        invariant
            BLOCK_BYTES + n <= padded.len() <= total,
            total == framed_len(n as nat),
            n == payload.len(),
            padded@ == header_of(n as nat) + payload@ + Seq::new(
                (padded.len() - (BLOCK_BYTES + n)) as nat,
                |j: int| 0u8,
            ),
        decreases total - padded.len(),
    {
        padded.push(0u8);
        assert(padded@ =~= header_of(n as nat) + payload@ + Seq::new(
            (padded.len() - (BLOCK_BYTES + n)) as nat,
            |j: int| 0u8,
        ));
    }
    assert(padded@ == framed(payload@));
    let count: usize = total / BLOCK_BYTES;
    let mut blocks: Vec<Vec<u8>> = Vec::new();
    let mut k: usize = 0;
    while k < count
        invariant
            k <= count,
            count == framed_len(payload.len() as nat) / (BLOCK_BYTES as nat),
            total == framed_len(payload.len() as nat),
            count * BLOCK_BYTES == total,
            padded.len() == total,
            blocks.len() == k,
            forall|j: int| 0 <= j < k ==> (#[trigger] blocks[j])@ == block_at(padded@, j),
        decreases count - k,
    {
        assert((k + 1) * BLOCK_BYTES <= count * BLOCK_BYTES) by (nonlinear_arith)
            requires
                k < count,
        ;
        let start: usize = k * BLOCK_BYTES;
        let mut block: Vec<u8> = Vec::new();
        let mut j: usize = 0;
        while j < BLOCK_BYTES
            invariant
                j <= BLOCK_BYTES,
                start + BLOCK_BYTES <= padded.len(),
                block@ == padded@.subrange(start as int, start + j),
            decreases BLOCK_BYTES - j,
        {
            block.push(padded[start + j]);
            j = j + 1;
            assert(block@ =~= padded@.subrange(start as int, start + j));
        }
        blocks.push(block);
        k = k + 1;
    }
    assert(views(blocks@) =~= blocks_of(payload@));
    blocks
}

/// Reads the payload back from the serializations of the field elements that
/// hold its blocks; fails with `EncodingError` where they hold no framed payload.
pub fn blocks_to_payload(elements: &Vec<Vec<u8>>) -> (r: Result<Vec<u8>, VidError>)
    ensures
        match payload_of(views(elements@)) {
            Some(p) => r is Ok && r->Ok_0@ == p,
            None => r == Err::<Vec<u8>, VidError>(VidError::EncodingError),
        },
{
    let ghost es = views(elements@);
    let mut i: usize = 0;
    while i < elements.len()
        invariant
            i <= elements.len(),
            es == views(elements@),
            forall|j: int| 0 <= j < i ==> element_ok(#[trigger] es[j]),
        decreases elements.len() - i,
    {
        if elements[i].len() != ELEMENT_BYTES || elements[i][BLOCK_BYTES] != 0u8 {
            assert(!element_ok(es[i as int]));
            return Err(VidError::EncodingError);
        }
        i = i + 1;
    }
    let ghost taken = es.map_values(|e: Seq<u8>| e.take(BLOCK_BYTES as int));
    let mut flat: Vec<u8> = Vec::new();
    let mut i: usize = 0;
    while i < elements.len()
        invariant
            i <= elements.len(),
            es == views(elements@),
            taken == es.map_values(|e: Seq<u8>| e.take(BLOCK_BYTES as int)),
            forall|j: int| 0 <= j < es.len() ==> element_ok(#[trigger] es[j]),
            flat.len() == i * BLOCK_BYTES,
            flat@ == concat(taken.take(i as int)),
        decreases elements.len() - i,
    {
        assert(element_ok(es[i as int]));
        let e = &elements[i];
        let mut j: usize = 0;
        while j < BLOCK_BYTES
            invariant
                j <= BLOCK_BYTES,
                e@.len() == ELEMENT_BYTES,
                flat.len() == i * BLOCK_BYTES + j,
                flat@ == concat(taken.take(i as int)) + e@.take(j as int),
            decreases BLOCK_BYTES - j,
        {
            flat.push(e[j]);
            j = j + 1;
            assert(flat@ =~= concat(taken.take(i as int)) + e@.take(j as int));
        }
        assert(taken.take(i + 1).drop_last() =~= taken.take(i as int));
        i = i + 1;
    }
    assert(taken.take(i as int) =~= taken);
    if flat.len() < BLOCK_BYTES {
        return Err(VidError::EncodingError);
    }
    let ghost head = flat@.take(LENGTH_BYTES as int);
    let mut len: u64 = 0;
    let mut c: usize = LENGTH_BYTES;
    assert(head.subrange(8, 8) =~= Seq::<u8>::empty());
    while c > 0
        invariant
            c <= LENGTH_BYTES,
            flat.len() >= BLOCK_BYTES,
            head == flat@.take(LENGTH_BYTES as int),
            len == le_value(head.subrange(c as int, LENGTH_BYTES as int)),
            len < pow256((LENGTH_BYTES - c) as nat),
        decreases c,
    {
        let ghost old_len = len;
        let byte = flat[c - 1];
        assert(len * 256 + byte < pow256((LENGTH_BYTES - c + 1) as nat)) by (nonlinear_arith)
            requires
                old_len == len,
                len < pow256((LENGTH_BYTES - c) as nat),
                pow256((LENGTH_BYTES - c + 1) as nat) == 256 * pow256((LENGTH_BYTES - c) as nat),
                byte < 256,
        ;
        proof {
            lemma_pow256_8();
            lemma_pow256_le((LENGTH_BYTES - c + 1) as nat, 8);
        }
        len = len * 256 + byte as u64;
        assert(head.subrange(c - 1, LENGTH_BYTES as int).drop_first() =~= head.subrange(
            c as int,
            LENGTH_BYTES as int,
        ));
        c = c - 1;
    }
    assert(head.subrange(0, 8) =~= head);
    let room: usize = flat.len() - BLOCK_BYTES;
    if len > room as u64 {
        return Err(VidError::EncodingError);
    }
    let stop: usize = BLOCK_BYTES + len as usize;
    let mut out: Vec<u8> = Vec::new();
    let mut k: usize = BLOCK_BYTES;
    while k < stop
        invariant
            BLOCK_BYTES <= k <= stop <= flat.len(),
            out@ == flat@.subrange(BLOCK_BYTES as int, k as int),
        decreases stop - k,
    {
        out.push(flat[k]);
        k = k + 1;
        assert(out@ =~= flat@.subrange(BLOCK_BYTES as int, k as int));
    }
    Ok(out)
}

proof fn lemma_pow256_le(a: nat, b: nat)
    requires
        a <= b,
    ensures
        pow256(a) <= pow256(b),
    decreases b,
{
    if a < b {
        lemma_pow256_le(a, (b - 1) as nat);
        assert(pow256((b - 1) as nat) <= pow256(b)) by {
            reveal_with_fuel(pow256, 1);
        }
    }
}

} // verus!
