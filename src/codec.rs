use vstd::prelude::*;

use crate::error::{CorruptKind, IndexError};
use crate::index::{rows, IndexModel, VectorIndex};

verus! {

/// First word of an index image: the bytes `VIFX`.
pub const FORMAT_MAGIC: u32 = 0x5846_4956;

/// The image layout version this library writes and reads.
pub const FORMAT_VERSION: u32 = 1;

/// Bytes before the first vector entry: magic, version, dimension, count.
pub const HEADER_LEN: usize = 20;

/// The four bytes of `x`, least significant first.
pub open spec fn le32(x: u32) -> Seq<u8> {
    seq![
        (x & 0xff) as u8,
        ((x >> 8u32) & 0xff) as u8,
        ((x >> 16u32) & 0xff) as u8,
        ((x >> 24u32) & 0xff) as u8,
    ]
}

/// The eight bytes of `x`, least significant first.
pub open spec fn le64(x: u64) -> Seq<u8> {
    le32((x & 0xffff_ffff) as u32) + le32((x >> 32u64) as u32)
}

/// The word whose bytes, least significant first, are `b0 .. b3`.
pub open spec fn u32_of(b0: u8, b1: u8, b2: u8, b3: u8) -> u32 {
    (b0 as u32) | ((b1 as u32) << 8u32) | ((b2 as u32) << 16u32) | ((b3 as u32) << 24u32)
}

/// The little-endian word at byte `at` of `b`.
pub open spec fn read32(b: Seq<u8>, at: int) -> u32 {
    u32_of(b[at], b[at + 1], b[at + 2], b[at + 3])
}

/// The little-endian 64-bit word at byte `at` of `b`.
pub open spec fn read64(b: Seq<u8>, at: int) -> u64 {
    (read32(b, at) as u64) | ((read32(b, at + 4) as u64) << 32u64)
}

/// Byte `i` of the body that holds `vs` row after row, each entry as four
/// little-endian bytes.
pub open spec fn entry_byte(vs: Seq<Seq<u32>>, d: nat, i: int) -> u8 {
    le32(vs[i / (4 * d) as int][(i / 4) % (d as int)])[i % 4]
}

/// The body of an image: every entry of every vector, in ID order.
pub open spec fn body(vs: Seq<Seq<u32>>, d: nat) -> Seq<u8> {
    Seq::new(4 * (vs.len() * d), |i: int| entry_byte(vs, d, i))
}

/// The header of an image of `m`.
pub open spec fn header(m: IndexModel) -> Seq<u8> {
    le32(FORMAT_MAGIC) + le32(FORMAT_VERSION) + le32(m.dimension as u32) + le64(
        m.vectors.len() as u64,
    )
}

/// The image of `m`.
pub open spec fn encoded(m: IndexModel) -> Seq<u8> {
    header(m) + body(m.vectors, m.dimension)
}

/// The first structural check that the image `b` fails, if any.
pub open spec fn image_fault(b: Seq<u8>) -> Option<CorruptKind> {
    if b.len() < HEADER_LEN {
        Some(CorruptKind::Truncated)
    } else if read32(b, 0) != FORMAT_MAGIC {
        Some(CorruptKind::BadMagic)
    } else if read32(b, 4) != FORMAT_VERSION {
        Some(CorruptKind::BadVersion)
    } else if read32(b, 8) == 0 {
        Some(CorruptKind::ZeroDimension)
    } else if read64(b, 12) > i64::MAX || b.len() - HEADER_LEN != 4 * (read64(b, 12) * read32(
        b,
        8,
    )) {
        Some(CorruptKind::SizeMismatch)
    } else {
        None
    }
}

/// The index that a well-formed image `b` holds.
pub open spec fn decoded(b: Seq<u8>) -> IndexModel {
    let d = read32(b, 8) as nat;
    IndexModel {
        dimension: d,
        vectors: Seq::new(
            read64(b, 12) as nat,
            |r: int| Seq::new(d, |c: int| read32(b, HEADER_LEN + 4 * (r * d + c))),
        ),
    }
}

proof fn lemma_u32_round_trip(x: u32)
    ensures
        u32_of(le32(x)[0], le32(x)[1], le32(x)[2], le32(x)[3]) == x,
{
    let b0 = (x & 0xff) as u8;
    let b1 = ((x >> 8u32) & 0xff) as u8;
    let b2 = ((x >> 16u32) & 0xff) as u8;
    let b3 = ((x >> 24u32) & 0xff) as u8;
    assert(u32_of(b0, b1, b2, b3) == x) by (bit_vector)
        requires
            b0 == (x & 0xff) as u8,
            b1 == ((x >> 8u32) & 0xff) as u8,
            b2 == ((x >> 16u32) & 0xff) as u8,
            b3 == ((x >> 24u32) & 0xff) as u8,
    ;
}

proof fn lemma_u64_halves(x: u64)
    ensures
        (((x & 0xffff_ffff) as u32) as u64) | ((((x >> 32u64) as u32) as u64) << 32u64) == x,
{
    assert((((x & 0xffff_ffff) as u32) as u64) | ((((x >> 32u64) as u32) as u64) << 32u64) == x)
        by (bit_vector);
}

/// Where byte `4 * (r * d + c) + k` of a body falls: row `r`, entry `c`, byte `k`.
proof fn lemma_body_position(r: int, c: int, k: int, d: int)
    requires
        0 <= r,
        0 <= c < d,
        0 <= k < 4,
    ensures
        (4 * (r * d + c) + k) / (4 * d) == r,
        ((4 * (r * d + c) + k) / 4) % d == c,
        (4 * (r * d + c) + k) % 4 == k,
{
    let x = 4 * (r * d + c) + k;
    assert(x == r * (4 * d) + (4 * c + k)) by (nonlinear_arith)
        requires
            x == 4 * (r * d + c) + k,
    ;
    assert(0 <= 4 * c + k < 4 * d) by (nonlinear_arith)
        requires
            0 <= c < d,
            0 <= k < 4,
    ;
    vstd::arithmetic::div_mod::lemma_fundamental_div_mod_converse(x, 4 * d, r, 4 * c + k);
    assert(0 <= r * d + c) by (nonlinear_arith)
        requires
            0 <= r,
            0 <= c,
            0 < d,
    ;
    vstd::arithmetic::div_mod::lemma_fundamental_div_mod_converse(x, 4, r * d + c, k);
    vstd::arithmetic::div_mod::lemma_fundamental_div_mod_converse(r * d + c, d, r, c);
}

/// Reading an image back gives the index that was written: the same
/// dimension, the same count, and every vector entry bit for bit.
pub proof fn lemma_round_trip(m: IndexModel)
    requires
        m.wf(),
    ensures
        image_fault(encoded(m)) == None::<CorruptKind>,
        decoded(encoded(m)) == m,
{
    let b = encoded(m);
    let d = m.dimension;
    let n = m.vectors.len();
    let h = header(m);
    assert(h.len() == HEADER_LEN);
    lemma_u32_round_trip(FORMAT_MAGIC);
    lemma_u32_round_trip(FORMAT_VERSION);
    lemma_u32_round_trip(d as u32);
    lemma_u32_round_trip(#[verifier::truncate] ((n as u64 & 0xffff_ffff) as u32));
    lemma_u32_round_trip(#[verifier::truncate] (((n as u64) >> 32u64) as u32));
    lemma_u64_halves(n as u64);
    assert(read32(b, 0) == FORMAT_MAGIC);
    assert(read32(b, 4) == FORMAT_VERSION);
    assert(read32(b, 8) == d as u32);
    assert(read64(b, 12) == n as u64);
    assert(b.len() - HEADER_LEN == 4 * (n * d));
    let dm = decoded(b);
    assert forall|r: int| 0 <= r < n implies #[trigger] dm.vectors[r] == m.vectors[r] by {
        assert forall|c: int| 0 <= c < d implies #[trigger] dm.vectors[r][c] == m.vectors[r][c] by {
            let x = m.vectors[r][c];
            let at = 4 * (r * d + c);
            assert(0 <= at) by (nonlinear_arith)
                requires
                    at == 4 * (r * d + c),
                    0 <= r,
                    0 <= c,
                    0 < d,
            ;
            assert(at + 4 <= 4 * (n * d)) by (nonlinear_arith)
                requires
                    0 <= r < n,
                    0 <= c < d,
                    at == 4 * (r * d + c),
            ;
            lemma_body_position(r, c, 0, d as int);
            lemma_body_position(r, c, 1, d as int);
            lemma_body_position(r, c, 2, d as int);
            lemma_body_position(r, c, 3, d as int);
            assert(b[HEADER_LEN + at] == le32(x)[0]);
            assert(b[HEADER_LEN + at + 1] == le32(x)[1]);
            assert(b[HEADER_LEN + at + 2] == le32(x)[2]);
            assert(b[HEADER_LEN + at + 3] == le32(x)[3]);
            lemma_u32_round_trip(x);
        }
        assert(dm.vectors[r] =~= m.vectors[r]);
    }
    assert(dm.vectors =~= m.vectors);
}

/// The first `4 * (r * d + c) + 4` bytes of a body are the first
/// `4 * (r * d + c)` followed by entry `c` of row `r`.
proof fn lemma_body_extend(vs: Seq<Seq<u32>>, d: nat, r: int, c: int)
    requires
        0 <= r,
        0 <= c < d,
    ensures
        Seq::new((4 * (r * d + c) + 4) as nat, |i: int| entry_byte(vs, d, i)) =~= Seq::new(
            (4 * (r * d + c)) as nat,
            |i: int| entry_byte(vs, d, i),
        ) + le32(vs[r][c]),
{
    let at = 4 * (r * d + c);
    assert(0 <= at) by (nonlinear_arith)
        requires
            at == 4 * (r * d + c),
            0 <= r,
            0 <= c,
            0 < d,
    ;
    lemma_body_position(r, c, 0, d as int);
    lemma_body_position(r, c, 1, d as int);
    lemma_body_position(r, c, 2, d as int);
    lemma_body_position(r, c, 3, d as int);
}

/// Appends the four little-endian bytes of `x`.
fn push_le32(out: &mut Vec<u8>, x: u32)
    ensures
        final(out)@ == old(out)@ + le32(x),
{
    out.push((x & 0xff) as u8);
    out.push(((x >> 8u32) & 0xff) as u8);
    out.push(((x >> 16u32) & 0xff) as u8);
    out.push(((x >> 24u32) & 0xff) as u8);
    assert(out@ =~= old(out)@ + le32(x));
}

/// The little-endian word at byte `at` of `b`.
fn read_u32(b: &Vec<u8>, at: usize) -> (r: u32)
    requires
        at + 4 <= b@.len(),
    ensures
        r == read32(b@, at as int),
{
    let n = b.len();
    assert(at + 4 <= n);
    (b[at] as u32) | ((b[at + 1] as u32) << 8u32) | ((b[at + 2] as u32) << 16u32) | ((b[at
        + 3] as u32) << 24u32)
}

/// The little-endian 64-bit word at byte `at` of `b`.
fn read_u64(b: &Vec<u8>, at: usize) -> (r: u64)
    requires
        at + 8 <= b@.len(),
    ensures
        r == read64(b@, at as int),
{
    let n = b.len();
    assert(at + 8 <= n);
    let lo = read_u32(b, at);
    let hi = read_u32(b, at + 4);
    (lo as u64) | ((hi as u64) << 32u64)
}

impl VectorIndex {
    /// The image of this index in the persisted format: the header, then
    /// every vector entry in ID order.
    pub fn to_bytes(&self) -> (r: Vec<u8>)
        requires
            self.wf(),
        ensures
            r@ == encoded(self@),
    {
        let ghost m = self@;
        let d = self.dimension();
        let vs = self.stored();
        let n = vs.len();
        let mut out: Vec<u8> = Vec::new();
        push_le32(&mut out, FORMAT_MAGIC);
        push_le32(&mut out, FORMAT_VERSION);
        push_le32(&mut out, d);
        let count = n as u64;
        push_le32(&mut out, (count & 0xffff_ffff) as u32);
        push_le32(&mut out, (count >> 32u64) as u32);
        assert(out@ =~= header(m));
        let mut r: usize = 0;
        while r < n
            invariant
                r <= n,
                n == m.vectors.len(),
                d == m.dimension,
                m.wf(),
                rows(vs@) == m.vectors,
                out@ =~= header(m) + Seq::new(
                    (4 * (r * d)) as nat,
                    |i: int| entry_byte(m.vectors, d as nat, i),
                ),
            decreases n - r,
        {
            let row = &vs[r];
            assert(row@ == m.vectors[r as int]);
            let mut c: usize = 0;
            while c < row.len()
                invariant
                    r < n,
                    c <= row@.len(),
                    row@.len() == d,
                    row@ == m.vectors[r as int],
                    d == m.dimension,
                    m.wf(),
                    out@ =~= header(m) + Seq::new(
                        (4 * (r * d + c)) as nat,
                        |i: int| entry_byte(m.vectors, d as nat, i),
                    ),
                decreases row@.len() - c,
            {
                proof {
                    lemma_body_extend(m.vectors, d as nat, r as int, c as int);
                }
                push_le32(&mut out, row[c]);
                c = c + 1;
            }
            assert(r * d + d == (r + 1) * d) by (nonlinear_arith);
            r = r + 1;
        }
        out
    }

    /// The index held by an image in the persisted format, or the first
    /// structural check that the image fails.
    pub fn from_bytes(b: &Vec<u8>) -> (r: Result<VectorIndex, IndexError>)
        ensures
            match r {
                Ok(index) => image_fault(b@) == None::<CorruptKind> && index.wf() && index@
                    == decoded(b@),
                Err(e) => image_fault(b@) is Some && e == IndexError::CorruptData {
                    kind: image_fault(b@).unwrap(),
                },
            },
    {
        let len = b.len();
        if len < HEADER_LEN {
            return Err(IndexError::CorruptData { kind: CorruptKind::Truncated });
        }
        if read_u32(b, 0) != FORMAT_MAGIC {
            return Err(IndexError::CorruptData { kind: CorruptKind::BadMagic });
        }
        if read_u32(b, 4) != FORMAT_VERSION {
            return Err(IndexError::CorruptData { kind: CorruptKind::BadVersion });
        }
        let d = read_u32(b, 8);
        if d == 0 {
            return Err(IndexError::CorruptData { kind: CorruptKind::ZeroDimension });
        }
        let count = read_u64(b, 12);
        let rest = len - HEADER_LEN;
        let row_bytes: u128 = 4 * (d as u128);
        assert((count as u128) * row_bytes <= u128::MAX) by (nonlinear_arith)
            requires
                count <= u64::MAX,
                row_bytes <= 4 * (u32::MAX as int),
        ;
        assert((count as u128) * row_bytes == 4 * (count * d)) by (nonlinear_arith)
            requires
                row_bytes == 4 * d,
        ;
        if count > i64::MAX as u64 || (count as u128) * row_bytes != rest as u128 {
            return Err(IndexError::CorruptData { kind: CorruptKind::SizeMismatch });
        }
        let ghost dm = decoded(b@);
        let mut vectors: Vec<Vec<u32>> = Vec::new();
        let mut pos: usize = HEADER_LEN;
        let mut r: u64 = 0;
        while r < count
            invariant
                r <= count,
                count == read64(b@, 12),
                count <= i64::MAX,
                d == read32(b@, 8),
                d > 0,
                len == b@.len(),
                len - HEADER_LEN == 4 * (count * d),
                pos == HEADER_LEN + 4 * (r * d),
                dm == decoded(b@),
                rows(vectors@) =~= dm.vectors.subrange(0, r as int),
            decreases count - r,
        {
            let mut row: Vec<u32> = Vec::new();
            let mut c: u32 = 0;
            while c < d
                invariant
                    r < count,
                    c <= d,
                    count == read64(b@, 12),
                    d == read32(b@, 8),
                    len == b@.len(),
                    len - HEADER_LEN == 4 * (count * d),
                    pos == HEADER_LEN + 4 * (r * d + c),
                    dm == decoded(b@),
                    row@ =~= dm.vectors[r as int].subrange(0, c as int),
                decreases d - c,
            {
                assert(4 * (r * d + c) + 4 <= 4 * (count * d)) by (nonlinear_arith)
                    requires
                        r < count,
                        c < d,
                ;
                let x = read_u32(b, pos);
                row.push(x);
                pos = pos + 4;
                c = c + 1;
            }
            assert(r * d + d == (r + 1) * d) by (nonlinear_arith);
            assert(row@ =~= dm.vectors[r as int]);
            let ghost before = vectors@;
            vectors.push(row);
            proof {
                assert(rows(vectors@) =~= rows(before).push(row@));
                assert(dm.vectors.subrange(0, r + 1) =~= dm.vectors.subrange(0, r as int).push(
                    dm.vectors[r as int],
                ));
            }
            r = r + 1;
        }
        assert(dm.vectors.subrange(0, count as int) =~= dm.vectors);
        Ok(VectorIndex::from_parts(d, vectors))
    }
}

} // verus!
