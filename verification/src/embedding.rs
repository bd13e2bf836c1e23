//! Embedding vectors and the blobs that hold them.
//!
//! A component is kept as the bit pattern of its IEEE 754 single.
use vstd::prelude::*;

verus! {

/// The most components that a vector in the index has.
pub const MAX_DIMS: usize = 8192;

/// Vectors of `dims` components can be indexed.
pub open spec fn can_be_indexed(dims: nat) -> bool {
    0 < dims <= MAX_DIMS
}

/// Byte `j` of a component, the least significant being byte 0.
pub open spec fn byte_of(x: u32, j: int) -> u8 {
    if j == 0 {
        (x % 256) as u8
    } else if j == 1 {
        (x / 256 % 256) as u8
    } else if j == 2 {
        (x / 65536 % 256) as u8
    } else {
        (x / 16777216) as u8
    }
}

/// The blob of an embedding: each component as four bytes, the least significant first.
pub open spec fn blob_of(e: Seq<u32>) -> Seq<u8> {
    Seq::new(4 * e.len(), |i: int| byte_of(e[i / 4], i % 4))
}

/// The components that a blob holds; bytes behind the last whole component do not count.
pub open spec fn embedding_of(b: Seq<u8>) -> Seq<u32> {
    Seq::new(
        b.len() / 4,
        |k: int|
            (b[4 * k] + 256 * b[4 * k + 1] + 65536 * b[4 * k + 2] + 16777216 * b[4 * k + 3]) as u32,
    )
}

/// The blob of an embedding.
pub fn embedding_to_blob(embedding: &Vec<u32>) -> (r: Vec<u8>)
    ensures
        r@ == blob_of(embedding@),
{
    let mut r: Vec<u8> = Vec::new();
    let mut i: usize = 0;
    let ghost goal = blob_of(embedding@);
    while i < embedding.len()
        invariant
            i <= embedding@.len(),
            goal == blob_of(embedding@),
            r@ == goal.take(4 * i),
        decreases embedding@.len() - i,
    {
        let x = embedding[i];
        r.push((x % 256) as u8);
        r.push((x / 256 % 256) as u8);
        r.push((x / 65536 % 256) as u8);
        r.push((x / 16777216) as u8);
        assert forall|k: int| 0 <= k < 4 implies #[trigger] goal[4 * i + k] == byte_of(x, k) by {
            assert((4 * i + k) / 4 == i && (4 * i + k) % 4 == k);
        }
        assert(goal[4 * i + 0] == byte_of(x, 0) && goal[4 * i + 1] == byte_of(x, 1));
        assert(goal[4 * i + 2] == byte_of(x, 2) && goal[4 * i + 3] == byte_of(x, 3));
        assert(r@ =~= goal.take(4 * (i + 1)));
        i += 1;
    }
    assert(goal.take(4 * embedding@.len() as int) =~= goal);
    r
}

/// The components that a blob holds.
pub fn blob_to_embedding(blob: &Vec<u8>) -> (r: Vec<u32>)
    ensures
        r@ == embedding_of(blob@),
{
    let len: usize = blob.len();
    let n: usize = len / 4;
    let mut r: Vec<u32> = Vec::new();
    let mut k: usize = 0;
    let ghost goal = embedding_of(blob@);
    while k < n
        invariant
            len == blob@.len(),
            n == len / 4,
            k <= n,
            goal == embedding_of(blob@),
            r@ == goal.take(k as int),
        decreases n - k,
    {
        r.push(
            blob[4 * k] as u32 + 256 * blob[4 * k + 1] as u32 + 65536 * blob[4 * k + 2] as u32
                + 16777216 * blob[4 * k + 3] as u32,
        );
        assert(r@ =~= goal.take(k + 1));
        k += 1;
    }
    assert(goal.take(n as int) =~= goal);
    r
}

/// A blob gives back the embedding that it was made from.
pub proof fn lemma_embedding_reads_back(e: Seq<u32>)
    ensures
        embedding_of(blob_of(e)) == e,
        blob_of(e).len() == 4 * e.len(),
{
    let b = blob_of(e);
    assert forall|k: int| 0 <= k < e.len() implies embedding_of(b)[k] == e[k] by {
        lemma_blob_is_little_endian(e, k);
    }
    assert(embedding_of(b) =~= e);
}

/// Each component stands in four bytes, its lowest eight bits in the first of them.
pub proof fn lemma_blob_is_little_endian(e: Seq<u32>, k: int)
    requires
        0 <= k < e.len(),
    ensures
        blob_of(e).len() == 4 * e.len(),
        blob_of(e)[4 * k] + 256 * blob_of(e)[4 * k + 1] + 65536 * blob_of(e)[4 * k + 2] + 16777216
            * blob_of(e)[4 * k + 3] == e[k],
{
    let x = e[k];
    let b = blob_of(e);
    assert((4 * k) / 4 == k && (4 * k) % 4 == 0);
    assert((4 * k + 1) / 4 == k && (4 * k + 1) % 4 == 1);
    assert((4 * k + 2) / 4 == k && (4 * k + 2) % 4 == 2);
    assert((4 * k + 3) / 4 == k && (4 * k + 3) % 4 == 3);
    assert(b[4 * k] == byte_of(x, 0) && b[4 * k + 1] == byte_of(x, 1));
    assert(b[4 * k + 2] == byte_of(x, 2) && b[4 * k + 3] == byte_of(x, 3));
    assert(x / 65536 == x / 256 / 256 && x / 16777216 == x / 65536 / 256);
}

/// A blob has as many components as it has whole groups of four bytes, and each is what its bytes
/// stand for.
pub proof fn lemma_blob_is_read_in_groups(b: Seq<u8>, k: int)
    requires
        0 <= k,
        4 * k + 3 < b.len(),
    ensures
        embedding_of(b).len() == b.len() / 4,
        embedding_of(b)[k] == b[4 * k] + 256 * b[4 * k + 1] + 65536 * b[4 * k + 2] + 16777216 * b[4 * k
            + 3],
{
}

/// Vectors of one up to 8192 components can be indexed, and no others.
pub proof fn lemma_indexed_sizes(dims: nat)
    ensures
        can_be_indexed(dims) == (1 <= dims <= 8192),
{
}

} // verus!
