use vstd::prelude::*;

pub mod fsc;
pub mod rabin_cdc;
pub mod segment;

pub use fsc::FixedSizeChunking;
pub use rabin_cdc::RabinCDC;
pub use rabin_cdc::lemma_rabin_partition;
pub use segment::{ChunkerConfig, SegmentAdapter};

verus! {

/// Smallest acceptable value for the minimum chunk size.
pub const MIN_MIN_CHUNK_SIZE: usize = 64;

/// Largest acceptable value for the minimum chunk size.
pub const MAX_MIN_CHUNK_SIZE: usize = 1_048_576;

/// Smallest acceptable value for the average chunk size.
pub const MIN_AVG_CHUNK_SIZE: usize = 256;

/// Largest acceptable value for the average chunk size.
pub const MAX_AVG_CHUNK_SIZE: usize = 4_194_304;

/// Smallest acceptable value for the maximum chunk size.
pub const MIN_MAX_CHUNK_SIZE: usize = 1024;

/// Largest acceptable value for the maximum chunk size.
pub const MAX_MAX_CHUNK_SIZE: usize = 16_777_216;

/// Represents parameters for determining chunk sizes.
#[derive(Copy, Clone)]
pub struct ChunkSizeParms {
    /// Minimum expected chunk size.
    pub min_chunk_size: usize,
    /// Average expected chunk size.
    pub avg_chunk_size: usize,
    /// Maximum expected chunk size.
    pub max_chunk_size: usize,
}

/// Represents the chunk structure for all chunking algorithms.
///
/// A chunk stands for the contiguous byte range `[offset, offset + length)`
/// of a source buffer; it does not own the bytes themselves.
#[derive(Debug, Clone, Copy, Eq, PartialEq, Hash, Structural)]
pub struct Chunk {
    /// Starting byte position within the source.
    pub offset: usize,
    /// Length of the chunk in bytes.
    pub length: usize,
}

/// A fatal configuration error: a chunker was asked for with parameters
/// outside the documented ranges. Construction reports it instead of
/// building a chunker; there is no clamping to a valid configuration.
#[derive(Debug, Clone, Copy, Eq, PartialEq, Structural)]
pub enum ConfigError {
    /// The fixed-size chunker was given a chunk size of zero.
    ZeroChunkSize,
    /// The window size lies outside `MIN_WIN_SIZE ..= MAX_WIN_SIZE`.
    WindowSizeOutOfRange,
    /// The window size is not a power of two.
    WindowSizeNotPowerOfTwo,
    /// The minimum chunk size lies outside its documented range.
    MinChunkSizeOutOfRange,
    /// The average chunk size lies outside its documented range.
    AvgChunkSizeOutOfRange,
    /// The maximum chunk size lies outside its documented range.
    MaxChunkSizeOutOfRange,
}

/// Holds of a chunk sequence that tiles the byte range `[from, to)` exactly:
/// the first chunk starts at `from`, every chunk is non-empty, each chunk
/// ends where the next begins, and the last chunk ends at `to`.
pub open spec fn chunks_partition(cs: Seq<Chunk>, from: int, to: int) -> bool
    decreases cs.len(),
{
    if cs.len() == 0 {
        from == to
    } else {
        &&& cs[0].offset == from
        &&& cs[0].length > 0
        &&& chunks_partition(cs.drop_first(), from + cs[0].length, to)
    }
}

/// Declares `rand`'s small generator so that it can stand in signatures;
/// its values are opaque and only the trusted items below handle them.
#[verifier::external_type_specification]
#[verifier::external_body]
pub struct ExSmallRng(rand::rngs::SmallRng);

/// Relies on `rand::random`: a value drawn from the thread-local generator.
/// Nothing holds of every outcome, so nothing is promised.
#[verifier::external_body]
fn random_u128() -> u128 {
    rand::random()
}

/// Relies on `zerocopy::AsBytes::as_bytes` on `u128`: the value's byte
/// representation, one byte per byte of the value, sixteen in all.
#[verifier::external_body]
fn u128_bytes(v: &u128) -> (r: Vec<u8>)
    ensures
        r@.len() == 16,
{
    zerocopy::AsBytes::as_bytes(v).to_vec()
}

/// Relies on `rand::rngs::SmallRng::from_seed`: builds the small generator
/// from a 32-byte seed. Its stream is not portable across platforms or
/// versions, so nothing is promised of the generator's state.
#[verifier::external_body]
fn small_rng_from_seed(seed: [u8; 32]) -> rand::rngs::SmallRng {
    <rand::rngs::SmallRng as rand::SeedableRng>::from_seed(seed)
}

/// Relies on `rand::RngCore::fill_bytes`: fills the buffer with generated
/// bytes, leaving its length unchanged.
#[verifier::external_body]
fn rng_fill_bytes(rng: &mut rand::rngs::SmallRng, dest: &mut Vec<u8>)
    ensures
        final(dest)@.len() == old(dest)@.len(),
{
    rand::RngCore::fill_bytes(rng, dest.as_mut_slice())
}

/// Generates a data block of the specified size, pseudorandomly from the
/// given seed value, or from a randomly drawn seed when none is given.
pub fn generate_data_block(size: usize, seed_rnd: Option<u128>) -> (r: Vec<u8>)
    ensures
        r@.len() == size,
{
    let seed_value: u128 = match seed_rnd {
        Some(v) => v,
        None => random_u128(),
    };
    let bytes = u128_bytes(&seed_value);
    let mut seed = [0u8; 32];
    let mut i: usize = 0;
    while i < 32
        invariant
            i <= 32,
            bytes@.len() == 16,
        decreases 32 - i,
    {
        seed[i] = bytes[i % 16];
        i = i + 1;
    }
    let mut rng = small_rng_from_seed(seed);
    let mut block: Vec<u8> = Vec::new();
    while block.len() < size
        invariant
            block@.len() <= size,
        decreases size - block@.len(),
    {
        block.push(0u8);
    }
    rng_fill_bytes(&mut rng, &mut block);
    block
}

/// The chunks of a pass moved from buffer-relative offsets to stream-global
/// offsets, `d` bytes further along.
pub open spec fn translate_chunks(cs: Seq<Chunk>, d: int) -> Seq<Chunk> {
    Seq::new(cs.len(), |i: int| Chunk { offset: (cs[i].offset + d) as usize, length: cs[i].length })
}

/// Translation distributes over concatenation of chunk sequences.
pub proof fn lemma_translate_concat(a: Seq<Chunk>, b: Seq<Chunk>, d: int)
    ensures
        translate_chunks(a + b, d) == translate_chunks(a, d) + translate_chunks(b, d),
{
    assert(translate_chunks(a + b, d) =~= translate_chunks(a, d) + translate_chunks(b, d));
}

/// Two translations compose into one, as long as the offsets stay in range.
pub proof fn lemma_translate_translate(a: Seq<Chunk>, d1: int, d2: int)
    requires
        0 <= d1,
        0 <= d2,
        forall|i: int| 0 <= i < a.len() ==> #[trigger] a[i].offset + d1 + d2 <= usize::MAX,
    ensures
        translate_chunks(translate_chunks(a, d1), d2) == translate_chunks(a, d1 + d2),
{
    assert(translate_chunks(translate_chunks(a, d1), d2) =~= translate_chunks(a, d1 + d2));
}

/// Translating by zero changes nothing.
pub proof fn lemma_translate_zero(a: Seq<Chunk>)
    ensures
        translate_chunks(a, 0) == a,
{
    assert(translate_chunks(a, 0) =~= a);
}

/// What a partition pins down chunk by chunk: every chunk lies inside
/// `[from, to)`, the first starts at `from`, the last ends at `to`, and an
/// empty partition covers an empty range.
pub proof fn lemma_partition_bounds(cs: Seq<Chunk>, from: int, to: int)
    requires
        chunks_partition(cs, from, to),
    ensures
        from <= to,
        forall|i: int|
            0 <= i < cs.len() ==> from <= #[trigger] cs[i].offset && cs[i].offset + cs[i].length
                <= to,
        cs.len() > 0 ==> cs[0].offset == from,
        cs.len() > 0 ==> cs.last().offset + cs.last().length == to,
        cs.len() == 0 ==> from == to,
    decreases cs.len(),
{
    if cs.len() == 0 {
    } else {
        let rest = cs.drop_first();
        lemma_partition_bounds(rest, from + cs[0].length, to);
        assert(forall|i: int| 1 <= i < cs.len() ==> cs[i] == #[trigger] rest[i - 1]);
        assert(cs.last() == if cs.len() == 1 { cs[0] } else { rest.last() });
        assert forall|i: int|
            0 <= i < cs.len() implies from <= #[trigger] cs[i].offset && cs[i].offset
            + cs[i].length <= to by {
            if i >= 1 {
                assert(cs[i] == rest[i - 1]);
                assert(from + cs[0].length <= rest[i - 1].offset);
                assert(rest[i - 1].offset + rest[i - 1].length <= to);
            }
        }
    }
}

/// Two partitions that meet end to end join into one partition of the
/// combined range.
pub proof fn lemma_partition_concat(a: Seq<Chunk>, b: Seq<Chunk>, x: int, y: int, z: int)
    requires
        chunks_partition(a, x, y),
        chunks_partition(b, y, z),
    ensures
        chunks_partition(a + b, x, z),
    decreases a.len(),
{
    if a.len() == 0 {
        assert(a + b =~= b);
    } else {
        lemma_partition_concat(a.drop_first(), b, x + a[0].length, y, z);
        assert((a + b).drop_first() =~= a.drop_first() + b);
        assert((a + b)[0] == a[0]);
    }
}

/// Taking the last chunk away from a partition leaves a partition that ends
/// where the last chunk begins.
pub proof fn lemma_partition_drop_last(cs: Seq<Chunk>, from: int, to: int)
    requires
        chunks_partition(cs, from, to),
        cs.len() > 0,
    ensures
        chunks_partition(cs.drop_last(), from, cs.last().offset as int),
    decreases cs.len(),
{
    if cs.len() == 1 {
        assert(cs.drop_last() =~= Seq::<Chunk>::empty());
    } else {
        let rest = cs.drop_first();
        lemma_partition_drop_last(rest, from + cs[0].length, to);
        assert(cs.last() == rest.last());
        assert(cs.drop_last() =~= seq![cs[0]] + rest.drop_last());
        assert(cs.drop_last().drop_first() =~= rest.drop_last());
    }
}

} // verus!
