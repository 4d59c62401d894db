use vstd::prelude::*;

use crate::fsc::{
    fsc_advance, fsc_chunks, fsc_next, fsc_state_wf, lemma_fsc_sizes, FixedSizeChunking, FscState,
};
use crate::rabin_cdc::{
    lemma_rabin_chunks_shift, lemma_rabin_extend, lemma_rabin_init_consistent,
    lemma_rabin_last_state, lemma_rabin_next_props, rabin_chunks, rabin_config_error, rabin_init,
    rabin_last_state, rabin_state_wf, wstate_consistent, RabinCDC, RabinState, MAX_WIN_SIZE,
    MIN_WIN_SIZE,
};
use crate::{
    chunks_partition, lemma_translate_concat, lemma_translate_translate, lemma_translate_zero,
    translate_chunks, lemma_partition_bounds, lemma_partition_concat, lemma_partition_drop_last,
    lemma_rabin_partition, Chunk, ConfigError, MAX_AVG_CHUNK_SIZE, MAX_MAX_CHUNK_SIZE,
    MAX_MIN_CHUNK_SIZE, MIN_AVG_CHUNK_SIZE, MIN_MAX_CHUNK_SIZE, MIN_MIN_CHUNK_SIZE,
};
use crate::fsc::lemma_fsc_partition;

verus! {

/// Which chunking algorithm a streaming segment adapter wraps, with the
/// parameters it is constructed from.
#[derive(Clone, Copy)]
pub enum ChunkerConfig {
    /// The stride-based fixed-size chunker.
    FixedSize {
        /// Fixed size of each chunk.
        chunk_size: usize,
    },
    /// The Rabin content-defined chunker.
    Rabin {
        /// Size of the sliding window.
        win_size: usize,
        /// Minimum chunk size.
        min_size: usize,
        /// Average chunk size.
        avg_size: usize,
        /// Maximum chunk size.
        max_size: usize,
    },
}

/// The first parameter check that fails for a configuration, in constructor
/// order, or `None` when all pass.
pub open spec fn config_error(cfg: ChunkerConfig) -> Option<ConfigError> {
    match cfg {
        ChunkerConfig::FixedSize { chunk_size } => if chunk_size == 0 {
            Some(ConfigError::ZeroChunkSize)
        } else {
            None
        },
        ChunkerConfig::Rabin { win_size, min_size, avg_size, max_size } => rabin_config_error(
            win_size,
            min_size,
            avg_size,
            max_size,
        ),
    }
}

/// The policy ordering the size parameters must come in.
pub open spec fn config_policy_ok(cfg: ChunkerConfig) -> bool {
    match cfg {
        ChunkerConfig::FixedSize { .. } => true,
        ChunkerConfig::Rabin { win_size, min_size, avg_size, max_size } => min_size < avg_size
            < max_size,
    }
}

/// A configuration every check accepts.
pub open spec fn config_ok(cfg: ChunkerConfig) -> bool {
    config_error(cfg) is None && config_policy_ok(cfg)
}

/// The chunk sequence the configured chunker emits over a whole source in
/// one pass, from a fresh instance.
pub open spec fn chunks_of(cfg: ChunkerConfig, src: Seq<u8>) -> Seq<Chunk> {
    match cfg {
        ChunkerConfig::FixedSize { chunk_size } => fsc_chunks(
            FscState { source: src, chunk_size: chunk_size as nat, cur: 0 },
        ),
        ChunkerConfig::Rabin { win_size, min_size, avg_size, max_size } => rabin_chunks(
            rabin_init(src, win_size, min_size, avg_size, max_size),
        ),
    }
}


/// Translating a partition of a buffer range gives a partition of the same
/// range moved `d` bytes along the stream.
pub proof fn lemma_partition_translate(cs: Seq<Chunk>, from: int, to: int, d: int)
    requires
        chunks_partition(cs, from, to),
        0 <= from,
        0 <= d,
        to + d <= usize::MAX,
    ensures
        chunks_partition(translate_chunks(cs, d), from + d, to + d),
    decreases cs.len(),
{
    lemma_partition_bounds(cs, from, to);
    if cs.len() == 0 {
    } else {
        lemma_partition_translate(cs.drop_first(), from + cs[0].length, to, d);
        assert(translate_chunks(cs, d).drop_first() =~= translate_chunks(cs.drop_first(), d));
        assert(translate_chunks(cs, d)[0].offset == from + d);
    }
}

/// Mathematical state of a streaming segment adapter: the configuration of
/// the chunker it wraps, the carried tail bytes, and the global stream
/// offset the tail starts at.
pub ghost struct SegState {
    /// The wrapped chunker's configuration.
    pub config: ChunkerConfig,
    /// The provisional final chunk of the last pass, carried forward.
    pub tail: Seq<u8>,
    /// Global stream offset of the first tail byte.
    pub base: nat,
}

/// Well-formedness of an adapter state: a valid configuration and a stream
/// position that fits in memory.
pub open spec fn seg_state_wf(m: SegState) -> bool {
    &&& config_ok(m.config)
    &&& m.base + m.tail.len() <= usize::MAX
}

/// What one pass over `block` delivers and how it moves the adapter state:
/// the wrapped chunker runs over the carried tail followed by the new block;
/// all its chunks but the last are final output, translated to stream
/// offsets; the last chunk is provisional and becomes the new tail.
pub open spec fn seg_push(m: SegState, block: Seq<u8>) -> (Seq<Chunk>, SegState) {
    let buf = m.tail + block;
    if buf.len() == 0 {
        (Seq::empty(), m)
    } else {
        let cs = chunks_of(m.config, buf);
        let last = cs.last();
        (
            translate_chunks(cs.drop_last(), m.base as int),
            SegState {
                tail: buf.skip(last.offset as int),
                base: (m.base + last.offset) as nat,
                ..m
            },
        )
    }
}

/// What the final flush delivers once the source is exhausted: the carried
/// tail, if any, as the last real chunk, leaving the adapter empty.
pub open spec fn seg_finish(m: SegState) -> (Option<Chunk>, SegState) {
    (
        if m.tail.len() == 0 {
            None
        } else {
            Some(Chunk { offset: m.base as usize, length: m.tail.len() as usize })
        },
        SegState { tail: Seq::empty(), base: (m.base + m.tail.len()) as nat, ..m },
    )
}

/// Total number of bytes in a sequence of blocks.
pub open spec fn blocks_len(blocks: Seq<Seq<u8>>) -> int
    decreases blocks.len(),
{
    if blocks.len() == 0 {
        0
    } else {
        blocks[0].len() + blocks_len(blocks.drop_first())
    }
}

/// A sequence of blocks holds a non-negative number of bytes.
pub proof fn lemma_blocks_len_nonneg(blocks: Seq<Seq<u8>>)
    ensures
        blocks_len(blocks) >= 0,
    decreases blocks.len(),
{
    if blocks.len() > 0 {
        lemma_blocks_len_nonneg(blocks.drop_first());
    }
}

/// All the chunks a whole streaming run delivers: one `seg_push` per block,
/// then the final flush.
pub open spec fn seg_run(m: SegState, blocks: Seq<Seq<u8>>) -> Seq<Chunk>
    decreases blocks.len(),
{
    if blocks.len() == 0 {
        if m.tail.len() == 0 {
            Seq::empty()
        } else {
            seq![seg_finish(m).0->Some_0]
        }
    } else {
        seg_push(m, blocks[0]).0 + seg_run(seg_push(m, blocks[0]).1, blocks.drop_first())
    }
}

/// A full pass of the configured chunker partitions its source.
pub proof fn lemma_chunks_of_partition(cfg: ChunkerConfig, src: Seq<u8>)
    requires
        config_ok(cfg),
        src.len() <= usize::MAX,
    ensures
        chunks_partition(chunks_of(cfg, src), 0, src.len() as int),
        src.len() > 0 ==> chunks_of(cfg, src).len() >= 1,
{
    match cfg {
        ChunkerConfig::FixedSize { chunk_size } => {
            let m = FscState { source: src, chunk_size: chunk_size as nat, cur: 0 };
            assert(fsc_state_wf(m));
            lemma_fsc_partition(m);
        },
        ChunkerConfig::Rabin { win_size, min_size, avg_size, max_size } => {
            let m = rabin_init(src, win_size, min_size, avg_size, max_size);
            assert(rabin_state_wf(m));
            lemma_rabin_partition(m);
        },
    }
}

/// No byte is lost and none is delivered twice across block boundaries: the
/// chunks a whole streaming run delivers — every pass's finalized chunks and
/// the final flush — partition the logical stream exactly, whatever the
/// block sizes. Reassembled in emission order they are the stream.
pub proof fn lemma_seg_run_partition(m: SegState, blocks: Seq<Seq<u8>>)
    requires
        seg_state_wf(m),
        m.base + m.tail.len() + blocks_len(blocks) <= usize::MAX,
    ensures
        blocks_len(blocks) >= 0,
        chunks_partition(
            seg_run(m, blocks),
            m.base as int,
            m.base + m.tail.len() + blocks_len(blocks),
        ),
    decreases blocks.len(),
{
    if blocks.len() == 0 {
        if m.tail.len() == 0 {
        } else {
            let c = seg_finish(m).0->Some_0;
            assert(chunks_partition(
                seq![c].drop_first(),
                m.base + m.tail.len() as int,
                m.base + m.tail.len() as int,
            ));
            assert(seq![c].drop_first() =~= Seq::<Chunk>::empty());
        }
    } else {
        let block = blocks[0];
        let rest = blocks.drop_first();
        lemma_blocks_len_nonneg(rest);
        let buf = m.tail + block;
        if buf.len() == 0 {
            lemma_seg_run_partition(m, rest);
            assert(seg_run(m, blocks) =~= seg_run(m, rest));
        } else {
            let cs = chunks_of(m.config, buf);
            lemma_chunks_of_partition(m.config, buf);
            lemma_partition_bounds(cs, 0, buf.len() as int);
            let last = cs.last();
            lemma_partition_drop_last(cs, 0, buf.len() as int);
            lemma_partition_translate(cs.drop_last(), 0, last.offset as int, m.base as int);
            let m2 = seg_push(m, block).1;
            assert(m2.tail.len() == buf.len() - last.offset);
            lemma_seg_run_partition(m2, rest);
            lemma_partition_concat(
                seg_push(m, block).0,
                seg_run(m2, rest),
                m.base as int,
                m.base + last.offset,
                m.base + m.tail.len() + blocks_len(blocks),
            );
        }
    }
}

/// The blocks of a streaming run joined back into one byte sequence.
pub open spec fn concat_blocks(blocks: Seq<Seq<u8>>) -> Seq<u8>
    decreases blocks.len(),
{
    if blocks.len() == 0 {
        Seq::empty()
    } else {
        blocks[0] + concat_blocks(blocks.drop_first())
    }
}

/// Joining the blocks keeps exactly their total byte count.
pub proof fn lemma_concat_blocks_len(blocks: Seq<Seq<u8>>)
    ensures
        concat_blocks(blocks).len() == blocks_len(blocks),
    decreases blocks.len(),
{
    if blocks.len() > 0 {
        lemma_concat_blocks_len(blocks.drop_first());
    }
}




/// Extending the source of a fixed-size chunker does not move any boundary
/// before its last chunk: the chunks of the extended source are the old
/// chunks but the last, followed by the chunks scanned onward from the last
/// chunk's start.
pub proof fn lemma_fsc_extend(src: Seq<u8>, ext: Seq<u8>, k: nat, cur: nat)
    requires
        k >= 1,
        cur < src.len(),
        src.len() + ext.len() <= usize::MAX,
    ensures
        ({
            let cs1 = fsc_chunks(FscState { source: src, chunk_size: k, cur });
            &&& cs1.len() >= 1
            &&& cur <= cs1.last().offset < src.len()
            &&& fsc_chunks(FscState { source: src + ext, chunk_size: k, cur }) == cs1.drop_last()
                + fsc_chunks(
                FscState { source: src + ext, chunk_size: k, cur: cs1.last().offset as nat },
            )
        }),
    decreases src.len() - cur,
{
    let m1 = FscState { source: src, chunk_size: k, cur };
    let m2 = FscState { source: src + ext, chunk_size: k, cur };
    let cs1 = fsc_chunks(m1);
    if cur + k >= src.len() {
        let c = fsc_next(m1).0->Some_0;
        assert(fsc_next(m1).1.cur == src.len());
        assert(fsc_chunks(fsc_next(m1).1) =~= Seq::<Chunk>::empty());
        assert(cs1 =~= seq![c]);
        assert(cs1.last() == c);
        assert(cs1.drop_last() =~= Seq::<Chunk>::empty());
        assert(fsc_chunks(m2) =~= cs1.drop_last() + fsc_chunks(
            FscState { source: src + ext, chunk_size: k, cur: cs1.last().offset as nat },
        ));
    } else {
        lemma_fsc_extend(src, ext, k, cur + k);
        let c = fsc_next(m1).0->Some_0;
        let m1n = FscState { source: src, chunk_size: k, cur: cur + k };
        let cs1n = fsc_chunks(m1n);
        assert(fsc_next(m1).1 == m1n);
        assert(cs1 == seq![c] + cs1n);
        assert(cs1.last() == cs1n.last());
        assert(cs1.drop_last() =~= seq![c] + cs1n.drop_last());
        assert(fsc_next(m2).0->Some_0 == c);
        assert(fsc_next(m2).1 == FscState { source: src + ext, chunk_size: k, cur: cur + k });
        assert(fsc_chunks(m2) =~= cs1.drop_last() + fsc_chunks(
            FscState { source: src + ext, chunk_size: k, cur: cs1.last().offset as nat },
        ));
    }
}

/// A fixed-size chunker standing `rel` bytes into the suffix of its source
/// that starts at `o` emits the chunks of that suffix, moved `o` bytes
/// along: its boundaries depend only on the bytes left ahead of it.
pub proof fn lemma_fsc_shift(src: Seq<u8>, k: nat, o: nat, rel: nat)
    requires
        k >= 1,
        o + rel <= src.len(),
        src.len() <= usize::MAX,
    ensures
        fsc_chunks(FscState { source: src, chunk_size: k, cur: o + rel }) == translate_chunks(
            fsc_chunks(FscState { source: src.skip(o as int), chunk_size: k, cur: rel }),
            o as int,
        ),
    decreases src.len() - o - rel,
{
    let m1 = FscState { source: src, chunk_size: k, cur: o + rel };
    let m2 = FscState { source: src.skip(o as int), chunk_size: k, cur: rel };
    assert(m2.source.len() == src.len() - o);
    if o + rel == src.len() {
        assert(fsc_chunks(m1) =~= Seq::<Chunk>::empty());
        assert(fsc_chunks(m2) =~= Seq::<Chunk>::empty());
        assert(translate_chunks(Seq::<Chunk>::empty(), o as int) =~= Seq::<Chunk>::empty());
    } else {
        lemma_fsc_shift(src, k, o, fsc_advance(m2));
        let c1 = fsc_next(m1).0->Some_0;
        let c2 = fsc_next(m2).0->Some_0;
        assert(fsc_advance(m1) == o + fsc_advance(m2));
        assert(fsc_next(m1).1 == FscState { source: src, chunk_size: k, cur: o + fsc_advance(m2) });
        assert(c1.length == c2.length);
        assert(c1.offset == c2.offset + o);
        lemma_translate_concat(seq![c2], fsc_chunks(fsc_next(m2).1), o as int);
        assert(translate_chunks(seq![c2], o as int) =~= seq![c1]);
        assert(fsc_chunks(m2) == seq![c2] + fsc_chunks(fsc_next(m2).1));
        assert(fsc_chunks(m1) =~= translate_chunks(fsc_chunks(m2), o as int));
    }
}

/// The stride of a fixed-size configuration.
pub open spec fn fixed_chunk_size(cfg: ChunkerConfig) -> usize {
    match cfg {
        ChunkerConfig::FixedSize { chunk_size } => chunk_size,
        ChunkerConfig::Rabin { .. } => 0,
    }
}

/// Streaming through the adapter from any reachable adapter state equals
/// chunking the carried tail followed by all remaining bytes in one pass,
/// at stream-global offsets — shown here for the fixed-size chunker.
pub proof fn lemma_seg_fixed_run(m: SegState, blocks: Seq<Seq<u8>>)
    requires
        seg_state_wf(m),
        m.config is FixedSize,
        m.tail.len() <= fixed_chunk_size(m.config),
        m.base + m.tail.len() + blocks_len(blocks) <= usize::MAX,
    ensures
        seg_run(m, blocks) == translate_chunks(
            chunks_of(m.config, m.tail + concat_blocks(blocks)),
            m.base as int,
        ),
    decreases blocks.len(),
{
    let k = fixed_chunk_size(m.config);
    assert(m.config == (ChunkerConfig::FixedSize { chunk_size: k }));
    assert(k >= 1);
    lemma_blocks_len_nonneg(blocks);
    lemma_concat_blocks_len(blocks);
    if blocks.len() == 0 {
        let full = m.tail + concat_blocks(blocks);
        assert(full =~= m.tail);
        let st = FscState { source: full, chunk_size: k as nat, cur: 0 };
        if m.tail.len() == 0 {
            assert(fsc_chunks(st) =~= Seq::<Chunk>::empty());
            assert(translate_chunks(Seq::<Chunk>::empty(), m.base as int) =~= Seq::<
                Chunk,
            >::empty());
        } else {
            assert(fsc_next(st).0->Some_0 == (Chunk { offset: 0, length: m.tail.len() as usize }));
            assert(fsc_next(st).1.cur == full.len());
            assert(fsc_chunks(fsc_next(st).1) =~= Seq::<Chunk>::empty());
            assert(fsc_chunks(st) =~= seq![Chunk { offset: 0, length: m.tail.len() as usize }]);
            assert(seg_run(m, blocks) =~= translate_chunks(fsc_chunks(st), m.base as int));
        }
    } else {
        let block = blocks[0];
        let rest = blocks.drop_first();
        lemma_blocks_len_nonneg(rest);
        lemma_concat_blocks_len(rest);
        let buf = m.tail + block;
        if buf.len() == 0 {
            lemma_seg_fixed_run(m, rest);
            assert(m.tail + concat_blocks(blocks) =~= m.tail + concat_blocks(rest));
            assert(seg_run(m, blocks) =~= seg_run(m, rest));
        } else {
            let csb = chunks_of(m.config, buf);
            lemma_chunks_of_partition(m.config, buf);
            lemma_partition_bounds(csb, 0, buf.len() as int);
            let last = csb.last();
            let m2 = seg_push(m, block).1;
            lemma_fsc_sizes(FscState { source: buf, chunk_size: k as nat, cur: 0 });
            assert(last.length <= k);
            assert(last.offset + last.length == buf.len());
            assert(m2.tail =~= buf.skip(last.offset as int));
            assert(m2.tail.len() == last.length);
            lemma_seg_fixed_run(m2, rest);
            let full = m.tail + concat_blocks(blocks);
            assert(full =~= buf + concat_blocks(rest));
            lemma_fsc_extend(buf, concat_blocks(rest), k as nat, 0);
            lemma_fsc_shift(full, k as nat, last.offset as nat, 0);
            assert(full.skip(last.offset as int) =~= m2.tail + concat_blocks(rest));
            let inner = chunks_of(m.config, m2.tail + concat_blocks(rest));
            let cs_full = chunks_of(m.config, full);
            assert(cs_full == csb.drop_last() + fsc_chunks(
                FscState { source: full, chunk_size: k as nat, cur: last.offset as nat },
            ));
            assert(fsc_chunks(
                FscState { source: full, chunk_size: k as nat, cur: last.offset as nat },
            ) == translate_chunks(inner, last.offset as int));
            lemma_chunks_of_partition(m.config, m2.tail + concat_blocks(rest));
            lemma_partition_bounds(inner, 0, (m2.tail + concat_blocks(rest)).len() as int);
            lemma_translate_translate(inner, last.offset as int, m.base as int);
            lemma_translate_concat(
                csb.drop_last(),
                translate_chunks(inner, last.offset as int),
                m.base as int,
            );
            assert(seg_run(m2, rest) == translate_chunks(inner, m.base + last.offset));
            assert(seg_run(m, blocks) =~= translate_chunks(cs_full, m.base as int));
        }
    }
}

/// Streaming adapter equivalence for the fixed-size chunker: chunking a
/// source in one pass equals chunking the same source split into blocks of
/// any sizes and streamed through the adapter, chunk by chunk, offsets and
/// lengths alike.
pub proof fn lemma_seg_fixed_equivalence(chunk_size: usize, blocks: Seq<Seq<u8>>)
    requires
        chunk_size >= 1,
        blocks_len(blocks) <= usize::MAX,
    ensures
        seg_run(
            SegState {
                config: ChunkerConfig::FixedSize { chunk_size },
                tail: Seq::empty(),
                base: 0,
            },
            blocks,
        ) == chunks_of(ChunkerConfig::FixedSize { chunk_size }, concat_blocks(blocks)),
{
    let cfg = ChunkerConfig::FixedSize { chunk_size };
    let m = SegState { config: cfg, tail: Seq::empty(), base: 0 };
    lemma_blocks_len_nonneg(blocks);
    lemma_seg_fixed_run(m, blocks);
    assert(m.tail + concat_blocks(blocks) =~= concat_blocks(blocks));
    lemma_translate_zero(chunks_of(cfg, concat_blocks(blocks)));
}

/// Streaming through the adapter from any reachable adapter state equals
/// chunking the carried tail followed by all remaining bytes in one pass,
/// at stream-global offsets — shown here for the Rabin chunker. Every pass
/// runs a fresh chunker over tail and block, yet the boundaries agree with
/// the single whole-buffer run, because every cut is decided a full minimum
/// chunk past its chunk start, by which point the window holds the same
/// bytes in either run.
pub proof fn lemma_seg_rabin_run(
    win_size: usize,
    min_size: usize,
    avg_size: usize,
    max_size: usize,
    tail: Seq<u8>,
    base: nat,
    blocks: Seq<Seq<u8>>,
)
    requires
        config_ok(ChunkerConfig::Rabin { win_size, min_size, avg_size, max_size }),
        chunks_of(ChunkerConfig::Rabin { win_size, min_size, avg_size, max_size }, tail).len()
            <= 1,
        base + tail.len() + blocks_len(blocks) <= usize::MAX,
    ensures
        ({
            let cfg = ChunkerConfig::Rabin { win_size, min_size, avg_size, max_size };
            seg_run(SegState { config: cfg, tail, base }, blocks) == translate_chunks(
                chunks_of(cfg, tail + concat_blocks(blocks)),
                base as int,
            )
        }),
    decreases blocks.len(),
{
    let cfg = ChunkerConfig::Rabin { win_size, min_size, avg_size, max_size };
    let m = SegState { config: cfg, tail, base };
    lemma_blocks_len_nonneg(blocks);
    lemma_concat_blocks_len(blocks);
    if blocks.len() == 0 {
        let full = tail + concat_blocks(blocks);
        assert(full =~= tail);
        if tail.len() == 0 {
            assert(rabin_state_wf(rabin_init(tail, win_size, min_size, avg_size, max_size)));
            assert(chunks_of(cfg, tail) =~= Seq::<Chunk>::empty());
            assert(translate_chunks(Seq::<Chunk>::empty(), base as int) =~= Seq::<
                Chunk,
            >::empty());
        } else {
            let cs = chunks_of(cfg, tail);
            lemma_chunks_of_partition(cfg, tail);
            assert(cs.len() == 1);
            lemma_partition_bounds(cs, 0, tail.len() as int);
            assert(cs[0] == (Chunk { offset: 0, length: tail.len() as usize }));
            assert(seg_run(m, blocks) == seq![
                Chunk { offset: base as usize, length: tail.len() as usize },
            ]);
            assert(seg_run(m, blocks) =~= translate_chunks(cs, base as int));
        }
    } else {
        let block = blocks[0];
        let rest = blocks.drop_first();
        lemma_blocks_len_nonneg(rest);
        lemma_concat_blocks_len(rest);
        let buf = tail + block;
        if buf.len() == 0 {
            lemma_seg_rabin_run(win_size, min_size, avg_size, max_size, tail, base, rest);
            assert(tail + concat_blocks(blocks) =~= tail + concat_blocks(rest));
            assert(seg_run(m, blocks) =~= seg_run(m, rest));
        } else {
            let csb = chunks_of(cfg, buf);
            lemma_chunks_of_partition(cfg, buf);
            lemma_partition_bounds(csb, 0, buf.len() as int);
            let last = csb.last();
            let o: int = last.offset as int;
            let m2 = seg_push(m, block).1;
            assert(m2.tail =~= buf.skip(o));
            let mi = rabin_init(buf, win_size, min_size, avg_size, max_size);
            assert(rabin_chunks(mi) == csb);
            assert(rabin_state_wf(mi));
            lemma_rabin_init_consistent(buf, win_size, min_size, avg_size, max_size);
            lemma_rabin_last_state(mi);
            let ml = rabin_last_state(mi);
            assert(ml.cur_pos == o);
            let mbs = rabin_init(buf.skip(o), win_size, min_size, avg_size, max_size);
            assert(rabin_state_wf(mbs));
            lemma_rabin_init_consistent(buf.skip(o), win_size, min_size, avg_size, max_size);
            lemma_rabin_chunks_shift(ml, mbs, o);
            assert(rabin_chunks(ml).len() == 1);
            assert(rabin_chunks(mbs).len() == 1);
            assert(chunks_of(cfg, m2.tail).len() == 1);
            lemma_seg_rabin_run(win_size, min_size, avg_size, max_size, m2.tail, m2.base, rest);
            let full = tail + concat_blocks(blocks);
            assert(full =~= buf + concat_blocks(rest));
            lemma_rabin_extend(mi, concat_blocks(rest));
            let mie = RabinState { source: buf + concat_blocks(rest), ..mi };
            let mle = RabinState { source: buf + concat_blocks(rest), ..ml };
            assert(rabin_chunks(mie) == csb.drop_last() + rabin_chunks(mle));
            assert(rabin_init(full, win_size, min_size, avg_size, max_size) == mie);
            let mbf = rabin_init(
                m2.tail + concat_blocks(rest),
                win_size,
                min_size,
                avg_size,
                max_size,
            );
            assert(full.skip(o) =~= m2.tail + concat_blocks(rest));
            assert(rabin_state_wf(mle));
            assert(rabin_state_wf(mbf));
            lemma_rabin_init_consistent(
                m2.tail + concat_blocks(rest),
                win_size,
                min_size,
                avg_size,
                max_size,
            );
            lemma_rabin_chunks_shift(mle, mbf, o);
            let inner = chunks_of(cfg, m2.tail + concat_blocks(rest));
            let cs_full = chunks_of(cfg, full);
            assert(cs_full == csb.drop_last() + translate_chunks(inner, o));
            lemma_chunks_of_partition(cfg, m2.tail + concat_blocks(rest));
            lemma_partition_bounds(inner, 0, (m2.tail + concat_blocks(rest)).len() as int);
            lemma_translate_translate(inner, o, base as int);
            lemma_translate_concat(csb.drop_last(), translate_chunks(inner, o), base as int);
            assert(seg_run(m2, rest) == translate_chunks(inner, base + o));
            assert(seg_run(m, blocks) =~= translate_chunks(cs_full, base as int));
        }
    }
}

/// Streaming adapter equivalence for the Rabin chunker: chunking a source
/// in one pass equals chunking the same source split into blocks of any
/// sizes and streamed through the adapter, chunk by chunk, offsets and
/// lengths alike.
pub proof fn lemma_seg_rabin_equivalence(
    win_size: usize,
    min_size: usize,
    avg_size: usize,
    max_size: usize,
    blocks: Seq<Seq<u8>>,
)
    requires
        config_ok(ChunkerConfig::Rabin { win_size, min_size, avg_size, max_size }),
        blocks_len(blocks) <= usize::MAX,
    ensures
        ({
            let cfg = ChunkerConfig::Rabin { win_size, min_size, avg_size, max_size };
            seg_run(SegState { config: cfg, tail: Seq::empty(), base: 0 }, blocks) == chunks_of(
                cfg,
                concat_blocks(blocks),
            )
        }),
{
    let cfg = ChunkerConfig::Rabin { win_size, min_size, avg_size, max_size };
    lemma_blocks_len_nonneg(blocks);
    assert(rabin_state_wf(
        rabin_init(Seq::<u8>::empty(), win_size, min_size, avg_size, max_size),
    ));
    assert(chunks_of(cfg, Seq::<u8>::empty()).len() == 0);
    lemma_seg_rabin_run(win_size, min_size, avg_size, max_size, Seq::empty(), 0, blocks);
    assert(Seq::<u8>::empty() + concat_blocks(blocks) =~= concat_blocks(blocks));
    lemma_translate_zero(chunks_of(cfg, concat_blocks(blocks)));
}

/// Streaming adapter equivalence: for every valid configuration of either
/// chunker, chunking a source in one pass equals chunking the same source
/// split into blocks of any sizes and streamed through the adapter,
/// chunk-by-chunk identical offsets and lengths.
pub proof fn lemma_seg_equivalence(cfg: ChunkerConfig, blocks: Seq<Seq<u8>>)
    requires
        config_ok(cfg),
        blocks_len(blocks) <= usize::MAX,
    ensures
        seg_run(SegState { config: cfg, tail: Seq::empty(), base: 0 }, blocks) == chunks_of(
            cfg,
            concat_blocks(blocks),
        ),
{
    match cfg {
        ChunkerConfig::FixedSize { chunk_size } => {
            lemma_seg_fixed_equivalence(chunk_size, blocks);
        },
        ChunkerConfig::Rabin { win_size, min_size, avg_size, max_size } => {
            lemma_seg_rabin_equivalence(win_size, min_size, avg_size, max_size, blocks);
        },
    }
}

/// Streaming segment adapter: wraps a chunker so that a source too large to
/// hold in memory can be chunked as it arrives in bounded blocks, with the
/// provisional final chunk of each pass carried forward so no boundary byte
/// is lost or duplicated across block edges.
///
/// The caller feeds each block to `push_block`, copies the delivered chunk
/// ranges out, and calls `finish` once the source is exhausted.
pub struct SegmentAdapter {
    /// The wrapped chunker's configuration.
    pub config: ChunkerConfig,
    /// The provisional final chunk of the last pass, carried forward.
    pub tail: Vec<u8>,
    /// Global stream offset of the first tail byte.
    pub base: usize,
}

impl View for SegmentAdapter {
    type V = SegState;

    open spec fn view(&self) -> SegState {
        SegState { config: self.config, tail: self.tail@, base: self.base as nat }
    }
}

impl SegmentAdapter {
    /// Well-formedness carried by every constructed adapter.
    pub open spec fn wf(self) -> bool {
        seg_state_wf(self@)
    }

    /// Constructs an adapter wrapping the configured chunker.
    ///
    /// The same parameter checks are made as when the chunker itself is
    /// constructed, and the first to fail is reported; the size parameters
    /// of a Rabin configuration must come in the policy ordering
    /// `min_size < avg_size < max_size`.
    pub fn new(config: ChunkerConfig) -> (r: Result<Self, ConfigError>)
        requires
            config_policy_ok(config),
        ensures
            r is Ok <==> config_error(config) is None,
            r is Err ==> Some(r->Err_0) == config_error(config),
            r is Ok ==> r->Ok_0.wf() && r->Ok_0@ == (SegState {
                config,
                tail: Seq::empty(),
                base: 0,
            }),
    {
        match config {
            ChunkerConfig::FixedSize { chunk_size } => {
                if chunk_size == 0 {
                    return Err(ConfigError::ZeroChunkSize);
                }
            },
            ChunkerConfig::Rabin { win_size, min_size, avg_size, max_size } => {
                if win_size < MIN_WIN_SIZE || win_size > MAX_WIN_SIZE {
                    return Err(ConfigError::WindowSizeOutOfRange);
                }
                let w64 = win_size as u64;
                if w64 & (w64 - 1) != 0 {
                    proof {
                        assert(!(w64 == 8 || w64 == 16 || w64 == 32 || w64 == 64)) by (bit_vector)
                            requires
                                w64 & ((w64 - 1) as u64) != 0,
                        ;
                    }
                    return Err(ConfigError::WindowSizeNotPowerOfTwo);
                }
                proof {
                    assert(w64 == 8 || w64 == 16 || w64 == 32 || w64 == 64) by (bit_vector)
                        requires
                            8 <= w64 <= 64 && w64 & ((w64 - 1) as u64) == 0,
                    ;
                }
                if min_size < MIN_MIN_CHUNK_SIZE || min_size > MAX_MIN_CHUNK_SIZE {
                    return Err(ConfigError::MinChunkSizeOutOfRange);
                }
                if avg_size < MIN_AVG_CHUNK_SIZE || avg_size > MAX_AVG_CHUNK_SIZE {
                    return Err(ConfigError::AvgChunkSizeOutOfRange);
                }
                if max_size < MIN_MAX_CHUNK_SIZE || max_size > MAX_MAX_CHUNK_SIZE {
                    return Err(ConfigError::MaxChunkSizeOutOfRange);
                }
            },
        }
        let r = SegmentAdapter { config, tail: Vec::new(), base: 0 };
        proof {
            assert(r@.tail =~= Seq::<u8>::empty());
        }
        Ok(r)
    }

    /// Runs one pass over the carried tail followed by `block` and delivers
    /// the finalized chunks of this pass, at stream-global offsets; the last
    /// chunk of the pass is provisional and is carried forward instead. The
    /// result and the state change are exactly those of `seg_push`.
    #[verifier::rlimit(100)]
    pub fn push_block(&mut self, block: &[u8]) -> (out: Vec<Chunk>)
        requires
            old(self).wf(),
            old(self)@.base + old(self)@.tail.len() + block@.len() <= usize::MAX,
        ensures
            final(self).wf(),
            out@ == seg_push(old(self)@, block@).0,
            final(self)@ == seg_push(old(self)@, block@).1,
    {
        let ghost m0 = old(self)@;
        let ghost buf = m0.tail + block@;

        let mut buffer: Vec<u8> = Vec::new();
        let mut i: usize = 0;
        while i < self.tail.len()
            invariant
                self == old(self),
                i <= self.tail@.len(),
                buffer@.len() == i,
                forall|k: int| 0 <= k < i ==> buffer@[k] == self.tail@[k],
            decreases self.tail@.len() - i,
        {
            let b = self.tail[i];
            buffer.push(b);
            i = i + 1;
        }
        let mut j: usize = 0;
        while j < block.len()
            invariant
                self == old(self),
                j <= block@.len(),
                buffer@.len() == self.tail@.len() + j,
                forall|k: int| 0 <= k < self.tail@.len() ==> buffer@[k] == self.tail@[k],
                forall|k: int|
                    0 <= k < j ==> buffer@[self.tail@.len() + k] == block@[k],
            decreases block@.len() - j,
        {
            let b = block[j];
            buffer.push(b);
            j = j + 1;
        }
        proof {
            assert(buffer@ =~= buf);
        }

        if buffer.len() == 0 {
            let out: Vec<Chunk> = Vec::new();
            proof {
                assert(out@ =~= seg_push(m0, block@).0);
            }
            return out;
        }

        let ghost cs = chunks_of(m0.config, buf);
        proof {
            lemma_chunks_of_partition(m0.config, buf);
            lemma_partition_bounds(cs, 0, buf.len() as int);
        }

        let mut local: Vec<Chunk> = Vec::new();
        match self.config {
            ChunkerConfig::FixedSize { chunk_size } => {
                let mut ck = match FixedSizeChunking::new(buffer.as_slice(), chunk_size) {
                    Ok(c) => c,
                    Err(_) => vstd::pervasive::unreached(),
                };
                proof {
                    assert(fsc_chunks(ck@) == cs);
                }
                while ck.current_index < ck.source.len()
                    invariant
                        ck.wf(),
                        ck@.source == buf,
                        cs == local@ + fsc_chunks(ck@),
                    decreases buf.len() - ck@.cur,
                {
                    let ghost mprev = ck@;
                    let c = match ck.next() {
                        Some(c) => c,
                        None => vstd::pervasive::unreached(),
                    };
                    local.push(c);
                    proof {
                        assert(fsc_chunks(mprev) == seq![c] + fsc_chunks(ck@));
                        assert(local@ + fsc_chunks(ck@) =~= cs);
                    }
                }
                proof {
                    assert(fsc_chunks(ck@) =~= Seq::<Chunk>::empty());
                    assert(local@ =~= cs);
                }
            },
            ChunkerConfig::Rabin { win_size, min_size, avg_size, max_size } => {
                let mut ck = match RabinCDC::new(
                    buffer.as_slice(),
                    win_size,
                    min_size,
                    avg_size,
                    max_size,
                ) {
                    Ok(c) => c,
                    Err(_) => vstd::pervasive::unreached(),
                };
                proof {
                    assert(rabin_chunks(ck@) == cs);
                }
                while ck.cur_pos < ck.source.len()
                    invariant
                        ck.wf(),
                        ck@.source == buf,
                        cs == local@ + rabin_chunks(ck@),
                    decreases buf.len() - ck@.cur_pos,
                {
                    let ghost mprev = ck@;
                    proof {
                        lemma_rabin_next_props(mprev);
                    }
                    let c = match ck.next() {
                        Some(c) => c,
                        None => vstd::pervasive::unreached(),
                    };
                    local.push(c);
                    proof {
                        assert(rabin_chunks(mprev) == seq![c] + rabin_chunks(ck@));
                        assert(local@ + rabin_chunks(ck@) =~= cs);
                    }
                }
                proof {
                    assert(rabin_chunks(ck@) =~= Seq::<Chunk>::empty());
                    assert(local@ =~= cs);
                }
            },
        }

        assert(local@ == cs);
        assert(cs.len() >= 1);
        let last = local[local.len() - 1];
        proof {
            assert(last == cs.last());
        }

        let mut out: Vec<Chunk> = Vec::new();
        let mut e: usize = 0;
        while e + 1 < local.len()
            invariant
                local@ == cs,
                local@.len() <= usize::MAX,
                e + 1 <= local@.len(),
                out@.len() == e,
                m0.base + buf.len() <= usize::MAX,
                self.base as nat == m0.base,
                chunks_partition(cs, 0, buf.len() as int),
                forall|k: int|
                    0 <= k < cs.len() ==> 0 <= #[trigger] cs[k].offset && cs[k].offset
                        + cs[k].length <= buf.len(),
                forall|k: int|
                    0 <= k < e ==> out@[k] == (Chunk {
                        offset: (cs[k].offset + m0.base) as usize,
                        length: cs[k].length,
                    }),
            decreases local@.len() - e,
        {
            let c = local[e];
            out.push(Chunk { offset: c.offset + self.base, length: c.length });
            e = e + 1;
        }
        proof {
            assert(out@ =~= translate_chunks(cs.drop_last(), m0.base as int));
        }

        let mut new_tail: Vec<u8> = Vec::new();
        let mut t: usize = last.offset;
        while t < buffer.len()
            invariant
                buffer@ == buf,
                cs.len() >= 1,
                last == cs.last(),
                0 <= last.offset <= buf.len(),
                last.offset <= t <= buffer@.len(),
                new_tail@.len() == t - last.offset,
                forall|k: int|
                    0 <= k < new_tail@.len() ==> new_tail@[k] == buf[last.offset + k],
            decreases buffer@.len() - t,
        {
            let b = buffer[t];
            new_tail.push(b);
            t = t + 1;
        }
        proof {
            assert(new_tail@ =~= buf.skip(last.offset as int));
        }

        let new_base = self.base + last.offset;
        self.tail = new_tail;
        self.base = new_base;
        proof {
            assert(self@ == seg_push(m0, block@).1);
        }
        out
    }

    /// Flushes the carried tail as the last real chunk once the source is
    /// exhausted: the provisional chunk of the final pass can no longer be
    /// extended, so it becomes final. Returns `None` when no byte was ever
    /// carried. The result and the state change are exactly those of
    /// `seg_finish`.
    pub fn finish(&mut self) -> (r: Option<Chunk>)
        requires
            old(self).wf(),
        ensures
            final(self).wf(),
            r == seg_finish(old(self)@).0,
            final(self)@ == seg_finish(old(self)@).1,
    {
        let len = self.tail.len();
        let r = if len == 0 {
            None
        } else {
            Some(Chunk { offset: self.base, length: len })
        };
        self.base = self.base + len;
        self.tail = Vec::new();
        proof {
            assert(self@.tail =~= Seq::<u8>::empty());
        }
        r
    }
}

} // verus!
