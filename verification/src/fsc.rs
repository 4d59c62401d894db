use vstd::prelude::*;

use crate::{chunks_partition, Chunk, ConfigError};

verus! {

/// Mathematical state of a fixed-size chunker: the source bytes, the stride,
/// and the position the next chunk starts at.
pub ghost struct FscState {
    /// The source bytes being chunked.
    pub source: Seq<u8>,
    /// The fixed stride between chunk starts.
    pub chunk_size: nat,
    /// Start position of the next chunk.
    pub cur: nat,
}

/// Well-formedness of a fixed-size chunker state: a positive stride, a scan
/// position inside the source, and a source that fits in memory.
pub open spec fn fsc_state_wf(m: FscState) -> bool {
    &&& m.chunk_size >= 1
    &&& m.cur <= m.source.len()
    &&& m.source.len() <= usize::MAX
}

/// The scan position after one chunk is taken: the stride is added, capped
/// at the source length once the final chunk has been produced.
pub open spec fn fsc_advance(m: FscState) -> nat {
    if m.cur + m.chunk_size >= m.source.len() {
        m.source.len()
    } else {
        (m.cur + m.chunk_size) as nat
    }
}

/// What one call of `FixedSizeChunking::next` returns and how it moves the
/// state: at the end of the source, nothing; otherwise a chunk of exactly
/// `chunk_size` bytes, shortened to the remainder at the end of the source.
pub open spec fn fsc_next(m: FscState) -> (Option<Chunk>, FscState) {
    if m.cur >= m.source.len() {
        (None::<Chunk>, m)
    } else {
        let len = if m.source.len() - m.cur < m.chunk_size {
            m.source.len() - m.cur
        } else {
            m.chunk_size as int
        };
        (
            Some(Chunk { offset: m.cur as usize, length: len as usize }),
            FscState { cur: fsc_advance(m), ..m },
        )
    }
}

/// The whole chunk sequence a fixed-size chunker emits from state `m` until
/// it reports the end of the source.
pub open spec fn fsc_chunks(m: FscState) -> Seq<Chunk>
    decreases m.source.len() - m.cur
        when fsc_state_wf(m)
{
    if m.cur >= m.source.len() {
        Seq::empty()
    } else {
        seq![fsc_next(m).0->Some_0] + fsc_chunks(fsc_next(m).1)
    }
}

/// The emitted chunks tile the unread part of the source exactly: offsets
/// are contiguous and strictly increasing, lengths are positive, and the
/// last chunk ends at the source length.
pub proof fn lemma_fsc_partition(m: FscState)
    requires
        fsc_state_wf(m),
    ensures
        chunks_partition(fsc_chunks(m), m.cur as int, m.source.len() as int),
    decreases m.source.len() - m.cur,
{
    if m.cur >= m.source.len() {
    } else {
        let c = fsc_next(m).0->Some_0;
        let m2 = fsc_next(m).1;
        lemma_fsc_partition(m2);
        assert((seq![c] + fsc_chunks(m2)).drop_first() =~= fsc_chunks(m2));
        assert(m.cur + c.length == m2.cur);
    }
}

/// Every chunk a fixed-size chunker emits is at most `chunk_size` long, and
/// all but the last are exactly `chunk_size` long.
pub proof fn lemma_fsc_sizes(m: FscState)
    requires
        fsc_state_wf(m),
    ensures
        forall|i: int|
            0 <= i < fsc_chunks(m).len() ==> #[trigger] fsc_chunks(m)[i].length
                <= m.chunk_size,
        forall|i: int|
            0 <= i < fsc_chunks(m).len() - 1 ==> #[trigger] fsc_chunks(m)[i].length
                == m.chunk_size,
    decreases m.source.len() - m.cur,
{
    if m.cur >= m.source.len() {
    } else {
        let c = fsc_next(m).0->Some_0;
        let m2 = fsc_next(m).1;
        lemma_fsc_sizes(m2);
        let cs = fsc_chunks(m);
        assert(cs[0] == c);
        assert(forall|i: int| 1 <= i < cs.len() ==> cs[i] == #[trigger] fsc_chunks(m2)[i - 1]);
        if m.source.len() - m.cur < m.chunk_size {
            assert(m2.cur == m.source.len());
            assert(fsc_chunks(m2).len() == 0);
        }
    }
}

/// Fixed size chunking for data segmentation.
///
/// Boundaries depend only on the source length and the stride, never on the
/// content, so this is the baseline algorithm: it does not help
/// deduplication across byte-shifted edits.
pub struct FixedSizeChunking<'a> {
    /// Data buffer to chunk.
    pub source: &'a [u8],
    /// Size of each chunk.
    pub chunk_size: usize,
    /// Current index position in data.
    pub current_index: usize,
}

impl<'a> View for FixedSizeChunking<'a> {
    type V = FscState;

    open spec fn view(&self) -> FscState {
        FscState {
            source: self.source@,
            chunk_size: self.chunk_size as nat,
            cur: self.current_index as nat,
        }
    }
}

impl<'a> FixedSizeChunking<'a> {
    /// Well-formedness carried by every constructed chunker.
    pub open spec fn wf(self) -> bool {
        fsc_state_wf(self@)
    }

    /// Constructs a new `FixedSizeChunking` over `source`.
    ///
    /// A chunk size of zero admits no meaningful chunking and is a fatal
    /// configuration error; any other chunk size is accepted.
    pub fn new(source: &'a [u8], chunk_size: usize) -> (r: Result<Self, ConfigError>)
        ensures
            r is Ok <==> chunk_size > 0,
            r is Err ==> r->Err_0 == ConfigError::ZeroChunkSize,
            r is Ok ==> r->Ok_0.wf() && r->Ok_0@ == (FscState {
                source: source@,
                chunk_size: chunk_size as nat,
                cur: 0,
            }),
    {
        if chunk_size == 0 {
            return Err(ConfigError::ZeroChunkSize);
        }
        let n = source.len();
        assert(source@.len() == n);
        Ok(Self { source, chunk_size, current_index: 0 })
    }

    /// Computes the next chunk of fixed size.
    ///
    /// Returns the next chunk if any bytes are left, otherwise `None`; the
    /// result and the state change are exactly those of `fsc_next`.
    pub fn next(&mut self) -> (r: Option<Chunk>)
        requires
            old(self).wf(),
        ensures
            final(self).wf(),
            r == fsc_next(old(self)@).0,
            final(self)@ == fsc_next(old(self)@).1,
    {
        if self.current_index >= self.source.len() {
            None
        } else {
            let length = if self.source.len() - self.current_index < self.chunk_size {
                self.source.len() - self.current_index
            } else {
                self.chunk_size
            };
            let offset = self.current_index;
            if self.chunk_size >= self.source.len() - self.current_index {
                self.current_index = self.source.len();
            } else {
                self.current_index = self.current_index + self.chunk_size;
            }
            Some(Chunk { offset, length })
        }
    }
}

} // verus!
