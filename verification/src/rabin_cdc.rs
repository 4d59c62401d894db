use vstd::prelude::*;

use crate::{
    chunks_partition, lemma_translate_concat, translate_chunks, Chunk, ChunkSizeParms,
    ConfigError, MAX_AVG_CHUNK_SIZE, MAX_MAX_CHUNK_SIZE, MAX_MIN_CHUNK_SIZE, MIN_AVG_CHUNK_SIZE,
    MIN_MAX_CHUNK_SIZE, MIN_MIN_CHUNK_SIZE,
};

verus! {

/// Constants commonly used in Rabin fingerprint calculations.
pub const PRIME: u64 = 153_191u64;

/// Mask keeping the low 40 bits of the rolling fingerprint.
pub const MASK: u64 = 0x00ff_ffff_ffffu64;

/// Irreducible polynomial for the Rabin modulus.
pub const FP_POLY: u64 = 0xbfe6_b8a5_bf37_8d83u64;

/// Minimum and maximum window sizes for chunking.
pub const MIN_WIN_SIZE: usize = 8;

/// Largest acceptable window size.
pub const MAX_WIN_SIZE: usize = 64;

/// The fingerprint arithmetic is carried out modulo `2^40`; this reduces an
/// integer to that range.
pub open spec fn mod40(x: int) -> u64 {
    (x % 0x100_0000_0000) as u64
}

/// `PRIME^n` modulo `2^40`: the contribution multiplier a byte has gained
/// after `n` further bytes have entered the window.
pub open spec fn pow_p(n: nat) -> u64
    decreases n,
{
    if n == 0 {
        1u64
    } else {
        mod40(pow_p((n - 1) as nat) * PRIME)
    }
}

/// The `out_map` table entry for byte value `b`: the fingerprint contribution
/// of a byte at the moment it leaves a window of size `w`.
pub open spec fn out_entry(b: u8, w: nat) -> u64 {
    mod40(b * pow_p(w))
}

/// The irreducible-polynomial fold over `n` rounds: every entry of the `ir`
/// table holds this value for `n` the window size.
pub open spec fn ir_val(n: nat) -> u64
    decreases n,
{
    if n == 0 {
        1u64
    } else {
        let a = ir_val((n - 1) as nat);
        if a & FP_POLY != 0 {
            mod40(a + a * PRIME)
        } else {
            mod40(a * PRIME)
        }
    }
}

/// The sliding-window state of a Rabin chunker: the circular window
/// contents, the write index, and the rolling fingerprint.
pub ghost struct WinState {
    /// Contents of the circular window buffer.
    pub win: Seq<u8>,
    /// Write index: the slot the next byte goes to, holding the byte that
    /// leaves the window when it does.
    pub widx: nat,
    /// Rolling fingerprint over the window contents.
    pub hash: u64,
}

/// One step of the rolling fingerprint: the byte leaving the window gives up
/// its contribution, the entering byte `b` is folded in, and the window
/// advances by one slot.
pub open spec fn wstep(w: WinState, b: u8, wsize: nat) -> WinState {
    WinState {
        win: w.win.update(w.widx as int, b),
        widx: (((w.widx + 1) as int) % (wsize as int)) as nat,
        hash: mod40(mod40(w.hash * PRIME) + b - out_entry(w.win[w.widx as int], wsize)),
    }
}

/// Whether a boundary is declared after the window has stepped to `w2`:
/// the checksum of the new fingerprint, masked by `cut_mask`, is zero.
pub open spec fn cut_hit(w2: WinState, wsize: nat, cut_mask: u64) -> bool {
    ((w2.hash ^ ir_val(wsize)) & cut_mask) == 0
}

/// The byte-by-byte boundary scan of one chunk, beginning at `start` with
/// window state `w`, standing at position `p`. It returns the end position
/// of the chunk (exclusive) and the window state after the scanned bytes:
/// the first position past `start + min_sz - 1` whose checksum hits the cut
/// mask, or `limit` if no position up to `limit` does.
pub open spec fn scan(
    src: Seq<u8>,
    start: int,
    min_sz: int,
    limit: int,
    p: int,
    w: WinState,
    wsize: nat,
    cut_mask: u64,
) -> (int, WinState)
    decreases limit - p,
{
    if p >= limit {
        (limit, w)
    } else {
        let w2 = wstep(w, src[p], wsize);
        if p + 1 - start >= min_sz && cut_hit(w2, wsize, cut_mask) {
            (p + 1, w2)
        } else {
            scan(src, start, min_sz, limit, p + 1, w2, wsize, cut_mask)
        }
    }
}

/// Mathematical state of a Rabin chunker: the source, the validated
/// parameters, the scan position, and the sliding-window state, which is
/// carried from chunk to chunk rather than reset.
pub ghost struct RabinState {
    /// The source bytes being chunked.
    pub source: Seq<u8>,
    /// Size of the sliding window.
    pub win_size: nat,
    /// Minimum chunk size.
    pub min_size: nat,
    /// Average chunk size, setting the cut mask.
    pub avg_size: nat,
    /// Maximum chunk size.
    pub max_size: nat,
    /// Start position of the next chunk.
    pub cur_pos: nat,
    /// The sliding-window state.
    pub wstate: WinState,
}

/// The cut mask derived from the parameters: boundaries are declared where
/// the checksum, masked by it, is zero. Its width sets how often that
/// happens and so the expected chunk size.
pub open spec fn cut_mask_of(m: RabinState) -> u64 {
    (m.avg_size - m.min_size - 1) as u64
}

/// Well-formedness of a Rabin chunker state: parameters inside their
/// documented ranges and ordered, the scan position inside the source, and a
/// window buffer of the right size.
pub open spec fn rabin_state_wf(m: RabinState) -> bool {
    &&& m.source.len() <= usize::MAX
    &&& m.cur_pos <= m.source.len()
    &&& (m.win_size == 8 || m.win_size == 16 || m.win_size == 32 || m.win_size == 64)
    &&& MIN_MIN_CHUNK_SIZE <= m.min_size <= MAX_MIN_CHUNK_SIZE
    &&& MIN_AVG_CHUNK_SIZE <= m.avg_size <= MAX_AVG_CHUNK_SIZE
    &&& MIN_MAX_CHUNK_SIZE <= m.max_size <= MAX_MAX_CHUNK_SIZE
    &&& m.min_size < m.avg_size < m.max_size
    &&& m.wstate.win.len() == m.win_size
    &&& m.wstate.widx < m.win_size
    &&& m.wstate.hash <= MASK
}

/// What one call of `RabinCDC::next` returns and how it moves the state.
///
/// Past the end of the source, nothing. If fewer than `min_size` bytes
/// remain, the whole remainder is one final chunk and no scan takes place.
/// Otherwise the rolling scan runs to at most `min(max_size, remaining)`
/// bytes and the chunk ends at the boundary it finds, or at that limit.
pub open spec fn rabin_next(m: RabinState) -> (Option<Chunk>, RabinState) {
    if m.cur_pos >= m.source.len() {
        (None::<Chunk>, m)
    } else if m.source.len() - m.cur_pos < m.min_size {
        (
            Some(Chunk { offset: m.cur_pos as usize, length: (m.source.len() - m.cur_pos) as usize }),
            RabinState { cur_pos: m.source.len(), ..m },
        )
    } else {
        let remain = m.source.len() - m.cur_pos;
        let limit = m.cur_pos + (if m.max_size <= remain {
            m.max_size as int
        } else {
            remain
        });
        let r = scan(
            m.source,
            m.cur_pos as int,
            m.min_size as int,
            limit,
            m.cur_pos as int,
            m.wstate,
            m.win_size,
            cut_mask_of(m),
        );
        (
            Some(Chunk { offset: m.cur_pos as usize, length: (r.0 - m.cur_pos) as usize }),
            RabinState { cur_pos: r.0 as nat, wstate: r.1, ..m },
        )
    }
}

/// Bounds of the boundary scan: it ends no earlier than where it stands and
/// no later than `limit`, it moves at least one byte when any remain, a
/// content-defined boundary honours the minimum chunk size, and the window
/// state stays well-formed.
pub proof fn lemma_scan_bounds(
    src: Seq<u8>,
    start: int,
    min_sz: int,
    limit: int,
    p: int,
    w: WinState,
    wsize: nat,
    cut_mask: u64,
)
    requires
        start <= p <= limit,
        wsize >= 1,
        w.win.len() == wsize,
        w.widx < wsize,
        w.hash <= MASK,
    ensures
        ({
            let r = scan(src, start, min_sz, limit, p, w, wsize, cut_mask);
            &&& p <= r.0 <= limit
            &&& (p < limit ==> r.0 > p)
            &&& (r.0 < limit ==> r.0 - start >= min_sz)
            &&& r.1.win.len() == wsize
            &&& r.1.widx < wsize
            &&& r.1.hash <= MASK
        }),
    decreases limit - p,
{
    if p >= limit {
    } else {
        let w2 = wstep(w, src[p], wsize);
        assert(w2.hash <= MASK);
        if p + 1 - start >= min_sz && cut_hit(w2, wsize, cut_mask) {
        } else {
            lemma_scan_bounds(src, start, min_sz, limit, p + 1, w2, wsize, cut_mask);
        }
    }
}

/// What one step of the chunker guarantees when bytes remain: a chunk is
/// produced whose offset is the scan position, whose positive length moves
/// the position forward by exactly that many bytes, never past the source
/// end and never beyond `max_size`; every chunk that does not end the source
/// is at least `min_size` long; and the state stays well-formed with the
/// source and the parameters untouched.
pub proof fn lemma_rabin_next_props(m: RabinState)
    requires
        rabin_state_wf(m),
        m.cur_pos < m.source.len(),
    ensures
        ({
            let (c, m2) = rabin_next(m);
            &&& c is Some
            &&& c->Some_0.offset == m.cur_pos
            &&& c->Some_0.length >= 1
            &&& m2.cur_pos == m.cur_pos + c->Some_0.length
            &&& m2.cur_pos <= m.source.len()
            &&& c->Some_0.length <= m.max_size
            &&& (m2.cur_pos < m.source.len() ==> c->Some_0.length >= m.min_size)
            &&& rabin_state_wf(m2)
            &&& m2.source == m.source
            &&& m2.win_size == m.win_size
            &&& m2.min_size == m.min_size
            &&& m2.avg_size == m.avg_size
            &&& m2.max_size == m.max_size
        }),
{
    if m.source.len() - m.cur_pos < m.min_size {
    } else {
        let remain = m.source.len() - m.cur_pos;
        let limit = m.cur_pos + (if m.max_size <= remain {
            m.max_size as int
        } else {
            remain
        });
        lemma_scan_bounds(
            m.source,
            m.cur_pos as int,
            m.min_size as int,
            limit,
            m.cur_pos as int,
            m.wstate,
            m.win_size,
            cut_mask_of(m),
        );
    }
}

/// The whole chunk sequence a Rabin chunker emits from state `m` until it
/// reports the end of the source.
pub open spec fn rabin_chunks(m: RabinState) -> Seq<Chunk>
    decreases m.source.len() - m.cur_pos
        when rabin_state_wf(m)
        via rabin_chunks_decreases
{
    if m.cur_pos >= m.source.len() {
        Seq::empty()
    } else {
        seq![rabin_next(m).0->Some_0] + rabin_chunks(rabin_next(m).1)
    }
}

#[via_fn]
proof fn rabin_chunks_decreases(m: RabinState) {
    if m.cur_pos < m.source.len() {
        lemma_rabin_next_props(m);
    }
}

/// The emitted chunks tile the unread part of the source exactly: offsets
/// are contiguous and strictly increasing, lengths are positive, and the
/// last chunk ends at the source length.
pub proof fn lemma_rabin_partition(m: RabinState)
    requires
        rabin_state_wf(m),
    ensures
        chunks_partition(rabin_chunks(m), m.cur_pos as int, m.source.len() as int),
    decreases m.source.len() - m.cur_pos,
{
    if m.cur_pos >= m.source.len() {
    } else {
        lemma_rabin_next_props(m);
        let c = rabin_next(m).0->Some_0;
        let m2 = rabin_next(m).1;
        lemma_rabin_partition(m2);
        assert((seq![c] + rabin_chunks(m2)).drop_first() =~= rabin_chunks(m2));
    }
}

/// Every chunk is at most `max_size` long, and every chunk except possibly
/// the last one is at least `min_size` long; only an undersized remainder at
/// the end of the source escapes the minimum.
pub proof fn lemma_rabin_sizes(m: RabinState)
    requires
        rabin_state_wf(m),
    ensures
        forall|i: int|
            0 <= i < rabin_chunks(m).len() ==> #[trigger] rabin_chunks(m)[i].length
                <= m.max_size,
        forall|i: int|
            0 <= i < rabin_chunks(m).len() - 1 ==> #[trigger] rabin_chunks(m)[i].length
                >= m.min_size,
    decreases m.source.len() - m.cur_pos,
{
    if m.cur_pos >= m.source.len() {
    } else {
        lemma_rabin_next_props(m);
        let c = rabin_next(m).0->Some_0;
        let m2 = rabin_next(m).1;
        lemma_rabin_sizes(m2);
        let cs = rabin_chunks(m);
        let rest = rabin_chunks(m2);
        assert(cs == seq![c] + rest);
        assert(cs[0] == c);
        assert(forall|i: int| 1 <= i < cs.len() ==> cs[i] == #[trigger] rest[i - 1]);
        if m2.cur_pos < m.source.len() {
            assert(rest.len() >= 1);
            assert(c.length >= m.min_size);
        } else {
            assert(rest.len() == 0);
        }
        assert forall|i: int| 0 <= i < cs.len() implies cs[i].length <= m.max_size by {
            if i >= 1 {
                assert(cs[i] == rest[i - 1]);
                assert(rest[i - 1].length <= m2.max_size);
            }
        }
        assert forall|i: int| 0 <= i < cs.len() - 1 implies cs[i].length >= m.min_size by {
            if i >= 1 {
                assert(cs[i] == rest[i - 1]);
                assert(rest[i - 1].length >= m2.min_size);
            }
        }
    }
}

/// The state a fresh Rabin chunker starts in: scan position zero, a
/// zero-filled window, write index zero and a zero fingerprint.
pub open spec fn rabin_init(
    src: Seq<u8>,
    win_size: usize,
    min_size: usize,
    avg_size: usize,
    max_size: usize,
) -> RabinState {
    RabinState {
        source: src,
        win_size: win_size as nat,
        min_size: min_size as nat,
        avg_size: avg_size as nat,
        max_size: max_size as nat,
        cur_pos: 0,
        wstate: WinState { win: Seq::new(win_size as nat, |i: int| 0u8), widx: 0, hash: 0 },
    }
}

/// The first parameter check that fails when a Rabin chunker is asked for,
/// in the order the constructor makes them, or `None` when all pass.
pub open spec fn rabin_config_error(
    win_size: usize,
    min_size: usize,
    avg_size: usize,
    max_size: usize,
) -> Option<ConfigError> {
    if !(MIN_WIN_SIZE <= win_size <= MAX_WIN_SIZE) {
        Some(ConfigError::WindowSizeOutOfRange)
    } else if !(win_size == 8 || win_size == 16 || win_size == 32 || win_size == 64) {
        Some(ConfigError::WindowSizeNotPowerOfTwo)
    } else if !(MIN_MIN_CHUNK_SIZE <= min_size <= MAX_MIN_CHUNK_SIZE) {
        Some(ConfigError::MinChunkSizeOutOfRange)
    } else if !(MIN_AVG_CHUNK_SIZE <= avg_size <= MAX_AVG_CHUNK_SIZE) {
        Some(ConfigError::AvgChunkSizeOutOfRange)
    } else if !(MIN_MAX_CHUNK_SIZE <= max_size <= MAX_MAX_CHUNK_SIZE) {
        Some(ConfigError::MaxChunkSizeOutOfRange)
    } else {
        None
    }
}

/// Determinism: the chunk sequence a Rabin chunker emits is a function of
/// the construction parameters and the source bytes alone. Two chunkers
/// built with identical parameters over identical bytes — so both start in
/// `rabin_init` of those values — emit identical chunk sequences: there is
/// no randomness and no hidden state.
pub proof fn lemma_rabin_deterministic(
    src: Seq<u8>,
    win_size: usize,
    min_size: usize,
    avg_size: usize,
    max_size: usize,
    a: RabinState,
    b: RabinState,
)
    requires
        a == rabin_init(src, win_size, min_size, avg_size, max_size),
        b == rabin_init(src, win_size, min_size, avg_size, max_size),
    ensures
        rabin_chunks(a) == rabin_chunks(b),
{
}

/// Masking by the low 40 bits is reduction modulo `2^40`.
pub proof fn lemma_mask_mod(x: u64)
    ensures
        (x & MASK) == mod40(x as int),
{
    assert(x & 0x00ff_ffff_ffffu64 == x % 0x100_0000_0000u64) by (bit_vector);
}

/// The borrow-and-mask form the fingerprint step computes equals the
/// mathematical subtraction modulo `2^40`.
pub proof fn lemma_roll_sub(t2: u64, out_v: u64)
    requires
        t2 < 0x200_0000_0000,
        out_v <= MASK,
    ensures
        ((t2 + 0x100_0000_0000) as u64 - out_v) as u64 & MASK == mod40(t2 - out_v),
{
    let s = ((t2 + 0x100_0000_0000) as u64 - out_v) as u64;
    lemma_mask_mod(s);
    vstd::arithmetic::div_mod::lemma_mod_multiples_vanish(1, t2 - out_v, 0x100_0000_0000);
}

/// The window contents in age order: the byte next to leave first, the most
/// recently written byte last.
pub open spec fn ages(w: WinState, wsize: nat) -> Seq<u8> {
    Seq::new(wsize, |i: int| w.win[((w.widx + i) % (wsize as int))])
}

/// The fingerprint of a byte sequence read in order: each new byte enters at
/// the bottom and every earlier byte moves up one power of the multiplier.
pub open spec fn fp_of(s: Seq<u8>) -> u64
    decreases s.len(),
{
    if s.len() == 0 {
        0u64
    } else {
        mod40(fp_of(s.drop_last()) * PRIME + s.last())
    }
}

/// A window state whose rolling fingerprint is the fingerprint of its
/// contents in age order — as construction establishes and, by
/// `lemma_wstep_consistent`, every step preserves.
pub open spec fn wstate_consistent(w: WinState, wsize: nat) -> bool {
    w.hash == fp_of(ages(w, wsize))
}

/// The fingerprint of an all-zero sequence is zero.
pub proof fn lemma_fp_zeros(s: Seq<u8>)
    requires
        forall|i: int| 0 <= i < s.len() ==> s[i] == 0,
    ensures
        fp_of(s) == 0,
    decreases s.len(),
{
    if s.len() > 0 {
        lemma_fp_zeros(s.drop_last());
    }
}

/// The oldest byte of a sequence can be split off the fingerprint: it
/// stands at the highest power of the multiplier.
#[verifier::spinoff_prover]
pub proof fn lemma_fp_drop_first(s: Seq<u8>)
    requires
        s.len() >= 1,
    ensures
        fp_of(s) == mod40(s[0] * pow_p((s.len() - 1) as nat) + fp_of(s.drop_first())),
    decreases s.len(),
{
    let m: int = 0x100_0000_0000;
    let n = s.len() as int;
    if n == 1 {
        assert(s.drop_last() =~= Seq::<u8>::empty());
        assert(s.drop_first() =~= Seq::<u8>::empty());
        assert(s.last() == s[0]);
    } else {
        let p: int = PRIME as int;
        let dl = s.drop_last();
        let dldf = dl.drop_first();
        let sdf = s.drop_first();
        assert(sdf.drop_last() =~= dldf);
        assert(sdf.last() == s.last());
        assert(dl[0] == s[0]);
        lemma_fp_drop_first(dl);
        let a: int = s[0] as int;
        let l: int = s.last() as int;
        let q2: int = pow_p((n - 2) as nat) as int;
        let q1: int = pow_p((n - 1) as nat) as int;
        let f: int = fp_of(dldf) as int;
        assert(q1 == (q2 * p) % m);
        assert(fp_of(dl) as int == (a * q2 + f) % m);
        // the step from `dl` to `s` multiplies by the prime and adds the last byte
        assert(fp_of(s) as int == (((a * q2 + f) % m) * p + l) % m);
        vstd::arithmetic::div_mod::lemma_mul_mod_noop_left(a * q2 + f, p, m);
        vstd::arithmetic::div_mod::lemma_add_mod_noop_right(l, ((a * q2 + f) % m) * p, m);
        vstd::arithmetic::div_mod::lemma_add_mod_noop_right(l, (a * q2 + f) * p, m);
        assert(fp_of(s) as int == ((a * q2 + f) * p + l) % m);
        assert((a * q2 + f) * p == a * (q2 * p) + f * p) by (nonlinear_arith);
        // fold the prime into the power of the split-off byte
        vstd::arithmetic::div_mod::lemma_mul_mod_noop_right(a, q2 * p, m);
        assert((a * q1) % m == (a * (q2 * p)) % m);
        vstd::arithmetic::div_mod::lemma_add_mod_noop(a * (q2 * p), f * p + l, m);
        vstd::arithmetic::div_mod::lemma_add_mod_noop(a * q1, f * p + l, m);
        assert(fp_of(s) as int == (a * q1 + (f * p + l)) % m);
        // the right-hand side folds the tail fingerprint the same way
        assert(fp_of(sdf) as int == (f * p + l) % m);
        vstd::arithmetic::div_mod::lemma_add_mod_noop_right(a * q1, f * p + l, m);
        assert(mod40(a * q1 + fp_of(sdf)) as int == (a * q1 + (f * p + l)) % m);
        assert(fp_of(s) == mod40(a * q1 + fp_of(sdf)));
        assert(mod40(a * q1 + fp_of(sdf)) == mod40(s[0] * pow_p((s.len() - 1) as nat) + fp_of(
            s.drop_first(),
        )));
    }
}

/// One window step drops the oldest byte from the ages and appends the new
/// byte at the youngest end.
pub proof fn lemma_wstep_ages(w: WinState, b: u8, wsize: nat)
    requires
        wsize >= 1,
        w.win.len() == wsize,
        w.widx < wsize,
    ensures
        ages(wstep(w, b, wsize), wsize) == ages(w, wsize).drop_first().push(b),
{
    let ws = wsize as int;
    let ag = ages(w, wsize);
    let w2 = wstep(w, b, wsize);
    let ag2 = ages(w2, wsize);
    assert forall|i: int| 0 <= i < ws implies ag2[i] == ag.drop_first().push(b)[i] by {
        vstd::arithmetic::div_mod::lemma_mod_self_0(ws);
        let v = (w.widx + 1 + i) % ws;
        vstd::arithmetic::div_mod::lemma_add_mod_noop((w.widx + 1) as int, i, ws);
        vstd::arithmetic::div_mod::lemma_small_mod(i as nat, wsize);
        if w.widx + 1 + i < ws {
            vstd::arithmetic::div_mod::lemma_small_mod((w.widx + 1 + i) as nat, wsize);
        } else {
            vstd::arithmetic::div_mod::lemma_mod_multiples_vanish(1, w.widx + 1 + i - ws, ws);
            vstd::arithmetic::div_mod::lemma_small_mod((w.widx + 1 + i - ws) as nat, wsize);
        }
        if i < ws - 1 {
            assert(v != w.widx);
            assert(ag2[i] == w.win[v]);
            vstd::arithmetic::div_mod::lemma_add_mod_noop(w.widx as int, i + 1, ws);
            vstd::arithmetic::div_mod::lemma_small_mod((i + 1) as nat, wsize);
            assert(ag.drop_first().push(b)[i] == ag[i + 1]);
            assert(ag[i + 1] == w.win[(w.widx + i + 1) % ws]);
        } else {
            assert(v == w.widx);
            assert(ag2[i] == b);
        }
    }
    assert(ag2 =~= ag.drop_first().push(b));
}

/// One fingerprint step is sound: stepping byte `b` into a consistent
/// window state drops the oldest byte from the ages, appends `b`, and moves
/// the fingerprint to the fingerprint of exactly those new contents.
pub proof fn lemma_wstep_consistent(w: WinState, b: u8, wsize: nat)
    requires
        wsize >= 1,
        w.win.len() == wsize,
        w.widx < wsize,
        wstate_consistent(w, wsize),
    ensures
        wstate_consistent(wstep(w, b, wsize), wsize),
        ages(wstep(w, b, wsize), wsize) == ages(w, wsize).drop_first().push(b),
{
    let m: int = 0x100_0000_0000;
    let p: int = PRIME as int;
    let ws = wsize as int;
    let ag = ages(w, wsize);
    let w2 = wstep(w, b, wsize);
    let ag2 = ages(w2, wsize);
    lemma_wstep_ages(w, b, wsize);
    let agdf = ag.drop_first();
    lemma_fp_drop_first(ag);
    let a: int = ag[0] as int;
    let f: int = fp_of(agdf) as int;
    let q1: int = pow_p((wsize - 1) as nat) as int;
    let qw: int = pow_p(wsize) as int;
    let h: int = w.hash as int;
    assert(ag[0] == w.win[w.widx as int]) by {
        vstd::arithmetic::div_mod::lemma_small_mod(w.widx, wsize);
    }
    assert(h == (a * q1 + f) % m);
    assert(qw == (q1 * p) % m);
    // fingerprint of the new contents
    assert(agdf.push(b).drop_last() =~= agdf);
    assert(fp_of(ag2) as int == (f * p + b) % m);
    // the exec-form step: multiply, add the new byte, subtract the
    // contribution of the departing byte
    assert(out_entry(w.win[w.widx as int], wsize) as int == (a * qw) % m);
    assert(w2.hash as int == ((h * p) % m + b - (a * qw) % m) % m);
    vstd::arithmetic::div_mod::lemma_mul_mod_noop_left(a * q1 + f, p, m);
    assert((h * p) % m == ((a * q1 + f) * p) % m) by {
        assert(h == (a * q1 + f) % m);
    }
    assert((a * q1 + f) * p == a * (q1 * p) + f * p) by (nonlinear_arith);
    vstd::arithmetic::div_mod::lemma_add_mod_noop_right(b - (a * qw) % m, h * p, m);
    vstd::arithmetic::div_mod::lemma_add_mod_noop_right(b - (a * qw) % m, (a * q1 + f) * p, m);
    assert(w2.hash as int == ((a * (q1 * p) + f * p) + b - (a * qw) % m) % m);
    vstd::arithmetic::div_mod::lemma_sub_mod_noop_right(a * (q1 * p) + f * p + b, a * qw, m);
    assert(w2.hash as int == ((a * (q1 * p) + f * p) + b - (a * qw)) % m) by {
        vstd::arithmetic::div_mod::lemma_mul_mod_noop_right(a, q1 * p, m);
        vstd::arithmetic::div_mod::lemma_sub_mod_noop_right(
            a * (q1 * p) + f * p + b,
            a * (q1 * p),
            m,
        );
        assert((a * qw) % m == (a * (q1 * p)) % m);
        vstd::arithmetic::div_mod::lemma_sub_mod_noop_right(
            a * (q1 * p) + f * p + b,
            (a * qw) % m,
            m,
        );
        vstd::arithmetic::div_mod::lemma_mod_twice(a * qw, m);
    }
    assert(a * (q1 * p) + f * p + b - a * qw == f * p + b + (a * (q1 * p) - a * qw))
        by (nonlinear_arith);
    vstd::arithmetic::div_mod::lemma_mul_mod_noop_right(a, q1 * p, m);
    vstd::arithmetic::div_mod::lemma_sub_mod_noop_right(f * p + b + a * (q1 * p), a * (q1 * p), m);
    vstd::arithmetic::div_mod::lemma_sub_mod_noop_right(f * p + b + a * (q1 * p), a * qw, m);
    assert((f * p + b + (a * (q1 * p) - a * qw)) % m == (f * p + b) % m) by {
        assert(f * p + b + (a * (q1 * p) - a * qw) == f * p + b + a * (q1 * p) - a * qw);
        assert((f * p + b + a * (q1 * p) - a * qw) % m == (f * p + b + a * (q1 * p) - (a * qw) % m)
            % m);
        assert((a * qw) % m == (a * (q1 * p)) % m);
        assert((f * p + b + a * (q1 * p) - (a * (q1 * p)) % m) % m == (f * p + b + a * (q1 * p) - a
            * (q1 * p)) % m);
    }
    assert(w2.hash as int == (f * p + b) % m);
}

/// The newest `c` window slots hold the `c` source bytes just before
/// position `p`; the older slots are unconstrained.
pub open spec fn window_matches(w: WinState, src: Seq<u8>, p: int, c: int, wsize: nat) -> bool {
    forall|i: int|
        wsize - c <= i < wsize ==> ages(w, wsize)[i] == src[p - (wsize as int) + i]
}

/// Stepping the byte at position `p` into a window that matches the last
/// `c` source bytes gives a window that matches one byte more, up to the
/// whole window.
pub proof fn lemma_wstep_matches(w: WinState, src: Seq<u8>, p: int, c: int, wsize: nat)
    requires
        wsize >= 1,
        w.win.len() == wsize,
        w.widx < wsize,
        0 <= c <= wsize,
        0 <= p < src.len(),
        window_matches(w, src, p, c, wsize),
    ensures
        window_matches(
            wstep(w, src[p], wsize),
            src,
            p + 1,
            if c + 1 <= wsize { c + 1 } else { wsize as int },
            wsize,
        ),
{
    let ws = wsize as int;
    let c2: int = if c + 1 <= ws { c + 1 } else { ws };
    lemma_wstep_ages(w, src[p], wsize);
    let ag = ages(w, wsize);
    let ag2 = ages(wstep(w, src[p], wsize), wsize);
    assert forall|i: int| ws - c2 <= i < ws implies ag2[i] == src[p + 1 - ws + i] by {
        if i < ws - 1 {
            assert(ag2[i] == ag[i + 1]);
            assert(ws - c <= i + 1 < ws);
        } else {
            assert(ag2[i] == src[p]);
        }
    }
}

/// The boundary scan keeps the window state consistent: it only ever steps
/// the fingerprint.
pub proof fn lemma_scan_consistent(
    src: Seq<u8>,
    start: int,
    min_sz: int,
    limit: int,
    p: int,
    w: WinState,
    wsize: nat,
    cut_mask: u64,
)
    requires
        wsize >= 1,
        w.win.len() == wsize,
        w.widx < wsize,
        wstate_consistent(w, wsize),
        0 <= p <= limit,
        limit <= src.len(),
    ensures
        wstate_consistent(scan(src, start, min_sz, limit, p, w, wsize, cut_mask).1, wsize),
    decreases limit - p,
{
    if p >= limit {
    } else {
        lemma_wstep_consistent(w, src[p], wsize);
        let w2 = wstep(w, src[p], wsize);
        if p + 1 - start >= min_sz && cut_hit(w2, wsize, cut_mask) {
        } else {
            lemma_scan_consistent(src, start, min_sz, limit, p + 1, w2, wsize, cut_mask);
        }
    }
}

/// The boundary scan is local: two consistent window states scanning the
/// same bytes — one within the full source, one within its suffix starting
/// at `o` — cut at corresponding positions. Every cut test happens at least
/// `min_sz >= wsize` bytes past the chunk start, by which point both
/// windows hold exactly the same last `wsize` source bytes, so their
/// fingerprints agree whatever they started from.
pub proof fn lemma_scan_agree(
    src: Seq<u8>,
    o: int,
    start: int,
    min_sz: int,
    limit: int,
    p: int,
    wa: WinState,
    wb: WinState,
    ca: int,
    cb: int,
    wsize: nat,
    cut_mask: u64,
)
    requires
        wsize >= 1,
        min_sz >= wsize,
        0 <= o <= start,
        start <= p <= limit,
        limit <= src.len(),
        wa.win.len() == wsize,
        wa.widx < wsize,
        wb.win.len() == wsize,
        wb.widx < wsize,
        wstate_consistent(wa, wsize),
        wstate_consistent(wb, wsize),
        0 <= ca <= wsize,
        0 <= cb <= wsize,
        ca <= p,
        cb <= p - o,
        ca >= (if p - start < wsize { p - start } else { wsize as int }),
        cb >= (if p - start < wsize { p - start } else { wsize as int }),
        window_matches(wa, src, p, ca, wsize),
        window_matches(wb, src.skip(o), p - o, cb, wsize),
    ensures
        scan(src, start, min_sz, limit, p, wa, wsize, cut_mask).0 == scan(
            src.skip(o),
            start - o,
            min_sz,
            limit - o,
            p - o,
            wb,
            wsize,
            cut_mask,
        ).0 + o,
    decreases limit - p,
{
    let srcb = src.skip(o);
    if p >= limit {
    } else {
        let b = src[p];
        assert(srcb[p - o] == b);
        let w2a = wstep(wa, b, wsize);
        let w2b = wstep(wb, b, wsize);
        lemma_wstep_consistent(wa, b, wsize);
        lemma_wstep_consistent(wb, b, wsize);
        lemma_wstep_matches(wa, src, p, ca, wsize);
        lemma_wstep_matches(wb, srcb, p - o, cb, wsize);
        let c2a: int = if ca + 1 <= wsize { ca + 1 } else { wsize as int };
        let c2b: int = if cb + 1 <= wsize { cb + 1 } else { wsize as int };
        if p + 1 - start >= min_sz {
            assert(c2a == wsize && c2b == wsize);
            assert forall|i: int| 0 <= i < wsize implies ages(w2a, wsize)[i] == ages(
                w2b,
                wsize,
            )[i] by {
                assert(ages(w2a, wsize)[i] == src[p + 1 - (wsize as int) + i]);
                assert(ages(w2b, wsize)[i] == srcb[p - o + 1 - (wsize as int) + i]);
                assert(srcb[p - o + 1 - (wsize as int) + i] == src[p + 1 - (wsize as int) + i]);
            }
            assert(ages(w2a, wsize) =~= ages(w2b, wsize));
            assert(w2a.hash == w2b.hash);
        }
        if p + 1 - start >= min_sz && cut_hit(w2a, wsize, cut_mask) {
            assert(cut_hit(w2b, wsize, cut_mask));
        } else {
            lemma_scan_agree(
                src,
                o,
                start,
                min_sz,
                limit,
                p + 1,
                w2a,
                w2b,
                c2a,
                c2b,
                wsize,
                cut_mask,
            );
        }
    }
}

/// One chunker step is local: a chunker within the full source and one
/// within its suffix, standing at the same stream position with consistent
/// windows, produce the same chunk — offset apart — and stay in lockstep.
pub proof fn lemma_rabin_next_agree(ma: RabinState, mb: RabinState, o: int)
    requires
        rabin_state_wf(ma),
        rabin_state_wf(mb),
        0 <= o <= ma.cur_pos,
        mb.source == ma.source.skip(o),
        mb.cur_pos == ma.cur_pos - o,
        mb.win_size == ma.win_size,
        mb.min_size == ma.min_size,
        mb.avg_size == ma.avg_size,
        mb.max_size == ma.max_size,
        wstate_consistent(ma.wstate, ma.win_size),
        wstate_consistent(mb.wstate, mb.win_size),
    ensures
        ({
            let (ca, m2a) = rabin_next(ma);
            let (cb, m2b) = rabin_next(mb);
            &&& (ca is Some <==> cb is Some)
            &&& ca is Some ==> {
                &&& ca->Some_0.offset == cb->Some_0.offset + o
                &&& ca->Some_0.length == cb->Some_0.length
                &&& m2a.cur_pos == m2b.cur_pos + o
                &&& wstate_consistent(m2a.wstate, ma.win_size)
                &&& wstate_consistent(m2b.wstate, mb.win_size)
            }
        }),
{
    let lena = ma.source.len() as int;
    let lenb = mb.source.len() as int;
    assert(lenb == lena - o);
    if ma.cur_pos >= lena {
    } else if lena - ma.cur_pos < ma.min_size {
    } else {
        let remain = lena - ma.cur_pos;
        let limit = ma.cur_pos + (if ma.max_size <= remain {
            ma.max_size as int
        } else {
            remain
        });
        lemma_scan_agree(
            ma.source,
            o,
            ma.cur_pos as int,
            ma.min_size as int,
            limit,
            ma.cur_pos as int,
            ma.wstate,
            mb.wstate,
            0,
            0,
            ma.win_size,
            cut_mask_of(ma),
        );
        lemma_scan_consistent(
            ma.source,
            ma.cur_pos as int,
            ma.min_size as int,
            limit,
            ma.cur_pos as int,
            ma.wstate,
            ma.win_size,
            cut_mask_of(ma),
        );
        lemma_scan_consistent(
            mb.source,
            mb.cur_pos as int,
            mb.min_size as int,
            limit - o,
            mb.cur_pos as int,
            mb.wstate,
            mb.win_size,
            cut_mask_of(mb),
        );
        assert(cut_mask_of(mb) == cut_mask_of(ma));
        lemma_scan_bounds(
            ma.source,
            ma.cur_pos as int,
            ma.min_size as int,
            limit,
            ma.cur_pos as int,
            ma.wstate,
            ma.win_size,
            cut_mask_of(ma),
        );
        lemma_scan_bounds(
            mb.source,
            mb.cur_pos as int,
            mb.min_size as int,
            limit - o,
            mb.cur_pos as int,
            mb.wstate,
            mb.win_size,
            cut_mask_of(mb),
        );
        let ra = scan(
            ma.source,
            ma.cur_pos as int,
            ma.min_size as int,
            limit,
            ma.cur_pos as int,
            ma.wstate,
            ma.win_size,
            cut_mask_of(ma),
        );
        let rb = scan(
            mb.source,
            mb.cur_pos as int,
            mb.min_size as int,
            limit - o,
            mb.cur_pos as int,
            mb.wstate,
            mb.win_size,
            cut_mask_of(mb),
        );
        assert(ra.0 == rb.0 + o);
        assert(rabin_next(ma).1.cur_pos == ra.0 as nat);
        assert(rabin_next(mb).1.cur_pos == rb.0 as nat);
        assert(rabin_next(ma).0->Some_0.length == ra.0 - ma.cur_pos);
        assert(rabin_next(mb).0->Some_0.length == rb.0 - mb.cur_pos);
        assert(wstate_consistent(rabin_next(ma).1.wstate, ma.win_size));
        assert(wstate_consistent(rabin_next(mb).1.wstate, mb.win_size));
    }
}

/// The chunk sequence is local to the bytes ahead: a chunker within the
/// full source and a fresh-windowed chunker within its suffix — both
/// standing at the same stream position with consistent windows — emit the
/// same chunks, moved by the suffix offset. The window carried across the
/// boundary cannot change any later cut: every cut is decided at least a
/// full minimum chunk past its chunk start, when both windows hold the same
/// bytes again.
pub proof fn lemma_rabin_chunks_shift(ma: RabinState, mb: RabinState, o: int)
    requires
        rabin_state_wf(ma),
        rabin_state_wf(mb),
        0 <= o <= ma.cur_pos,
        mb.source == ma.source.skip(o),
        mb.cur_pos == ma.cur_pos - o,
        mb.win_size == ma.win_size,
        mb.min_size == ma.min_size,
        mb.avg_size == ma.avg_size,
        mb.max_size == ma.max_size,
        wstate_consistent(ma.wstate, ma.win_size),
        wstate_consistent(mb.wstate, mb.win_size),
    ensures
        rabin_chunks(ma) == translate_chunks(rabin_chunks(mb), o),
    decreases ma.source.len() - ma.cur_pos,
{
    if ma.cur_pos >= ma.source.len() {
        assert(rabin_chunks(ma) =~= translate_chunks(rabin_chunks(mb), o));
    } else {
        lemma_rabin_next_props(ma);
        lemma_rabin_next_props(mb);
        lemma_rabin_next_agree(ma, mb, o);
        let ca = rabin_next(ma).0->Some_0;
        let cb = rabin_next(mb).0->Some_0;
        let m2a = rabin_next(ma).1;
        let m2b = rabin_next(mb).1;
        lemma_rabin_chunks_shift(m2a, m2b, o);
        lemma_translate_concat(seq![cb], rabin_chunks(m2b), o);
        assert(translate_chunks(seq![cb], o) =~= seq![ca]);
        assert(rabin_chunks(ma) == seq![ca] + rabin_chunks(m2a));
        assert(rabin_chunks(mb) == seq![cb] + rabin_chunks(m2b));
    }
}

/// A fresh chunker's window state is consistent: the fingerprint of an
/// all-zero window is zero.
pub proof fn lemma_rabin_init_consistent(
    src: Seq<u8>,
    win_size: usize,
    min_size: usize,
    avg_size: usize,
    max_size: usize,
)
    requires
        win_size >= 1,
    ensures
        wstate_consistent(
            rabin_init(src, win_size, min_size, avg_size, max_size).wstate,
            win_size as nat,
        ),
{
    let w = rabin_init(src, win_size, min_size, avg_size, max_size).wstate;
    let ag = ages(w, win_size as nat);
    assert(forall|i: int| 0 <= i < ag.len() ==> ag[i] == 0);
    lemma_fp_zeros(ag);
}

/// One chunker step keeps the window state consistent.
pub proof fn lemma_rabin_next_consistent(m: RabinState)
    requires
        rabin_state_wf(m),
        wstate_consistent(m.wstate, m.win_size),
    ensures
        wstate_consistent(rabin_next(m).1.wstate, m.win_size),
{
    if m.cur_pos >= m.source.len() {
    } else if m.source.len() - m.cur_pos < m.min_size {
    } else {
        let remain = m.source.len() - m.cur_pos;
        let limit = m.cur_pos + (if m.max_size <= remain {
            m.max_size as int
        } else {
            remain
        });
        lemma_scan_consistent(
            m.source,
            m.cur_pos as int,
            m.min_size as int,
            limit,
            m.cur_pos as int,
            m.wstate,
            m.win_size,
            cut_mask_of(m),
        );
    }
}

/// Extending what lies beyond the scan limit cannot change a boundary that
/// the scan finds strictly before its own limit, nor the window state it
/// ends in.
pub proof fn lemma_scan_extend(
    src: Seq<u8>,
    ext: Seq<u8>,
    start: int,
    min_sz: int,
    limit_s: int,
    limit_e: int,
    p: int,
    w: WinState,
    wsize: nat,
    cut_mask: u64,
)
    requires
        0 <= p <= limit_s <= limit_e,
        limit_s <= src.len(),
    ensures
        ({
            let rs = scan(src, start, min_sz, limit_s, p, w, wsize, cut_mask);
            let re = scan(src + ext, start, min_sz, limit_e, p, w, wsize, cut_mask);
            (rs.0 < limit_s || limit_s == limit_e) ==> re == rs
        }),
    decreases limit_s - p,
{
    if p >= limit_s {
    } else {
        assert((src + ext)[p] == src[p]);
        let w2 = wstep(w, src[p], wsize);
        if p + 1 - start >= min_sz && cut_hit(w2, wsize, cut_mask) {
        } else {
            lemma_scan_extend(src, ext, start, min_sz, limit_s, limit_e, p + 1, w2, wsize,
                cut_mask);
        }
    }
}

/// The state a chunker is in when it starts its final chunk.
pub open spec fn rabin_last_state(m: RabinState) -> RabinState
    decreases m.source.len() - m.cur_pos
        when rabin_state_wf(m)
        via rabin_last_state_decreases
{
    if m.cur_pos >= m.source.len() {
        m
    } else if rabin_next(m).1.cur_pos >= m.source.len() {
        m
    } else {
        rabin_last_state(rabin_next(m).1)
    }
}

#[via_fn]
proof fn rabin_last_state_decreases(m: RabinState) {
    if m.cur_pos < m.source.len() {
        lemma_rabin_next_props(m);
    }
}

/// What the final-chunk state pins down: it emits exactly the run's last
/// chunk, starting where that chunk starts, with a window state reachable
/// from the run's own — in particular a consistent one.
pub proof fn lemma_rabin_last_state(m: RabinState)
    requires
        rabin_state_wf(m),
        m.cur_pos < m.source.len(),
    ensures
        ({
            let ml = rabin_last_state(m);
            &&& rabin_state_wf(ml)
            &&& ml.source == m.source
            &&& ml.win_size == m.win_size
            &&& ml.min_size == m.min_size
            &&& ml.avg_size == m.avg_size
            &&& ml.max_size == m.max_size
            &&& m.cur_pos <= ml.cur_pos < m.source.len()
            &&& rabin_chunks(ml) == seq![rabin_chunks(m).last()]
            &&& rabin_chunks(m).last().offset == ml.cur_pos
            &&& (wstate_consistent(m.wstate, m.win_size) ==> wstate_consistent(
                ml.wstate,
                m.win_size,
            ))
        }),
    decreases m.source.len() - m.cur_pos,
{
    lemma_rabin_next_props(m);
    let c = rabin_next(m).0->Some_0;
    let mn = rabin_next(m).1;
    if wstate_consistent(m.wstate, m.win_size) {
        lemma_rabin_next_consistent(m);
    }
    if mn.cur_pos >= m.source.len() {
        assert(rabin_chunks(mn) =~= Seq::<Chunk>::empty());
        assert(rabin_chunks(m) =~= seq![c]);
        assert(rabin_chunks(m).last() == c);
    } else {
        lemma_rabin_last_state(mn);
        assert(rabin_chunks(mn).len() >= 1);
        assert(rabin_chunks(m) == seq![c] + rabin_chunks(mn));
        assert(rabin_chunks(m).last() == rabin_chunks(mn).last());
    }
}

/// Extending the source of a Rabin chunker does not move any boundary
/// before its last chunk: every earlier chunk ends at a content cut or at a
/// forced cut at the maximum size, both strictly inside the old source, and
/// the longer source changes neither. The chunks of the extended source are
/// the old chunks but the last, followed by the chunks scanned onward from
/// the last chunk's start with the window carried as it was.
pub proof fn lemma_rabin_extend(m: RabinState, ext: Seq<u8>)
    requires
        rabin_state_wf(m),
        m.cur_pos < m.source.len(),
        m.source.len() + ext.len() <= usize::MAX,
    ensures
        ({
            let me = RabinState { source: m.source + ext, ..m };
            let ml = rabin_last_state(m);
            let mle = RabinState { source: m.source + ext, ..ml };
            rabin_chunks(me) == rabin_chunks(m).drop_last() + rabin_chunks(mle)
        }),
    decreases m.source.len() - m.cur_pos,
{
    let me = RabinState { source: m.source + ext, ..m };
    let lens = m.source.len() as int;
    let lene = lens + ext.len();
    lemma_rabin_next_props(m);
    lemma_rabin_next_props(me);
    let c = rabin_next(m).0->Some_0;
    let mn = rabin_next(m).1;
    lemma_rabin_last_state(m);
    let ml = rabin_last_state(m);
    let mle = RabinState { source: m.source + ext, ..ml };
    if mn.cur_pos >= m.source.len() {
        assert(ml == m);
        assert(mle == me);
        assert(rabin_chunks(mn) =~= Seq::<Chunk>::empty());
        assert(rabin_chunks(m) =~= seq![c]);
        assert(rabin_chunks(m).drop_last() =~= Seq::<Chunk>::empty());
        assert(rabin_chunks(m).drop_last() + rabin_chunks(mle) =~= rabin_chunks(me));
    } else {
        // this chunk ends strictly inside the old source, so the extended
        // run produces it identically
        let remain = lens - m.cur_pos;
        let limit_s = m.cur_pos + (if m.max_size <= remain {
            m.max_size as int
        } else {
            remain
        });
        let remain_e = lene - m.cur_pos;
        let limit_e = m.cur_pos + (if m.max_size <= remain_e {
            m.max_size as int
        } else {
            remain_e
        });
        assert(limit_s <= limit_e);
        lemma_scan_bounds(
            m.source,
            m.cur_pos as int,
            m.min_size as int,
            limit_s,
            m.cur_pos as int,
            m.wstate,
            m.win_size,
            cut_mask_of(m),
        );
        lemma_scan_extend(
            m.source,
            ext,
            m.cur_pos as int,
            m.min_size as int,
            limit_s,
            limit_e,
            m.cur_pos as int,
            m.wstate,
            m.win_size,
            cut_mask_of(m),
        );
        let rs = scan(
            m.source,
            m.cur_pos as int,
            m.min_size as int,
            limit_s,
            m.cur_pos as int,
            m.wstate,
            m.win_size,
            cut_mask_of(m),
        );
        assert(rs.0 == mn.cur_pos);
        if limit_s < limit_e {
            assert(limit_s == lens);
            assert(rs.0 < limit_s);
        }
        let mne = RabinState { source: m.source + ext, ..mn };
        assert(rabin_next(me).0->Some_0 == c);
        assert(rabin_next(me).1 == mne);
        lemma_rabin_extend(mn, ext);
        assert(rabin_last_state(mn) == ml);
        assert(rabin_chunks(mn).len() >= 1);
        assert(rabin_chunks(m) == seq![c] + rabin_chunks(mn));
        assert(rabin_chunks(m).drop_last() =~= seq![c] + rabin_chunks(mn).drop_last());
        assert(rabin_chunks(me) == seq![c] + rabin_chunks(mne));
        assert(rabin_chunks(me) =~= rabin_chunks(m).drop_last() + rabin_chunks(mle));
    }
}

/// Rabin chunker for data segmentation based on the Rabin fingerprinting
/// algorithm: a rolling polynomial fingerprint over a sliding window decides
/// chunk boundaries content-dependently.
///
/// The window buffer is zero-initialized once per instance and is not reset
/// between chunks: the first boundary decisions of a chunk see bytes from
/// the tail of the previous chunk. An instance advances monotonically and is
/// not restartable; build a new one to re-scan.
pub struct RabinCDC<'a> {
    /// Precomputed table mapping each byte value to the fingerprint
    /// contribution it gives up when it leaves the window.
    pub out_map: Vec<u64>,
    /// Precomputed irreducible-polynomial table, one entry per byte value.
    pub ir: Vec<u64>,
    /// Size of the sliding window.
    pub win_size: usize,
    /// Circular window buffer.
    pub window: Vec<u8>,
    /// Write index into the window buffer.
    pub window_index: usize,
    /// Rolling fingerprint over the window contents.
    pub rolling_hash: u64,
    /// Current position for the sliding window.
    pub cur_pos: usize,
    /// Mask used to determine chunk cuts.
    pub cut_mask: u64,
    /// Data buffer to chunk.
    pub source: &'a [u8],
    /// Parameters specifying minimum, average, and maximum chunk sizes.
    pub chunk_parms: ChunkSizeParms,
}

impl<'a> View for RabinCDC<'a> {
    type V = RabinState;

    open spec fn view(&self) -> RabinState {
        RabinState {
            source: self.source@,
            win_size: self.win_size as nat,
            min_size: self.chunk_parms.min_chunk_size as nat,
            avg_size: self.chunk_parms.avg_chunk_size as nat,
            max_size: self.chunk_parms.max_chunk_size as nat,
            cur_pos: self.cur_pos as nat,
            wstate: WinState {
                win: self.window@,
                widx: self.window_index as nat,
                hash: self.rolling_hash,
            },
        }
    }
}

impl<'a> RabinCDC<'a> {
    /// Well-formedness carried by every constructed chunker: the state is
    /// well-formed and the precomputed tables hold exactly the fingerprint
    /// contributions and the irreducible-polynomial fold of the window size.
    pub open spec fn wf(self) -> bool {
        &&& rabin_state_wf(self@)
        &&& self.out_map@.len() == 256
        &&& forall|i: int|
            0 <= i < 256 ==> self.out_map@[i] == out_entry(i as u8, self.win_size as nat)
        &&& self.ir@.len() == 256
        &&& forall|i: int| 0 <= i < 256 ==> self.ir@[i] == ir_val(self.win_size as nat)
        &&& self.cut_mask == cut_mask_of(self@)
    }

    /// Constructs a new `RabinCDC` over `source`.
    ///
    /// The parameters must satisfy the policy ordering
    /// `min_size < avg_size < max_size`, which the cut-mask derivation needs
    /// to be meaningful. Each parameter outside its documented range is a
    /// fatal configuration error, reported in the order the checks are made;
    /// nothing is clamped.
    #[verifier::loop_isolation(false)]
    pub fn new(
        source: &'a [u8],
        win_size: usize,
        min_size: usize,
        avg_size: usize,
        max_size: usize,
    ) -> (r: Result<Self, ConfigError>)
        requires
            min_size < avg_size,
            avg_size < max_size,
        ensures
            r is Ok <==> rabin_config_error(win_size, min_size, avg_size, max_size) is None,
            r is Err ==> Some(r->Err_0) == rabin_config_error(
                win_size,
                min_size,
                avg_size,
                max_size,
            ),
            r is Ok ==> r->Ok_0.wf() && r->Ok_0@ == rabin_init(
                source@,
                win_size,
                min_size,
                avg_size,
                max_size,
            ),
    {
        if win_size < MIN_WIN_SIZE || win_size > MAX_WIN_SIZE {
            return Err(ConfigError::WindowSizeOutOfRange);
        }
        let w64 = win_size as u64;
        if w64 & (w64 - 1) != 0 {
            proof {
                assert(!(w64 == 8 || w64 == 16 || w64 == 32 || w64 == 64)) by (bit_vector)
                    requires
                        w64 & ((w64 - 1) as u64) != 0,
                ;
            }
            return Err(ConfigError::WindowSizeNotPowerOfTwo);
        }
        proof {
            assert(w64 == 8 || w64 == 16 || w64 == 32 || w64 == 64) by (bit_vector)
                requires
                    8 <= w64 <= 64 && w64 & ((w64 - 1) as u64) == 0,
            ;
        }
        if min_size < MIN_MIN_CHUNK_SIZE || min_size > MAX_MIN_CHUNK_SIZE {
            return Err(ConfigError::MinChunkSizeOutOfRange);
        }
        if avg_size < MIN_AVG_CHUNK_SIZE || avg_size > MAX_AVG_CHUNK_SIZE {
            return Err(ConfigError::AvgChunkSizeOutOfRange);
        }
        if max_size < MIN_MAX_CHUNK_SIZE || max_size > MAX_MAX_CHUNK_SIZE {
            return Err(ConfigError::MaxChunkSizeOutOfRange);
        }

        let source_len = source.len();
        assert(source@.len() == source_len);

        let mut poly_pow: u64 = 1;
        let mut k: usize = 0;
        while k < win_size
            invariant
                k <= win_size,
                poly_pow == pow_p(k as nat),
                poly_pow <= MASK,
            decreases win_size - k,
        {
            let t = poly_pow * PRIME;
            poly_pow = t & MASK;
            proof {
                lemma_mask_mod(t);
            }
            k = k + 1;
        }

        let mut out_map: Vec<u64> = Vec::new();
        let mut i: usize = 0;
        while i < 256
            invariant
                i <= 256,
                out_map@.len() == i,
                forall|j: int|
                    0 <= j < i ==> out_map@[j] == out_entry(j as u8, win_size as nat),
            decreases 256 - i,
        {
            proof {
                assert((i as u64) * poly_pow <= 255 * 0xff_ffff_ffffu64) by (nonlinear_arith)
                    requires
                        i < 256,
                        poly_pow <= 0xff_ffff_ffffu64,
                ;
            }
            let t = (i as u64) * poly_pow;
            let v = t & MASK;
            proof {
                lemma_mask_mod(t);
            }
            out_map.push(v);
            i = i + 1;
        }

        let mut ir_acc: u64 = 1;
        k = 0;
        while k < win_size
            invariant
                k <= win_size,
                ir_acc == ir_val(k as nat),
                ir_acc <= MASK,
            decreases win_size - k,
        {
            let t = ir_acc * PRIME;
            if ir_acc & FP_POLY != 0 {
                let s = ir_acc + t;
                ir_acc = s & MASK;
                proof {
                    lemma_mask_mod(s);
                }
            } else {
                ir_acc = t & MASK;
                proof {
                    lemma_mask_mod(t);
                }
            }
            k = k + 1;
        }

        let mut ir: Vec<u64> = Vec::new();
        i = 0;
        while i < 256
            invariant
                i <= 256,
                ir@.len() == i,
                forall|j: int| 0 <= j < i ==> ir@[j] == ir_val(win_size as nat),
            decreases 256 - i,
        {
            ir.push(ir_acc);
            i = i + 1;
        }

        let mut window: Vec<u8> = Vec::new();
        while window.len() < win_size
            invariant
                window@.len() <= win_size,
                forall|j: int| 0 <= j < window@.len() ==> window@[j] == 0u8,
            decreases win_size - window@.len(),
        {
            window.push(0u8);
        }

        let r = Self {
            out_map,
            ir,
            win_size,
            window,
            window_index: 0,
            rolling_hash: 0,
            cur_pos: 0,
            cut_mask: (avg_size - min_size - 1) as u64,
            source,
            chunk_parms: ChunkSizeParms {
                min_chunk_size: min_size,
                avg_chunk_size: avg_size,
                max_chunk_size: max_size,
            },
        };
        proof {
            assert(r@.wstate.win =~= Seq::new(win_size as nat, |j: int| 0u8));
            assert(r@ == rabin_init(source@, win_size, min_size, avg_size, max_size));
        }
        Ok(r)
    }

    /// Computes the next chunk based on the Rabin fingerprint.
    ///
    /// Returns a chunk while bytes remain, `None` once the scan position has
    /// reached the source length; the result and the state change are
    /// exactly those of `rabin_next`.
    #[verifier::rlimit(100)]
    pub fn next(&mut self) -> (r: Option<Chunk>)
        requires
            old(self).wf(),
        ensures
            final(self).wf(),
            r == rabin_next(old(self)@).0,
            final(self)@ == rabin_next(old(self)@).1,
    {
        if self.cur_pos >= self.source.len() {
            return None;
        }

        let data_remain = self.source.len() - self.cur_pos;
        if data_remain < self.chunk_parms.min_chunk_size {
            let offset = self.cur_pos;
            let length = data_remain;
            self.cur_pos = self.source.len();
            return Some(Chunk { offset, length });
        }

        let max_chunk_len = if self.chunk_parms.max_chunk_size <= data_remain {
            self.chunk_parms.max_chunk_size
        } else {
            data_remain
        };
        let limit = self.cur_pos + max_chunk_len;
        let ghost start = self.cur_pos as int;
        let ghost min_sz = self@.min_size as int;
        let ghost wsize = self@.win_size;
        let ghost cm = self.cut_mask;
        let ghost w0 = self@.wstate;
        let mut current_position = self.cur_pos;

        while current_position < limit
            invariant
                old(self).wf(),
                start <= current_position <= limit,
                self.out_map == old(self).out_map,
                self.ir == old(self).ir,
                self.win_size == old(self).win_size,
                self.cur_pos == old(self).cur_pos,
                self.cut_mask == old(self).cut_mask,
                self.source == old(self).source,
                self.chunk_parms == old(self).chunk_parms,
                start == old(self)@.cur_pos as int,
                min_sz == old(self)@.min_size as int,
                wsize == old(self)@.win_size,
                cm == old(self).cut_mask,
                w0 == old(self)@.wstate,
                old(self)@.cur_pos < old(self)@.source.len(),
                old(self)@.source.len() - old(self)@.cur_pos >= old(self)@.min_size,
                limit as int == start + (if old(self)@.max_size
                    <= old(self)@.source.len() - old(self)@.cur_pos {
                    old(self)@.max_size as int
                } else {
                    old(self)@.source.len() - old(self)@.cur_pos
                }),
                limit as int <= old(self)@.source.len(),
                self.window@.len() == wsize,
                self.window_index < wsize,
                self.rolling_hash <= MASK,
                scan(
                    self.source@,
                    start,
                    min_sz,
                    limit as int,
                    current_position as int,
                    self@.wstate,
                    wsize,
                    cm,
                ) == scan(self.source@, start, min_sz, limit as int, start, w0, wsize, cm),
            decreases limit - current_position,
        {
            let ghost w_pre = self@.wstate;
            let byte = self.source[current_position];
            let out_byte = self.window[self.window_index];
            let out_value = self.out_map[out_byte as usize];

            let t = self.rolling_hash * PRIME;
            let t1 = t & MASK;
            proof {
                lemma_mask_mod(t);
            }
            let t2 = t1 + (byte as u64);
            proof {
                assert(out_value == out_entry(out_byte, wsize));
                lemma_roll_sub(t2, out_value);
            }
            let h2 = ((t2 + 0x100_0000_0000u64) - out_value) & MASK;
            self.rolling_hash = h2;

            self.window[self.window_index] = byte;
            if self.window_index + 1 == self.win_size {
                self.window_index = 0;
            } else {
                self.window_index = self.window_index + 1;
            }

            let ghost w2 = wstep(w_pre, byte, wsize);
            proof {
                if w_pre.widx + 1 == wsize {
                    vstd::arithmetic::div_mod::lemma_mod_self_0(wsize as int);
                } else {
                    vstd::arithmetic::div_mod::lemma_small_mod((w_pre.widx + 1) as nat, wsize);
                }
                assert(self@.wstate == w2);
            }

            if current_position - self.cur_pos + 1 >= self.chunk_parms.min_chunk_size {
                let checksum = self.rolling_hash ^ self.ir[out_byte as usize];
                if checksum & self.cut_mask == 0 {
                    let offset = self.cur_pos;
                    let length = current_position - self.cur_pos + 1;
                    self.cur_pos = current_position + 1;
                    proof {
                        assert(scan(
                            self.source@,
                            start,
                            min_sz,
                            limit as int,
                            current_position as int,
                            w_pre,
                            wsize,
                            cm,
                        ) == (current_position + 1 as int, w2));
                    }
                    return Some(Chunk { offset, length });
                }
            }
            proof {
                assert(scan(
                    self.source@,
                    start,
                    min_sz,
                    limit as int,
                    current_position as int,
                    w_pre,
                    wsize,
                    cm,
                ) == scan(
                    self.source@,
                    start,
                    min_sz,
                    limit as int,
                    current_position + 1 as int,
                    w2,
                    wsize,
                    cm,
                ));
            }
            current_position = current_position + 1;
        }

        let offset = self.cur_pos;
        let length = max_chunk_len;
        self.cur_pos = self.cur_pos + length;

        Some(Chunk { offset, length })
    }
}

} // verus!
