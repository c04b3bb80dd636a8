//! Content-defined chunking with a Rabin fingerprint over a 64-byte window.
//!
//! The fingerprint is the window's bytes read as a polynomial over GF(2),
//! reduced modulo the repository's polynomial of degree 53. It restarts at
//! every chunk start. A boundary falls after byte `i`
//! when the chunk holds at least `min_size` bytes and the hash of the last
//! 64 bytes, masked, is zero; a chunk of `max_size` bytes ends regardless,
//! and the input's end closes the last chunk.
use vstd::prelude::*;

verus! {

/// The degree of the repository polynomial.
pub const DEGREE: u64 = 53;

/// Bytes in the rolling window.
pub const WINDOW: usize = 64;

/// Chunk size limits, the boundary mask and the repository polynomial.
#[derive(Debug, Clone, Copy)]
pub struct ChunkConfig {
    pub min_size: usize,
    pub max_size: usize,
    pub mask: u64,
    pub poly: u64,
}

impl ChunkConfig {
    /// A usable configuration: chunks may hold at least one byte.
    pub open spec fn wf(&self) -> bool {
        1 <= self.max_size && self.min_size <= self.max_size
    }

    /// The repository default: 512 KiB minimum, 8 MiB maximum, about 1 MiB on average.
    pub fn with_poly(poly: u64) -> (r: ChunkConfig)
        ensures
            r.wf(),
            r.poly == poly,
            r.min_size == 512 * 1024,
            r.max_size == 8 * 1024 * 1024,
            r.mask == 0xfffff,
    {
        ChunkConfig { min_size: 512 * 1024, max_size: 8 * 1024 * 1024, mask: 0xfffff, poly }
    }
}

/// Appends one bit to the fingerprint `d` and reduces modulo `p`.
pub open spec fn push_bit(d: u64, bit: u64, p: u64) -> u64 {
    let e = (d << 1u64) | bit;
    if (e >> DEGREE) & 1 == 1 { e ^ p } else { e }
}

/// Appends the first `n` bits of byte `b`, high bit first.
pub open spec fn push_bits(d: u64, b: u8, n: nat, p: u64) -> u64
    decreases n,
{
    if n == 0 {
        d
    } else {
        push_bit(push_bits(d, b, (n - 1) as nat, p), ((b as u64) >> ((8 - n) as u64)) & 1, p)
    }
}

/// Appends a whole byte.
pub open spec fn push_byte(d: u64, b: u8, p: u64) -> u64 {
    push_bits(d, b, 8, p)
}

/// The fingerprint `d` followed by `n` zero bytes.
pub open spec fn zero_bytes(d: u64, n: nat, p: u64) -> u64
    decreases n,
{
    if n == 0 { d } else { push_byte(zero_bytes(d, (n - 1) as nat, p), 0, p) }
}

/// What a byte contributes once it is a whole window old: its value times
/// x^(8*64), modulo `p`.
pub open spec fn out_term(b: u8, p: u64) -> u64 {
    zero_bytes(b as u64, WINDOW as nat, p)
}

/// One step of the rolling fingerprint: byte `inb` enters, byte `outb` leaves the window.
pub open spec fn step(h: u64, inb: u8, outb: u8, p: u64) -> u64 {
    push_byte(h, inb, p) ^ out_term(outb, p)
}

/// The byte leaving the window when byte `i` of a chunk from `start` enters.
pub open spec fn leaving(data: Seq<u8>, start: int, i: int) -> u8 {
    if i - start >= WINDOW { data[i - WINDOW] } else { 0 }
}

/// The hash after the bytes `start..i` entered it.
pub open spec fn roll(data: Seq<u8>, start: int, i: int, p: u64) -> u64
    decreases i - start,
{
    if i <= start {
        0
    } else {
        step(roll(data, start, i - 1, p), data[i - 1], leaving(data, start, i - 1), p)
    }
}

/// The end of the chunk that starts at `start`, searching from `i`.
pub open spec fn scan(data: Seq<u8>, start: int, i: int, cfg: ChunkConfig) -> int
    decreases data.len() - i,
{
    let limit = if start + cfg.max_size < data.len() { start + cfg.max_size } else { data.len() as int };
    if i >= limit {
        limit
    } else if i + 1 - start >= cfg.min_size && roll(data, start, i + 1, cfg.poly) & cfg.mask == 0 {
        i + 1
    } else {
        scan(data, start, i + 1, cfg)
    }
}

/// The chunks of `data` from `start` on.
pub open spec fn chunks_from(data: Seq<u8>, start: int, cfg: ChunkConfig) -> Seq<Seq<u8>>
    decreases data.len() - start,
{
    if start < 0 || start >= data.len() {
        Seq::empty()
    } else {
        let e = scan(data, start, start, cfg);
        if e <= start || e > data.len() {
            Seq::empty()
        } else {
            seq![data.subrange(start, e)] + chunks_from(data, e, cfg)
        }
    }
}

/// The chunks of a whole byte string.
pub open spec fn chunks_of(data: Seq<u8>, cfg: ChunkConfig) -> Seq<Seq<u8>> {
    chunks_from(data, 0, cfg)
}

/// Chunks joined back together, in order.
pub open spec fn flatten(cs: Seq<Seq<u8>>) -> Seq<u8>
    decreases cs.len(),
{
    if cs.len() == 0 {
        Seq::empty()
    } else {
        flatten(cs.drop_last()) + cs.last()
    }
}

/// The views of a vector of byte vectors.
pub open spec fn views(vs: Seq<Vec<u8>>) -> Seq<Seq<u8>> {
    vs.map_values(|v: Vec<u8>| v@)
}

/// The end of a chunk lies after its start and within the chunk limit.
pub proof fn lemma_scan_range(data: Seq<u8>, start: int, i: int, cfg: ChunkConfig)
    requires
        cfg.wf(),
        0 <= start < data.len(),
        start <= i,
        i <= (if start + cfg.max_size < data.len() { start + cfg.max_size } else { data.len() as int }),
    ensures
        start < scan(data, start, i, cfg),
        scan(data, start, i, cfg) <= (if start + cfg.max_size < data.len() { start + cfg.max_size } else { data.len() as int }),
    decreases data.len() - i,
{
    let limit = if start + cfg.max_size < data.len() { start + cfg.max_size } else { data.len() as int };
    if i < limit {
        lemma_scan_range(data, start, i + 1, cfg);
    }
}

/// Joining a chunk before others joins it before their join.
pub proof fn lemma_flatten_prepend(c: Seq<u8>, rest: Seq<Seq<u8>>)
    ensures
        flatten(seq![c] + rest) == c + flatten(rest),
    decreases rest.len(),
{
    if rest.len() == 0 {
        assert(seq![c] + rest =~= seq![c]);
        assert(seq![c].drop_last() =~= Seq::<Seq<u8>>::empty());
        assert(flatten(Seq::<Seq<u8>>::empty()) == Seq::<u8>::empty());
        assert(flatten(seq![c]) == flatten(seq![c].drop_last()) + seq![c].last());
        assert(Seq::<u8>::empty() + c =~= c);
        assert(c + flatten(rest) =~= c);
    } else {
        lemma_flatten_prepend(c, rest.drop_last());
        assert((seq![c] + rest).drop_last() =~= seq![c] + rest.drop_last());
        assert((seq![c] + rest).last() == rest.last());
        assert(c + flatten(rest.drop_last()) + rest.last() =~= c + (flatten(rest.drop_last()) + rest.last()));
    }
}

proof fn lemma_flatten_from(data: Seq<u8>, start: int, cfg: ChunkConfig)
    requires
        cfg.wf(),
        0 <= start <= data.len(),
    ensures
        flatten(chunks_from(data, start, cfg)) == data.subrange(start, data.len() as int),
    decreases data.len() - start,
{
    if start == data.len() {
        assert(data.subrange(start, start) =~= Seq::<u8>::empty());
    } else {
        let e = scan(data, start, start, cfg);
        lemma_scan_range(data, start, start, cfg);
        lemma_flatten_from(data, e, cfg);
        lemma_flatten_prepend(data.subrange(start, e), chunks_from(data, e, cfg));
        assert(data.subrange(start, e) + data.subrange(e, data.len() as int) =~= data.subrange(start, data.len() as int));
    }
}

/// The chunks of any input, joined in order, give the input back.
pub proof fn lemma_chunks_rejoin(data: Seq<u8>, cfg: ChunkConfig)
    requires
        cfg.wf(),
    ensures
        flatten(chunks_of(data, cfg)) == data,
{
    lemma_flatten_from(data, 0, cfg);
    assert(data.subrange(0, data.len() as int) =~= data);
}

/// Empty input has no chunks.
pub proof fn lemma_empty_input(cfg: ChunkConfig)
    ensures
        chunks_of(Seq::<u8>::empty(), cfg).len() == 0,
{
}

proof fn lemma_scan_small(data: Seq<u8>, i: int, cfg: ChunkConfig)
    requires
        cfg.wf(),
        0 < data.len() <= cfg.min_size,
        0 <= i <= data.len(),
    ensures
        scan(data, 0, i, cfg) == data.len(),
    decreases data.len() - i,
{
    if i < data.len() {
        lemma_scan_small(data, i + 1, cfg);
    }
}

/// Input no longer than the minimum chunk size is one chunk.
pub proof fn lemma_small_input_one_chunk(data: Seq<u8>, cfg: ChunkConfig)
    requires
        cfg.wf(),
        0 < data.len() <= cfg.min_size,
    ensures
        chunks_of(data, cfg) == seq![data],
{
    lemma_scan_small(data, 0, cfg);
    assert(chunks_from(data, data.len() as int, cfg) == Seq::<Seq<u8>>::empty());
    assert(data.subrange(0, data.len() as int) =~= data);
    assert(seq![data] + Seq::<Seq<u8>>::empty() =~= seq![data]);
}

/// No cut point lies among the first `n` bytes after `start`: no position
/// at or past the minimum size where the masked fingerprint is zero.
pub open spec fn no_cut_within(data: Seq<u8>, start: int, n: int, cfg: ChunkConfig) -> bool {
    forall|k: int| start <= k < start + n && k + 1 - start >= cfg.min_size
        ==> #[trigger] roll(data, start, k + 1, cfg.poly) & cfg.mask != 0
}

proof fn lemma_scan_forced(data: Seq<u8>, start: int, i: int, cfg: ChunkConfig)
    requires
        cfg.wf(),
        0 <= start <= i <= start + cfg.max_size,
        start + cfg.max_size < data.len(),
        no_cut_within(data, start, cfg.max_size as int, cfg),
    ensures
        scan(data, start, i, cfg) == start + cfg.max_size,
    decreases data.len() - i,
{
    if i < start + cfg.max_size {
        lemma_scan_forced(data, start, i + 1, cfg);
    }
}

/// Where the first maximum-size stretch of longer input holds no cut point,
/// the cut is forced there: the first chunk is exactly the maximum size.
pub proof fn lemma_forced_cut_at_max(data: Seq<u8>, cfg: ChunkConfig)
    requires
        cfg.wf(),
        data.len() > cfg.max_size,
        no_cut_within(data, 0, cfg.max_size as int, cfg),
    ensures
        chunks_of(data, cfg).len() >= 1,
        chunks_of(data, cfg)[0] == data.subrange(0, cfg.max_size as int),
        chunks_of(data, cfg)[0].len() == cfg.max_size,
{
    lemma_scan_forced(data, 0, 0, cfg);
}

proof fn lemma_chunks_from_bounded(data: Seq<u8>, start: int, cfg: ChunkConfig)
    requires
        cfg.wf(),
        0 <= start <= data.len(),
    ensures
        forall|j: int| 0 <= j < chunks_from(data, start, cfg).len()
            ==> 0 < (#[trigger] chunks_from(data, start, cfg)[j]).len() <= cfg.max_size,
    decreases data.len() - start,
{
    if start < data.len() {
        let e = scan(data, start, start, cfg);
        lemma_scan_range(data, start, start, cfg);
        lemma_chunks_from_bounded(data, e, cfg);
        let cs = chunks_from(data, start, cfg);
        assert forall|j: int| 0 <= j < cs.len() implies 0 < (#[trigger] cs[j]).len() <= cfg.max_size by {
            if j > 0 {
                assert(cs[j] == chunks_from(data, e, cfg)[j - 1]);
            }
        }
    }
}

/// No chunk is empty, and none is longer than the maximum size.
pub proof fn lemma_chunks_bounded(data: Seq<u8>, cfg: ChunkConfig)
    requires
        cfg.wf(),
    ensures
        forall|j: int| 0 <= j < chunks_of(data, cfg).len()
            ==> 0 < (#[trigger] chunks_of(data, cfg)[j]).len() <= cfg.max_size,
{
    lemma_chunks_from_bounded(data, 0, cfg);
}

fn push_byte_exec(d: u64, b: u8, p: u64) -> (r: u64)
    ensures
        r == push_byte(d, b, p),
{
    let mut e: u64 = d;
    let mut n: u64 = 0;
    while n < 8
        invariant
            n <= 8,
            e == push_bits(d, b, n as nat, p),
        decreases 8 - n,
    {
        let bit: u64 = ((b as u64) >> (7 - n)) & 1;
        let f: u64 = (e << 1u64) | bit;
        e = if (f >> DEGREE) & 1 == 1 { f ^ p } else { f };
        n += 1;
    }
    e
}

/// The table of what each byte value contributes when it leaves the window.
pub fn out_table(p: u64) -> (r: Vec<u64>)
    ensures
        r@.len() == 256,
        forall|b: int| 0 <= b < 256 ==> #[trigger] r@[b] == out_term(b as u8, p),
{
    let mut t: Vec<u64> = Vec::new();
    let mut b: u64 = 0;
    while b < 256
        invariant
            b <= 256,
            t@.len() == b,
            forall|c: int| 0 <= c < b ==> #[trigger] t@[c] == out_term(c as u8, p),
        decreases 256 - b,
    {
        let mut d: u64 = b;
        let mut k: usize = 0;
        while k < WINDOW
            invariant
                k <= WINDOW,
                b < 256,
                d == zero_bytes(b as u8 as u64, k as nat, p),
            decreases WINDOW - k,
        {
            d = push_byte_exec(d, 0, p);
            k += 1;
        }
        t.push(d);
        b += 1;
    }
    t
}

/// The end of the chunk of `data` that starts at `start`.
fn next_cut(data: &[u8], start: usize, cfg: &ChunkConfig, table: &Vec<u64>) -> (r: usize)
    requires
        cfg.wf(),
        start < data@.len(),
        table@.len() == 256,
        forall|b: int| 0 <= b < 256 ==> #[trigger] table@[b] == out_term(b as u8, cfg.poly),
    ensures
        r == scan(data@, start as int, start as int, *cfg),
        start < r <= data@.len(),
        r - start <= cfg.max_size,
        r - start < cfg.min_size ==> r == data@.len(),
{
    let limit: usize = if cfg.max_size < data.len() - start { start + cfg.max_size } else { data.len() };
    let mut h: u64 = 0;
    let mut i: usize = start;
    while i < limit
        invariant
            start <= i <= limit,
            limit <= data@.len(),
            limit == (if start + cfg.max_size < data@.len() { start + cfg.max_size } else { data@.len() as int }),
            table@.len() == 256,
            forall|b: int| 0 <= b < 256 ==> #[trigger] table@[b] == out_term(b as u8, cfg.poly),
            h == roll(data@, start as int, i as int, cfg.poly),
            scan(data@, start as int, start as int, *cfg) == scan(data@, start as int, i as int, *cfg),
        decreases limit - i,
    {
        let outb: u8 = if i - start >= WINDOW { data[i - WINDOW] } else { 0 };
        assert(table@[outb as int] == out_term(outb, cfg.poly));
        h = push_byte_exec(h, data[i], cfg.poly) ^ table[outb as usize];
        i += 1;
        if i - start >= cfg.min_size && h & cfg.mask == 0 {
            return i;
        }
    }
    i
}

/// Splits `data` into content-defined chunks.
pub fn split(data: &[u8], cfg: &ChunkConfig) -> (r: Vec<Vec<u8>>)
    requires
        cfg.wf(),
    ensures
        views(r@) == chunks_of(data@, *cfg),
        flatten(views(r@)) == data@,
        forall|i: int| 0 <= i < r@.len() ==> 0 < (#[trigger] r@[i])@.len() <= cfg.max_size,
        forall|i: int| 0 <= i < r@.len() - 1 ==> cfg.min_size <= (#[trigger] r@[i])@.len(),
{
    let table = out_table(cfg.poly);
    let mut out: Vec<Vec<u8>> = Vec::new();
    let mut start: usize = 0;
    while start < data.len()
        invariant
            table@.len() == 256,
            forall|b: int| 0 <= b < 256 ==> #[trigger] table@[b] == out_term(b as u8, cfg.poly),
            start <= data@.len(),
            cfg.wf(),
            views(out@) + chunks_from(data@, start as int, *cfg) == chunks_of(data@, *cfg),
            flatten(views(out@)) == data@.subrange(0, start as int),
            forall|i: int| 0 <= i < out@.len() ==> 0 < (#[trigger] out@[i])@.len() <= cfg.max_size,
            forall|i: int| 0 <= i < out@.len() ==> cfg.min_size <= (#[trigger] out@[i])@.len(),
        decreases data@.len() - start,
    {
        let e = next_cut(data, start, cfg, &table);
        let mut chunk: Vec<u8> = Vec::new();
        let mut k: usize = start;
        while k < e
            invariant
                start <= k <= e,
                e <= data@.len(),
                chunk@ == data@.subrange(start as int, k as int),
            decreases e - k,
        {
            chunk.push(data[k]);
            k += 1;
            assert(chunk@ =~= data@.subrange(start as int, k as int));
        }
        let ghost before = out@;
        out.push(chunk);
        proof {
            let c = data@.subrange(start as int, e as int);
            assert(views(out@) =~= views(before).push(c));
            assert(chunks_from(data@, start as int, *cfg) == seq![c] + chunks_from(data@, e as int, *cfg));
            assert(views(out@) + chunks_from(data@, e as int, *cfg) =~= views(before) + chunks_from(data@, start as int, *cfg));
            assert(views(out@).drop_last() =~= views(before));
            assert(data@.subrange(0, e as int) =~= data@.subrange(0, start as int) + c);
        }
        start = e;
        if start == data.len() {
            proof {
                assert(chunks_from(data@, start as int, *cfg) == Seq::<Seq<u8>>::empty());
                assert(views(out@) =~= chunks_of(data@, *cfg));
                assert(data@.subrange(0, start as int) =~= data@);
            }
            return out;
        }
    }
    proof {
        assert(chunks_from(data@, start as int, *cfg) == Seq::<Seq<u8>>::empty());
        assert(views(out@) =~= chunks_of(data@, *cfg));
        assert(data@.subrange(0, start as int) =~= data@);
    }
    out
}

} // verus!
