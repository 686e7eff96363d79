//! Scanning memory for words: every aligned word of the chosen regions, copied a chunk at a
//! time, checked against a needle.

use vstd::prelude::*;

use super::bytes::{le_u64, le_word};
use super::limits::SCAN_CHUNK;
use super::cpython::Cancelled;
use super::memory::{regions_wf, Memory, Region, RegionKind};

verus! {

/// Which regions a scan reads.
#[derive(Debug, Clone, Copy, PartialEq, Eq, Structural)]
pub enum Pick {
    /// Loaded executables and libraries, where the runtime's own types live.
    Images,
    /// Private writable memory: the heaps, where objects live.
    Heap,
    /// Every region.
    Any,
}

pub open spec fn spec_picks(pick: Pick, r: Region) -> bool {
    match pick {
        Pick::Images => r.kind == RegionKind::Image,
        Pick::Heap => r.kind == RegionKind::Private && r.writable,
        Pick::Any => true,
    }
}

/// Whether a scan reads a region.
pub fn picks(pick: Pick, r: &Region) -> (b: bool)
    ensures
        b == spec_picks(pick, *r),
{
    match pick {
        Pick::Images => r.kind == RegionKind::Image,
        Pick::Heap => r.kind == RegionKind::Private && r.writable,
        Pick::Any => true,
    }
}

/// Which words a scan reports.
#[derive(Debug, Clone, Copy, PartialEq, Eq, Structural)]
pub enum Needle {
    /// A word holding the address of the object it would be the type field of: the `type`
    /// object's `ob_type`.
    OwnType,
    /// A word holding this value, past the first 8 bytes of the address space.
    Word(u64),
    /// Every word.
    Every,
    /// No word.
    Nothing,
}

pub open spec fn spec_hits(needle: Needle, a: u64, v: u64) -> bool {
    match needle {
        Needle::OwnType => a >= 8 && v == a - 8,
        Needle::Word(x) => a >= 8 && v == x,
        Needle::Every => true,
        Needle::Nothing => false,
    }
}

/// Whether the word `v` at `a` is one the scan reports.
pub fn hits(needle: Needle, a: u64, v: u64) -> (b: bool)
    ensures
        b == spec_hits(needle, a, v),
{
    match needle {
        Needle::OwnType => a >= 8 && v == a - 8,
        Needle::Word(x) => a >= 8 && v == x,
        Needle::Every => true,
        Needle::Nothing => false,
    }
}

/// One chunk a scan copied, or failed to copy.
#[derive(Debug, Clone, Copy, PartialEq, Eq, Structural)]
pub struct Chunk {
    /// The index, in [`Memory::regions`], of the region the chunk is in.
    pub region: usize,
    pub bytes: u64,
    pub readable: bool,
}

/// Where a chunk is: its region's index, its address and its length.
pub struct Span {
    pub region: usize,
    pub at: u64,
    pub len: u64,
}

/// The chunks of a region from `at` on: [`SCAN_CHUNK`] bytes at a time, the last one shorter.
pub open spec fn region_spans(r: Region, ri: usize, at: u64) -> Seq<Span>
    decreases r.spec_end() - at,
{
    if at >= r.spec_end() {
        Seq::empty()
    } else {
        let len: u64 = if SCAN_CHUNK <= r.spec_end() - at {
            SCAN_CHUNK
        } else {
            (r.spec_end() - at) as u64
        };
        seq![Span { region: ri, at, len }] + region_spans(r, ri, (at + len) as u64)
    }
}

/// The chunks of the picked regions from the `ri`-th on, in address order.
pub open spec fn spans_from(rs: Seq<Region>, pick: Pick, ri: nat) -> Seq<Span>
    decreases rs.len() - ri,
{
    if ri >= rs.len() {
        Seq::empty()
    } else {
        let here = if spec_picks(pick, rs[ri as int]) {
            region_spans(rs[ri as int], ri as usize, rs[ri as int].base)
        } else {
            Seq::empty()
        };
        here + spans_from(rs, pick, (ri + 1) as nat)
    }
}

/// Every chunk a scan reads.
pub open spec fn scan_spans<M: Memory + ?Sized>(m: &M, pick: Pick) -> Seq<Span> {
    spans_from(m.spec_regions(), pick, 0)
}

/// The addresses among the first `n` words of `b`, copied from `at`, that the needle reports.
pub open spec fn word_hits(b: Seq<u8>, at: u64, needle: Needle, n: nat) -> Seq<u64>
    decreases n,
{
    if n == 0 {
        Seq::empty()
    } else {
        let i = n - 1;
        let a = (at + 8 * i) as u64;
        let rest = word_hits(b, at, needle, i as nat);
        if spec_hits(needle, a, le_u64(b.subrange(8 * i, 8 * i + 8))) {
            rest.push(a)
        } else {
            rest
        }
    }
}

/// The addresses a chunk reports: none if it cannot be copied.
pub open spec fn span_hits<M: Memory + ?Sized>(m: &M, s: Span, needle: Needle) -> Seq<u64> {
    match m.spec_read(s.at, s.len as nat) {
        None => Seq::empty(),
        Some(b) => word_hits(b, s.at, needle, (s.len / 8) as nat),
    }
}

/// The addresses that chunks report, in order.
pub open spec fn spans_hits<M: Memory + ?Sized>(m: &M, ss: Seq<Span>, needle: Needle) -> Seq<u64>
    decreases ss.len(),
{
    if ss.len() == 0 {
        Seq::empty()
    } else {
        spans_hits(m, ss.drop_last(), needle) + span_hits(m, ss.last(), needle)
    }
}

/// What a watcher hears of a chunk.
pub open spec fn span_chunk<M: Memory + ?Sized>(m: &M, s: Span) -> Chunk {
    Chunk { region: s.region, bytes: s.len, readable: m.spec_read(s.at, s.len as nat) is Some }
}

/// What watchers hear of chunks, in order.
pub open spec fn spans_chunks<M: Memory + ?Sized>(m: &M, ss: Seq<Span>) -> Seq<Chunk> {
    Seq::new(ss.len(), |i: int| span_chunk(m, ss[i]))
}

/// Who a scan reports to, and asks whether to go on. What it passes on goes to a sink of
/// type `S`, which the scan hands it with each call. An implementation outside the verified
/// library need not state the spec functions; what they are is then left open.
pub trait Watch<S> {
    /// What the watcher was set up with and keeps for the whole scan.
    type Origin;

    /// What the watcher was set up with.
    closed spec fn origin(&self) -> Self::Origin {
        arbitrary()
    }

    /// Everything the watcher has heard of, in order.
    closed spec fn heard(&self) -> Seq<Chunk> {
        arbitrary()
    }

    /// What the watcher keeps true of itself and its sink.
    closed spec fn inv(&self, sink: &S) -> bool {
        arbitrary()
    }

    /// A watcher that always lets a scan go on.
    closed spec fn patient(&self) -> bool {
        arbitrary()
    }

    /// Whether the watcher has a reason to stop a scan.
    closed spec fn stopped(&self) -> bool {
        arbitrary()
    }

    /// A watcher that stops every scan at its first checkpoint.
    closed spec fn refusing(&self) -> bool {
        arbitrary()
    }

    /// Asked before each chunk: `false` stops the scan, and only when the watcher has a
    /// reason to.
    fn proceed(&mut self, sink: &mut S) -> (go: bool)
        requires
            old(self).inv(old(sink)),
        ensures
            final(self).inv(final(sink)),
            final(self).heard() == old(self).heard(),
            final(self).patient() == old(self).patient(),
            final(self).stopped() == old(self).stopped(),
            final(self).refusing() == old(self).refusing(),
            final(self).origin() == old(self).origin(),
            old(self).patient() ==> go,
            old(self).refusing() ==> !go,
            !go ==> old(self).stopped(),
    ;

    /// Told of each chunk, copied or not.
    fn chunk(&mut self, c: Chunk, sink: &mut S)
        requires
            old(self).inv(old(sink)),
        ensures
            final(self).inv(final(sink)),
            final(self).heard() == old(self).heard().push(c),
            final(self).patient() == old(self).patient(),
            final(self).stopped() == old(self).stopped(),
            final(self).refusing() == old(self).refusing(),
            final(self).origin() == old(self).origin(),
    ;
}

/// The addresses a copied chunk reports, appended to `hits`.
fn chunk_words(b: &Vec<u8>, at: u64, needle: Needle, found: &mut Vec<u64>)
    requires
        at + b@.len() <= u64::MAX,
    ensures
        final(found)@ == old(found)@ + word_hits(b@, at, needle, (b@.len() / 8) as nat),
{
    let blen = b.len();
    let n = blen / 8;
    let ghost start = found@;
    let mut i: usize = 0;
    while i < n
        invariant
            blen == b@.len(),
            n == b@.len() / 8,
            at + b@.len() <= u64::MAX,
            i <= n,
            found@ == start + word_hits(b@, at, needle, i as nat),
        decreases n - i,
    {
        let v = le_word(b, 8 * i);
        let a = at + 8 * (i as u64);
        if hits(needle, a, v) {
            found.push(a);
        }
        i += 1;
    }
}

proof fn lemma_region_spans_step(r: Region, ri: usize, at: u64)
    requires
        at < r.spec_end(),
    ensures
        ({
            let len: u64 = if SCAN_CHUNK <= r.spec_end() - at {
                SCAN_CHUNK
            } else {
                (r.spec_end() - at) as u64
            };
            region_spans(r, ri, at) == seq![Span { region: ri, at, len }] + region_spans(
                r,
                ri,
                (at + len) as u64,
            )
        }),
{
}

/// Every aligned word of the picked regions that the needle reports, in address order. The
/// watcher is asked before each chunk whether to go on, and told of each chunk copied or not.
pub fn scan<M: Memory + ?Sized, S, W: Watch<S>>(
    mem: &M,
    pick: Pick,
    needle: Needle,
    watch: &mut W,
    sink: &mut S,
) -> (r: Result<Vec<u64>, Cancelled>)
    requires
        old(watch).inv(old(sink)),
    ensures
        final(watch).inv(final(sink)),
        r is Err ==> old(watch).stopped(),
        final(watch).origin() == old(watch).origin(),
        final(watch).patient() == old(watch).patient(),
        old(watch).patient() ==> r is Ok,
        old(watch).refusing() && scan_spans(mem, pick).len() > 0 ==> r == Err::<
            Vec<u64>,
            Cancelled,
        >(Cancelled),
        r matches Ok(h) ==> h@ == spans_hits(mem, scan_spans(mem, pick), needle) && ascending(h@)
            && final(watch).heard() == old(watch).heard() + spans_chunks(
            mem,
            scan_spans(mem, pick),
        ),
        r is Err ==> exists|k: int|
            0 <= k <= scan_spans(mem, pick).len() && final(watch).heard() == old(watch).heard()
                + spans_chunks(mem, scan_spans(mem, pick).take(k)),
{
    let regions = mem.regions();
    let ghost rs = regions@;
    let ghost all = scan_spans(mem, pick);
    let ghost first = watch.heard();
    let ghost mut done: Seq<Span> = Seq::empty();
    let mut found: Vec<u64> = Vec::new();
    let mut ri: usize = 0;
    assert(all == done + spans_from(rs, pick, 0));
    while ri < regions.len()
        invariant
            rs == regions@,
            rs == mem.spec_regions(),
            regions_wf(rs),
            all == scan_spans(mem, pick),
            ri <= rs.len(),
            all == done + spans_from(rs, pick, ri as nat),
            found@ == spans_hits(mem, done, needle),
            watch.inv(sink),
            watch.patient() == old(watch).patient(),
            watch.stopped() == old(watch).stopped(),
            watch.refusing() == old(watch).refusing(),
            old(watch).refusing() ==> done.len() == 0,
            watch.origin() == old(watch).origin(),
            watch.heard() == first + spans_chunks(mem, done),
            first == old(watch).heard(),
        decreases rs.len() - ri,
    {
        let r = regions[ri];
        if picks(pick, &r) {
            let end = r.end();
            let mut at = r.base;
            assert(r.base + r.size <= u64::MAX);
            while at < end
                invariant
                    rs == regions@,
                    rs == mem.spec_regions(),
                    regions_wf(rs),
                    all == scan_spans(mem, pick),
                    ri < rs.len(),
                    r == rs[ri as int],
                    end == r.spec_end(),
                    r.base <= at,
                    spec_picks(pick, r),
                    all == done + region_spans(r, ri, at) + spans_from(rs, pick, (ri + 1) as nat),
                    found@ == spans_hits(mem, done, needle),
                    watch.inv(sink),
                    watch.patient() == old(watch).patient(),
                    watch.stopped() == old(watch).stopped(),
                    watch.refusing() == old(watch).refusing(),
                    old(watch).refusing() ==> done.len() == 0,
                    watch.origin() == old(watch).origin(),
                    watch.heard() == first + spans_chunks(mem, done),
                    first == old(watch).heard(),
                decreases end - at,
            {
                if !watch.proceed(sink) {
                    proof {
                        assert(done =~= all.take(done.len() as int));
                    }
                    return Err(Cancelled);
                }
                let len: u64 = if SCAN_CHUNK <= end - at {
                    SCAN_CHUNK
                } else {
                    end - at
                };
                proof {
                    lemma_region_spans_step(r, ri, at);
                }
                let ghost span = Span { region: ri, at, len };
                let readable = match mem.read_vec(at, len as usize) {
                    Ok(b) => {
                        chunk_words(&b, at, needle, &mut found);
                        true
                    },
                    Err(_) => false,
                };
                watch.chunk(Chunk { region: ri, bytes: len, readable }, sink);
                proof {
                    let next = done.push(span);
                    assert(next.drop_last() =~= done);
                    assert(spans_chunks(mem, next) =~= spans_chunks(mem, done).push(
                        span_chunk(mem, span),
                    ));
                    assert(done + region_spans(r, ri, at) =~= next + region_spans(
                        r,
                        ri,
                        (at + len) as u64,
                    ));
                    done = next;
                }
                at = at + len;
            }
            assert(region_spans(r, ri, at) =~= Seq::<Span>::empty());
            assert(all =~= done + spans_from(rs, pick, (ri + 1) as nat));
        } else {
            assert(spans_from(rs, pick, ri as nat) =~= spans_from(rs, pick, (ri + 1) as nat));
            assert(all =~= done + spans_from(rs, pick, (ri + 1) as nat));
        }
        ri += 1;
    }
    proof {
        assert(all =~= done);
        lemma_scan_hits_ascend(mem, pick, needle);
    }
    Ok(found)
}

} // verus!

verus! {

/// Every address a chunk reports for a word needle lies past the first 8 bytes.
pub proof fn lemma_word_hits_floor(b: Seq<u8>, at: u64, x: u64, n: nat)
    ensures
        forall|i: int|
            0 <= i < word_hits(b, at, Needle::Word(x), n).len() ==> #[trigger] word_hits(
                b,
                at,
                Needle::Word(x),
                n,
            )[i] >= 8,
    decreases n,
{
    if n > 0 {
        lemma_word_hits_floor(b, at, x, (n - 1) as nat);
        let rest = word_hits(b, at, Needle::Word(x), (n - 1) as nat);
        let all = word_hits(b, at, Needle::Word(x), n);
        assert forall|i: int| 0 <= i < all.len() implies #[trigger] all[i] >= 8 by {
            if i < rest.len() {
                assert(all[i] == rest[i]);
            }
        }
    }
}

/// Every address a scan reports for a word needle lies past the first 8 bytes.
pub proof fn lemma_spans_hits_floor<M: Memory + ?Sized>(m: &M, ss: Seq<Span>, x: u64)
    ensures
        forall|i: int|
            0 <= i < spans_hits(m, ss, Needle::Word(x)).len() ==> #[trigger] spans_hits(
                m,
                ss,
                Needle::Word(x),
            )[i] >= 8,
    decreases ss.len(),
{
    if ss.len() > 0 {
        lemma_spans_hits_floor(m, ss.drop_last(), x);
        let s = ss.last();
        match m.spec_read(s.at, s.len as nat) {
            None => {},
            Some(b) => lemma_word_hits_floor(b, s.at, x, (s.len / 8) as nat),
        }
        let a = spans_hits(m, ss.drop_last(), Needle::Word(x));
        let c = span_hits(m, s, Needle::Word(x));
        assert forall|i: int| 0 <= i < (a + c).len() implies #[trigger] (a + c)[i] >= 8 by {
            if i < a.len() {
                assert((a + c)[i] == a[i]);
            } else {
                assert((a + c)[i] == c[i - a.len()]);
            }
        }
    }
}

/// Whether the addresses ascend strictly.
pub open spec fn ascending(hs: Seq<u64>) -> bool {
    forall|i: int, j: int| 0 <= i < j < hs.len() ==> hs[i] < hs[j]
}

/// Whether every address lies in `[lo, hi)`.
pub open spec fn all_within(hs: Seq<u64>, lo: int, hi: int) -> bool {
    forall|i: int| 0 <= i < hs.len() ==> lo <= #[trigger] hs[i] < hi
}

/// Whether chunks come in address order, one ending before the next begins.
pub open spec fn spans_sorted(ss: Seq<Span>) -> bool {
    forall|i: int, j: int| 0 <= i < j < ss.len() ==> ss[i].at + ss[i].len <= ss[j].at
}

/// Whether every chunk lies in `[lo, hi)`.
pub open spec fn spans_within(ss: Seq<Span>, lo: int, hi: int) -> bool {
    forall|i: int| 0 <= i < ss.len() ==> lo <= (#[trigger] ss[i]).at && ss[i].at + ss[i].len <= hi
}

proof fn lemma_ascending_cat(a: Seq<u64>, c: Seq<u64>, bound: int)
    requires
        ascending(a),
        ascending(c),
        forall|i: int| 0 <= i < a.len() ==> #[trigger] a[i] < bound,
        forall|j: int| 0 <= j < c.len() ==> bound <= #[trigger] c[j],
    ensures
        ascending(a + c),
{
    assert forall|i: int, j: int| 0 <= i < j < (a + c).len() implies (a + c)[i] < (a + c)[j] by {
        if j < a.len() {
            assert((a + c)[i] == a[i] && (a + c)[j] == a[j]);
        } else if i < a.len() {
            assert((a + c)[i] == a[i] && (a + c)[j] == c[j - a.len()]);
        } else {
            assert((a + c)[i] == c[i - a.len()] && (a + c)[j] == c[j - a.len()]);
        }
    }
}

/// The words a chunk reports ascend, inside the chunk.
proof fn lemma_word_hits_ascend(b: Seq<u8>, at: u64, needle: Needle, n: nat)
    requires
        at + 8 * n <= u64::MAX,
    ensures
        ascending(word_hits(b, at, needle, n)),
        all_within(word_hits(b, at, needle, n), at as int, at + 8 * n),
    decreases n,
{
    if n > 0 {
        lemma_word_hits_ascend(b, at, needle, (n - 1) as nat);
        let rest = word_hits(b, at, needle, (n - 1) as nat);
        let all = word_hits(b, at, needle, n);
        let a = (at + 8 * (n - 1)) as u64;
        if all != rest {
            assert(all == rest.push(a));
            assert forall|i: int, j: int| 0 <= i < j < all.len() implies all[i] < all[j] by {
                if j < rest.len() {
                    assert(all[i] == rest[i] && all[j] == rest[j]);
                } else {
                    assert(all[i] == rest[i]);
                }
            }
            assert forall|i: int| 0 <= i < all.len() implies at <= #[trigger] all[i] < at + 8
                * n by {
                if i < rest.len() {
                    assert(all[i] == rest[i]);
                }
            }
        }
    }
}

/// The chunks of a region come in address order, inside the region from `at` on.
proof fn lemma_region_spans_sorted(r: Region, ri: usize, at: u64)
    requires
        r.base + r.size <= u64::MAX,
    ensures
        spans_sorted(region_spans(r, ri, at)),
        spans_within(region_spans(r, ri, at), at as int, r.spec_end() as int),
    decreases r.spec_end() - at,
{
    if at < r.spec_end() {
        let len: u64 = if SCAN_CHUNK <= r.spec_end() - at {
            SCAN_CHUNK
        } else {
            (r.spec_end() - at) as u64
        };
        let next = (at + len) as u64;
        lemma_region_spans_sorted(r, ri, next);
        let rest = region_spans(r, ri, next);
        let first = seq![Span { region: ri, at, len }];
        let all = region_spans(r, ri, at);
        assert(all == first + rest);
        assert forall|i: int, j: int| 0 <= i < j < all.len() implies all[i].at + all[i].len
            <= all[j].at by {
            if i == 0 {
                assert(all[i] == first[0] && all[j] == rest[j - 1]);
            } else {
                assert(all[i] == rest[i - 1] && all[j] == rest[j - 1]);
            }
        }
        assert forall|i: int| 0 <= i < all.len() implies at <= (#[trigger] all[i]).at && all[i].at
            + all[i].len <= r.spec_end() by {
            if i > 0 {
                assert(all[i] == rest[i - 1]);
            }
        }
    }
}

/// The chunks of the picked regions from the `ri`-th on come in address order, from that
/// region's start on.
proof fn lemma_spans_from_sorted(rs: Seq<Region>, pick: Pick, ri: nat)
    requires
        regions_wf(rs),
    ensures
        spans_sorted(spans_from(rs, pick, ri)),
        spans_within(
            spans_from(rs, pick, ri),
            if ri < rs.len() {
                rs[ri as int].base as int
            } else {
                0
            },
            u64::MAX as int,
        ),
    decreases rs.len() - ri,
{
    if ri < rs.len() {
        let r = rs[ri as int];
        assert(r.base + r.size <= u64::MAX);
        lemma_spans_from_sorted(rs, pick, ri + 1);
        let here = if spec_picks(pick, r) {
            region_spans(r, ri as usize, r.base)
        } else {
            Seq::empty()
        };
        lemma_region_spans_sorted(r, ri as usize, r.base);
        let rest = spans_from(rs, pick, ri + 1);
        let all = spans_from(rs, pick, ri);
        assert(all == here + rest);
        if ri + 1 < rs.len() {
            assert(r.base + r.size <= rs[ri + 1 as int].base);
        }
        assert forall|i: int, j: int| 0 <= i < j < all.len() implies all[i].at + all[i].len
            <= all[j].at by {
            if j < here.len() {
                assert(all[i] == here[i] && all[j] == here[j]);
            } else if i < here.len() {
                assert(all[i] == here[i] && all[j] == rest[j - here.len()]);
            } else {
                assert(all[i] == rest[i - here.len()] && all[j] == rest[j - here.len()]);
            }
        }
        assert forall|i: int| 0 <= i < all.len() implies r.base <= (#[trigger] all[i]).at
            && all[i].at + all[i].len <= u64::MAX by {
            if i < here.len() {
                assert(all[i] == here[i]);
            } else {
                assert(all[i] == rest[i - here.len()]);
            }
        }
    }
}

/// What chunks in address order report ascends, and lies before the last chunk's end.
proof fn lemma_spans_hits_ascend<M: Memory + ?Sized>(m: &M, ss: Seq<Span>, needle: Needle)
    requires
        spans_sorted(ss),
        spans_within(ss, 0, u64::MAX as int),
    ensures
        ascending(spans_hits(m, ss, needle)),
        ss.len() > 0 ==> all_within(
            spans_hits(m, ss, needle),
            0,
            ss.last().at + ss.last().len,
        ),
    decreases ss.len(),
{
    if ss.len() > 0 {
        let init = ss.drop_last();
        let s = ss.last();
        assert(spans_sorted(init)) by {
            assert forall|i: int, j: int| 0 <= i < j < init.len() implies init[i].at + init[i].len
                <= init[j].at by {
                assert(init[i] == ss[i] && init[j] == ss[j]);
            }
        }
        assert(spans_within(init, 0, u64::MAX as int)) by {
            assert forall|i: int| 0 <= i < init.len() implies 0 <= (#[trigger] init[i]).at
                && init[i].at + init[i].len <= u64::MAX by {
                assert(init[i] == ss[i]);
            }
        }
        lemma_spans_hits_ascend(m, init, needle);
        let a = spans_hits(m, init, needle);
        let c = span_hits(m, s, needle);
        assert(s.at + s.len <= u64::MAX) by {
            assert(ss[ss.len() - 1] == s);
        }
        match m.spec_read(s.at, s.len as nat) {
            None => {},
            Some(b) => {
                assert(8 * (s.len / 8) <= s.len);
                lemma_word_hits_ascend(b, s.at, needle, (s.len / 8) as nat);
            },
        }
        assert(ascending(c));
        assert(forall|j: int| 0 <= j < c.len() ==> s.at <= #[trigger] c[j] < s.at + s.len);
        if init.len() > 0 {
            assert(init.last() == ss[ss.len() - 2]);
            assert(ss[ss.len() - 2].at + ss[ss.len() - 2].len <= s.at);
        }
        assert(forall|i: int| 0 <= i < a.len() ==> #[trigger] a[i] < s.at);
        lemma_ascending_cat(a, c, s.at as int);
        assert(spans_hits(m, ss, needle) == a + c);
        assert forall|i: int| 0 <= i < (a + c).len() implies 0 <= #[trigger] (a + c)[i] < s.at
            + s.len by {
            if i < a.len() {
                assert((a + c)[i] == a[i]);
            } else {
                assert((a + c)[i] == c[i - a.len()]);
            }
        }
    }
}

/// A scan reports addresses in ascending order, each once: the chunks come in address order,
/// and each reports its words in order.
pub proof fn lemma_scan_hits_ascend<M: Memory + ?Sized>(m: &M, pick: Pick, needle: Needle)
    requires
        regions_wf(m.spec_regions()),
    ensures
        ascending(spans_hits(m, scan_spans(m, pick), needle)),
{
    lemma_spans_from_sorted(m.spec_regions(), pick, 0);
    lemma_spans_hits_ascend(m, scan_spans(m, pick), needle);
}

} // verus!
