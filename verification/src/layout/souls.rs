//! The souls scope: every object the recognition rule accepts, reported as it is.
//!
//! The recognition rule — a dict holding at least two of five marker keys, whose values have
//! the kinds the rule gives them — is inherited, and each reading says so. No typed field of a
//! soul record is mapped: every record carries its entries verbatim, and the container key is
//! reported as observed, not as a soul id.
//!
//! Every dict in the target's private writable memory is found by its type pointer, every dict
//! the rule accepts is a soul, and the dict holding the most souls as values is their
//! container, whose key for each soul is reported. Souls in the container come first, in its
//! order; the rest follow in address order.

use vstd::prelude::*;

use std::collections::HashMap;

use super::cpython::{
    builtin_name, same_text, spec_dict_items, spec_text, spec_type_of, spec_value, Builtin,
    Cancelled, Decoder, Runtime,
};
use super::limits::{MAX_DEPTH, MAX_SOULS};
use super::memory::{Memory, Region};
use super::scan::{
    lemma_spans_hits_floor, picks, scan, scan_spans, spans_chunks, spec_picks, Chunk, Needle,
    Pick, Watch,
};
use super::cpython::scan_hits;
use crate::probe::{
    entries_view, Coverage, Evidence, ObservedRecord, ObservedView, RawEntry, RawView,
    ReadStats, Reading, Records, SoulMappings, SoulRecord, SoulRecords, SoulView,
};

verus! {

/// Marker keys a dict must hold, at least, to be a soul.
pub const MIN_MARKERS: usize = 2;

/// The keys whose value kinds the rule checks: the five markers, `base_rindex`, `rattr`,
/// `single_attr`, `others` and `sattr`, and `base_r`.
#[derive(Debug, Clone, Copy, PartialEq, Eq, Structural)]
pub enum Checked {
    BaseRindex,
    Rattr,
    SingleAttr,
    Others,
    Sattr,
    BaseR,
}

/// The checked key a text names, if any.
pub open spec fn checked_name(s: Seq<char>) -> Option<Checked> {
    if s == "base_rindex"@ {
        Some(Checked::BaseRindex)
    } else if s == "rattr"@ {
        Some(Checked::Rattr)
    } else if s == "single_attr"@ {
        Some(Checked::SingleAttr)
    } else if s == "others"@ {
        Some(Checked::Others)
    } else if s == "sattr"@ {
        Some(Checked::Sattr)
    } else if s == "base_r"@ {
        Some(Checked::BaseR)
    } else {
        None
    }
}

/// Whether a value of builtin type `b` has the kind the rule gives the key: `base_rindex` and
/// `others` are ints, `rattr` is a list, `single_attr` is an int or None, `sattr` is a str,
/// and `base_r` is a number. A bool is not an int here.
pub open spec fn kind_fits(c: Checked, b: Builtin) -> bool {
    match c {
        Checked::BaseRindex | Checked::Others => b == Builtin::Int,
        Checked::Rattr => b == Builtin::List,
        Checked::SingleAttr => b == Builtin::Int || b == Builtin::NoneType,
        Checked::Sattr => b == Builtin::Str,
        Checked::BaseR => b == Builtin::Int || b == Builtin::Float,
    }
}

impl Checked {
    pub open spec fn spec_is_marker(self) -> bool {
        self != Checked::BaseR
    }

    /// The checked key named `name`, if any.
    pub fn of(name: &str) -> (r: Option<Checked>)
        ensures
            r == checked_name(name@),
    {
        if same_text(name, "base_rindex") {
            Some(Checked::BaseRindex)
        } else if same_text(name, "rattr") {
            Some(Checked::Rattr)
        } else if same_text(name, "single_attr") {
            Some(Checked::SingleAttr)
        } else if same_text(name, "others") {
            Some(Checked::Others)
        } else if same_text(name, "sattr") {
            Some(Checked::Sattr)
        } else if same_text(name, "base_r") {
            Some(Checked::BaseR)
        } else {
            None
        }
    }

    /// Whether the key is one of the five markers.
    pub fn is_marker(self) -> (r: bool)
        ensures
            r == self.spec_is_marker(),
    {
        match self {
            Checked::BaseR => false,
            _ => true,
        }
    }
}

/// The checked key a key object names: it must be a str naming one.
pub open spec fn key_check<M: Memory + ?Sized>(m: &M, rt: Runtime, key: u64) -> Option<Checked> {
    match spec_text(m, rt, key) {
        Ok(t) => checked_name(t),
        Err(_) => None,
    }
}

/// Whether a value has the kind the rule gives a key: its type must be a builtin that fits.
pub open spec fn value_fits<M: Memory + ?Sized>(m: &M, rt: Runtime, c: Checked, value: u64) -> bool {
    match spec_type_of(m, value) {
        Ok(t) => match rt.spec_builtin(t) {
            Some(b) => kind_fits(c, b),
            None => false,
        },
        Err(_) => false,
    }
}

/// The entries under checked keys, with the key each names, in order.
pub open spec fn named_entries<M: Memory + ?Sized>(
    m: &M,
    rt: Runtime,
    items: Seq<(u64, u64)>,
) -> Seq<(Checked, u64)>
    decreases items.len(),
{
    if items.len() == 0 {
        Seq::empty()
    } else {
        let rest = named_entries(m, rt, items.drop_last());
        match key_check(m, rt, items.last().0) {
            Some(c) => rest.push((c, items.last().1)),
            None => rest,
        }
    }
}

/// How many of the named entries are under marker keys.
pub open spec fn markers(named: Seq<(Checked, u64)>) -> nat
    decreases named.len(),
{
    if named.len() == 0 {
        0
    } else {
        markers(named.drop_last()) + if named.last().0.spec_is_marker() {
            1nat
        } else {
            0nat
        }
    }
}

/// Whether every named entry's value has its key's kind.
pub open spec fn all_fit<M: Memory + ?Sized>(m: &M, rt: Runtime, named: Seq<(Checked, u64)>) -> bool {
    forall|i: int| 0 <= i < named.len() ==> #[trigger] value_fits(m, rt, named[i].0, named[i].1)
}

/// What the rule makes of a dict's items: `None` when it holds too few markers to be a
/// candidate, else whether the candidate is a soul.
pub open spec fn spec_classify<M: Memory + ?Sized>(
    m: &M,
    rt: Runtime,
    items: Seq<(u64, u64)>,
) -> Option<bool> {
    let named = named_entries(m, rt, items);
    if markers(named) < MIN_MARKERS {
        None
    } else {
        Some(all_fit(m, rt, named))
    }
}

/// Whether a value has the kind the rule gives a key.
fn fits<M: Memory + ?Sized>(d: &Decoder<'_, M>, c: Checked, value: u64) -> (r: bool)
    ensures
        r == value_fits(d.spec_mem(), d.spec_rt(), c, value),
{
    let t = match d.type_of(value) {
        Ok(t) => t,
        Err(_) => return false,
    };
    match d.runtime().builtin(t) {
        Some(b) => match c {
            Checked::BaseRindex | Checked::Others => b == Builtin::Int,
            Checked::Rattr => b == Builtin::List,
            Checked::SingleAttr => b == Builtin::Int || b == Builtin::NoneType,
            Checked::Sattr => b == Builtin::Str,
            Checked::BaseR => b == Builtin::Int || b == Builtin::Float,
        },
        None => false,
    }
}

/// Key names already looked up: every one the checked key its object names.
pub open spec fn cache_holds<M: Memory + ?Sized>(
    m: &M,
    rt: Runtime,
    cache: Map<u64, Option<Checked>>,
) -> bool {
    forall|k: u64| #[trigger] cache.contains_key(k) ==> cache[k] == key_check(m, rt, k)
}

/// The checked key a key object names, looked up once per key.
fn check_key<M: Memory + ?Sized>(
    d: &Decoder<'_, M>,
    cache: &mut HashMap<u64, Option<Checked>>,
    key: u64,
) -> (r: Option<Checked>)
    requires
        cache_holds(d.spec_mem(), d.spec_rt(), old(cache)@),
    ensures
        cache_holds(d.spec_mem(), d.spec_rt(), final(cache)@),
        r == key_check(d.spec_mem(), d.spec_rt(), key),
{
    match cache.get(&key) {
        Some(c) => return *c,
        None => {},
    }
    let c = match d.text(key) {
        Ok(t) => Checked::of(t.as_str()),
        Err(_) => None,
    };
    cache.insert(key, c);
    c
}

/// What the rule makes of a dict's items.
fn classify<M: Memory + ?Sized>(
    d: &Decoder<'_, M>,
    cache: &mut HashMap<u64, Option<Checked>>,
    items: &Vec<(u64, u64)>,
) -> (r: Option<bool>)
    requires
        cache_holds(d.spec_mem(), d.spec_rt(), old(cache)@),
    ensures
        cache_holds(d.spec_mem(), d.spec_rt(), final(cache)@),
        r == spec_classify(d.spec_mem(), d.spec_rt(), items@),
{
    let ghost m = d.spec_mem();
    let ghost rt = d.spec_rt();
    let mut named: Vec<(Checked, u64)> = Vec::new();
    let mut count: usize = 0;
    let n = items.len();
    let mut i: usize = 0;
    while i < n
        invariant
            n == items@.len(),
            i <= n,
            m == d.spec_mem(),
            rt == d.spec_rt(),
            cache_holds(m, rt, cache@),
            named@ == named_entries(m, rt, items@.take(i as int)),
            count == markers(named@),
            count <= i,
        decreases n - i,
    {
        let (k, v) = items[i];
        assert(items@.take(i + 1).drop_last() =~= items@.take(i as int));
        match check_key(d, cache, k) {
            Some(c) => {
                let ghost before = named@;
                named.push((c, v));
                assert(named@.drop_last() =~= before);
                if c.is_marker() {
                    count += 1;
                }
            },
            None => {},
        }
        i += 1;
    }
    assert(items@.take(n as int) =~= items@);
    if count < MIN_MARKERS {
        return None;
    }
    let mut j: usize = 0;
    while j < named.len()
        invariant
            j <= named@.len(),
            m == d.spec_mem(),
            rt == d.spec_rt(),
            cache_holds(m, rt, cache@),
            named@ == named_entries(m, rt, items@),
            markers(named@) >= MIN_MARKERS,
            forall|x: int| 0 <= x < j ==> #[trigger] value_fits(m, rt, named@[x].0, named@[x].1),
        decreases named@.len() - j,
    {
        let (c, v) = named[j];
        if !fits(d, c, v) {
            return Some(false);
        }
        j += 1;
    }
    Some(true)
}

/// Who hears how far a reading has got: `(done, total)` pairs. An implementation outside the
/// verified library, such as the program's terminal or pipe, need not state the log; it is
/// then left open.
pub trait Progress {
    /// Every report heard, in order.
    closed spec fn log(&self) -> Seq<(u64, u64)> {
        arbitrary()
    }

    fn report(&mut self, done: u64, total: u64)
        ensures
            final(self).log() == old(self).log().push((done, total)),
    ;
}

/// A list of the reports, in order.
impl Progress for Vec<(u64, u64)> {
    open spec fn log(&self) -> Seq<(u64, u64)> {
        self@
    }

    fn report(&mut self, done: u64, total: u64) {
        self.push((done, total));
    }
}

/// Progress is reported on this scale: scanning, then recognising, then finding the container.
pub const PROGRESS_TOTAL: u64 = 1000;

pub const SCANNED: u64 = 400;

pub const RECOGNISED: u64 = 700;

/// `done / total` of the way from `from` to `to`, rounded down; all the way when there is
/// nothing to do.
pub open spec fn spec_scale(done: u64, total: u64, from: u64, to: u64) -> int {
    if total == 0 {
        to as int
    } else {
        from + (to - from) * (if done < total {
            done as int
        } else {
            total as int
        }) / (total as int)
    }
}

/// Progress on a scale only grows, and stays between the scale's ends: more done is never
/// reported as less.
pub proof fn lemma_scale(d1: u64, d2: u64, total: u64, from: u64, to: u64)
    requires
        d1 <= d2,
        from <= to,
    ensures
        from <= spec_scale(d1, total, from, to) <= spec_scale(d2, total, from, to) <= to,
{
    if total > 0 {
        let k = (to - from) as int;
        let a: int = if d1 < total { d1 as int } else { total as int };
        let b: int = if d2 < total { d2 as int } else { total as int };
        assert(0 <= k * a <= k * b <= k * total) by (nonlinear_arith)
            requires
                0 <= a <= b <= total,
                k >= 0,
        ;
        vstd::arithmetic::div_mod::lemma_div_is_ordered(k * a, k * b, total as int);
        vstd::arithmetic::div_mod::lemma_div_is_ordered(k * b, k * total, total as int);
        vstd::arithmetic::div_mod::lemma_div_is_ordered(0, k * a, total as int);
        assert(k * total / (total as int) == k) by (nonlinear_arith)
            requires
                total > 0,
        ;
    }
}

/// `done / total` of the way from `from` to `to`.
pub fn scale(done: u64, total: u64, from: u64, to: u64) -> (r: u64)
    requires
        from <= to,
    ensures
        r == spec_scale(done, total, from, to),
{
    if total == 0 {
        return to;
    }
    proof {
        lemma_scale(done, done, total, from, to);
    }
    let d: u128 = if done < total {
        done as u128
    } else {
        total as u128
    };
    let k: u128 = (to - from) as u128;
    assert(k * d <= 0xffff_ffff_ffff_ffff * 0xffff_ffff_ffff_ffffnat) by (nonlinear_arith)
        requires
            k <= 0xffff_ffff_ffff_ffff,
            d <= 0xffff_ffff_ffff_ffff,
    ;
    let q = k * d / (total as u128);
    from + q as u64
}

/// Reports that only go up: each strictly above the one before and the last heard, all on
/// the progress scale and at most `cap`.
pub open spec fn rising(reports: Seq<(u64, u64)>, last: Option<u64>, cap: u64) -> bool {
    &&& forall|i: int, j: int| 0 <= i < j < reports.len() ==> reports[i].0 < reports[j].0
    &&& forall|i: int| 0 <= i < reports.len() ==> #[trigger] reports[i].1 == PROGRESS_TOTAL
    &&& forall|i: int| 0 <= i < reports.len() ==> #[trigger] reports[i].0 <= cap
    &&& match last {
        None => reports.len() == 0,
        Some(l) => reports.len() > 0 && reports.last().0 == l,
    }
}

/// The progress of one reading: what was reported last, so a value is reported once, and the
/// log of the progress when the reading began.
struct Reporter {
    last: Option<u64>,
    start: Ghost<Seq<(u64, u64)>>,
}

impl Reporter {
    spec fn reports(&self, log: Seq<(u64, u64)>) -> Seq<(u64, u64)> {
        log.subrange(self.start@.len() as int, log.len() as int)
    }

    spec fn wf(&self, log: Seq<(u64, u64)>) -> bool {
        &&& log.len() >= self.start@.len()
        &&& log.subrange(0, self.start@.len() as int) == self.start@
        &&& rising(self.reports(log), self.last, PROGRESS_TOTAL)
    }

    fn new<P: Progress>(progress: &P) -> (r: Reporter)
        ensures
            r.wf(progress.log()),
            r.last is None,
            r.start@ == progress.log(),
    {
        let r = Reporter { last: None, start: Ghost(progress.log()) };
        assert(r.reports(progress.log()) =~= Seq::<(u64, u64)>::empty());
        assert(progress.log().subrange(0, progress.log().len() as int) =~= progress.log());
        r
    }

    /// Report `done`, unless it was the last value reported.
    fn report<P: Progress>(&mut self, progress: &mut P, done: u64)
        requires
            old(self).wf(old(progress).log()),
            old(self).last matches Some(l) ==> l <= done,
            done <= PROGRESS_TOTAL,
        ensures
            final(self).wf(final(progress).log()),
            final(self).last == Some(done),
            final(self).start == old(self).start,
            final(progress).log() == if old(self).last == Some(done) {
                old(progress).log()
            } else {
                old(progress).log().push((done, PROGRESS_TOTAL))
            },
    {
        if self.last != Some(done) {
            let ghost before = self.reports(progress.log());
            self.last = Some(done);
            progress.report(done, PROGRESS_TOTAL);
            assert(self.reports(progress.log()) =~= before.push((done, PROGRESS_TOTAL)));
            assert(progress.log().subrange(0, self.start@.len() as int) =~= self.start@);
        }
    }
}

/// Bytes added up, stopping at the largest a 64-bit count holds.
pub open spec fn heard_bytes(cs: Seq<Chunk>) -> u64
    decreases cs.len(),
{
    if cs.len() == 0 {
        0
    } else {
        let rest = heard_bytes(cs.drop_last());
        if rest + cs.last().bytes > u64::MAX {
            u64::MAX
        } else {
            (rest + cs.last().bytes) as u64
        }
    }
}

/// The regions some chunk of which could not be copied, each once, in the order first met.
pub open spec fn unreadable_regions(cs: Seq<Chunk>) -> Seq<usize>
    decreases cs.len(),
{
    if cs.len() == 0 {
        Seq::empty()
    } else {
        let rest = unreadable_regions(cs.drop_last());
        let c = cs.last();
        if !c.readable && !rest.contains(c.region) {
            rest.push(c.region)
        } else {
            rest
        }
    }
}

/// The watcher of the heap scan: it stops at a cancel, counts what it copied, and reports
/// progress from nothing to [`SCANNED`].
struct ScanWatch<'c, C: Fn() -> bool> {
    reporter: Reporter,
    cancelled: &'c C,
    total: u64,
    scanned: u64,
    unreadable: Vec<usize>,
    heard: Ghost<Seq<Chunk>>,
}

impl<'c, C: Fn() -> bool> ScanWatch<'c, C> {
    /// Whether `cancelled` may answer `answer`.
    pub closed spec fn answered(&self, answer: bool) -> bool {
        self.cancelled.ensures((), answer)
    }
}

impl<'c, P: Progress, C: Fn() -> bool> Watch<P> for ScanWatch<'c, C> {
    type Origin = Seq<(u64, u64)>;

    closed spec fn origin(&self) -> Seq<(u64, u64)> {
        self.reporter.start@
    }

    closed spec fn heard(&self) -> Seq<Chunk> {
        self.heard@
    }

    closed spec fn inv(&self, sink: &P) -> bool {
        &&& self.reporter.wf(sink.log())
        &&& self.cancelled.requires(())
        &&& self.scanned == heard_bytes(self.heard@)
        &&& self.unreadable@ == unreadable_regions(self.heard@)
        &&& self.reporter.last matches Some(l) ==> l == spec_scale(
            self.scanned,
            self.total,
            0,
            SCANNED,
        )
    }

    closed spec fn patient(&self) -> bool {
        false
    }

    closed spec fn stopped(&self) -> bool {
        self.cancelled.ensures((), true)
    }

    closed spec fn refusing(&self) -> bool {
        forall|b: bool| self.cancelled.ensures((), b) ==> b
    }

    /// Goes on exactly when `cancelled` answers that the read is not cancelled.
    fn proceed(&mut self, sink: &mut P) -> (go: bool)
        ensures
            old(self).answered(!go),
            *final(self) == *old(self),
            *final(sink) == *old(sink),
    {
        !(self.cancelled)()
    }

    fn chunk(&mut self, c: Chunk, sink: &mut P) {
        let ghost before = self.heard@;
        let ghost old_scanned = self.scanned;
        self.scanned = self.scanned.saturating_add(c.bytes);
        if !c.readable {
            let mut seen = false;
            let mut i: usize = 0;
            while i < self.unreadable.len()
                invariant
                    i <= self.unreadable@.len(),
                    seen == exists|j: int| 0 <= j < i && self.unreadable@[j] == c.region,
                decreases self.unreadable@.len() - i,
            {
                if self.unreadable[i] == c.region {
                    seen = true;
                }
                i += 1;
            }
            if !seen {
                self.unreadable.push(c.region);
            }
        }
        self.heard = Ghost(before.push(c));
        assert(self.heard@.drop_last() =~= before);
        proof {
            lemma_scale(old_scanned, self.scanned, self.total, 0, SCANNED);
        }
        let done = scale(self.scanned, self.total, 0, SCANNED);
        self.reporter.report(sink, done);
    }
}

} // verus!

verus! {

/// What the recognition pass makes of the dicts: the ones whose items could be read, the
/// souls with the items they were recognised by, and how many candidates the rule rejected.
pub struct Sorted {
    pub readable: Seq<u64>,
    pub souls: Seq<(u64, Seq<(u64, u64)>)>,
    pub rejected: nat,
}

/// The recognition pass over dicts, in order.
pub open spec fn sorted<M: Memory + ?Sized>(m: &M, rt: Runtime, dicts: Seq<u64>) -> Sorted
    decreases dicts.len(),
{
    if dicts.len() == 0 {
        Sorted { readable: Seq::empty(), souls: Seq::empty(), rejected: 0 }
    } else {
        let s = sorted(m, rt, dicts.drop_last());
        let dict = dicts.last();
        if spec_type_of(m, dict) is Err {
            s
        } else {
            match spec_dict_items(m, rt, dict) {
                Err(_) => s,
                Ok((items, _)) => {
                    let readable = s.readable.push(dict);
                    match spec_classify(m, rt, items) {
                        None => Sorted { readable, souls: s.souls, rejected: s.rejected },
                        Some(true) => Sorted {
                            readable,
                            souls: s.souls.push((dict, items)),
                            rejected: s.rejected,
                        },
                        Some(false) => Sorted {
                            readable,
                            souls: s.souls,
                            rejected: s.rejected + 1,
                        },
                    }
                },
            }
        }
    }
}

/// Souls held as vectors are the souls of the model.
pub open spec fn souls_match(v: Seq<(u64, Vec<(u64, u64)>)>, s: Seq<(u64, Seq<(u64, u64)>)>) -> bool {
    &&& v.len() == s.len()
    &&& forall|j: int| 0 <= j < v.len() ==> #[trigger] v[j].0 == s[j].0 && v[j].1@ == s[j].1
}

/// Checkpoints fall on every this many dicts.
pub const CHECKPOINT_EVERY: usize = 1024;

/// The recognition pass: which dicts are souls. A soul keeps the items it was recognised by.
/// Progress goes from [`SCANNED`] to [`RECOGNISED`]; a cancel is heard at every checkpoint.
#[verifier::spinoff_prover]
fn sort_dicts<M: Memory + ?Sized, P: Progress, C: Fn() -> bool>(
    d: &Decoder<'_, M>,
    dicts: &Vec<u64>,
    rep: &mut Reporter,
    progress: &mut P,
    cancelled: &C,
) -> (r: Result<(Vec<u64>, Vec<(u64, Vec<(u64, u64)>)>, u64), Cancelled>)
    requires
        old(rep).wf(old(progress).log()),
        old(rep).last matches Some(l) ==> l <= SCANNED,
        cancelled.requires(()),
    ensures
        final(rep).wf(final(progress).log()),
        final(rep).start == old(rep).start,
        final(rep).last matches Some(l) ==> l <= RECOGNISED,
        r is Err ==> cancelled.ensures((), true),
        r matches Ok((readable, souls, rejected)) ==> ({
            let s = sorted(d.spec_mem(), d.spec_rt(), dicts@);
            &&& rejected + souls@.len() <= dicts@.len()
            &&& readable@ == s.readable
            &&& souls_match(souls@, s.souls)
            &&& rejected == s.rejected
        }),
{
    let ghost m = d.spec_mem();
    let ghost rt = d.spec_rt();
    let mut cache: HashMap<u64, Option<Checked>> = HashMap::new();
    let mut readable: Vec<u64> = Vec::new();
    let mut souls: Vec<(u64, Vec<(u64, u64)>)> = Vec::new();
    let mut rejected: u64 = 0;
    let n = dicts.len();
    proof {
        lemma_scale(0, 0, n as u64, SCANNED, RECOGNISED);
        if n > 0 {
            assert(spec_scale(0, n as u64, SCANNED, RECOGNISED) == SCANNED) by (nonlinear_arith)
                requires
                    n > 0,
            ;
        }
    }
    let mut i: usize = 0;
    while i < n
        invariant
            n == dicts@.len(),
            i <= n,
            m == d.spec_mem(),
            rt == d.spec_rt(),
            cancelled.requires(()),
            cache_holds(m, rt, cache@),
            rep.wf(progress.log()),
            rep.start == old(rep).start,
            rep.last matches Some(l) ==> l <= spec_scale(i as u64, n as u64, SCANNED, RECOGNISED),
            rejected + souls@.len() <= i,
            ({
                let s = sorted(m, rt, dicts@.take(i as int));
                &&& readable@ == s.readable
                &&& souls_match(souls@, s.souls)
                &&& rejected == s.rejected
            }),
        decreases n - i,
    {
        proof {
            lemma_scale(i as u64, (i + 1) as u64, n as u64, SCANNED, RECOGNISED);
        }
        if i % CHECKPOINT_EVERY == 0 {
            if cancelled() {
                return Err(Cancelled);
            }
            let done = scale(i as u64, n as u64, SCANNED, RECOGNISED);
            rep.report(progress, done);
        }
        let dict = dicts[i];
        let ghost before = sorted(m, rt, dicts@.take(i as int));
        assert(dicts@.take(i + 1).drop_last() =~= dicts@.take(i as int));
        assert(dicts@.take(i + 1).last() == dict);
        if d.type_of(dict).is_ok() {
            match d.dict_items(dict) {
                Ok((items, _)) => {
                    readable.push(dict);
                    match classify(d, &mut cache, &items) {
                        None => {},
                        Some(true) => {
                            let ghost before = souls@;
                            souls.push((dict, items));
                            assert(souls@.drop_last() =~= before);
                        },
                        Some(false) => {
                            rejected += 1;
                        },
                    }
                },
                Err(_) => {},
            }
        }
        proof {
            let after = sorted(m, rt, dicts@.take(i + 1));
            assert(readable@ == after.readable);
            assert(souls_match(souls@, after.souls));
            assert(rejected == after.rejected);
        }
        i += 1;
    }
    proof {
        lemma_scale(n as u64, n as u64, n as u64, SCANNED, RECOGNISED);
        assert(dicts@.take(n as int) =~= dicts@);
    }
    Ok((readable, souls, rejected))
}

} // verus!

verus! {

/// The first soul whose dict is at `a`.
pub open spec fn soul_index(souls: Seq<(u64, Seq<(u64, u64)>)>, a: u64) -> Option<usize>
    decreases souls.len(),
{
    if souls.len() == 0 {
        None
    } else {
        match soul_index(souls.drop_last(), a) {
            Some(i) => Some(i),
            None => if souls.last().0 == a {
                Some((souls.len() - 1) as usize)
            } else {
                None
            },
        }
    }
}

/// A map from dict addresses to soul indices that is [`soul_index`].
pub open spec fn indexes(at: Map<u64, usize>, souls: Seq<(u64, Seq<(u64, u64)>)>) -> bool {
    forall|a: u64| #[trigger]
        soul_index(souls, a) == if at.contains_key(a) {
            Some(at[a])
        } else {
            None
        }
}

proof fn lemma_soul_index_bound(souls: Seq<(u64, Seq<(u64, u64)>)>, a: u64)
    requires
        souls.len() <= usize::MAX,
    ensures
        soul_index(souls, a) matches Some(i) ==> i < souls.len() && souls[i as int].0 == a,
    decreases souls.len(),
{
    if souls.len() > 0 {
        lemma_soul_index_bound(souls.drop_last(), a);
        if let Some(i) = soul_index(souls.drop_last(), a) {
            assert(souls.drop_last()[i as int] == souls[i as int]);
        }
    }
}

/// Each soul's dict address, to its first index.
fn index_souls(souls: &Vec<(u64, Vec<(u64, u64)>)>, kept: usize) -> (r: HashMap<u64, usize>)
    requires
        kept <= souls@.len(),
    ensures
        forall|s: Seq<(u64, Seq<(u64, u64)>)>|
            souls_match(souls@, s) ==> indexes(r@, #[trigger] s.take(kept as int)),
{
    let mut at: HashMap<u64, usize> = HashMap::new();
    let mut j: usize = 0;
    while j < kept
        invariant
            kept <= souls@.len(),
            j <= kept,
            forall|s: Seq<(u64, Seq<(u64, u64)>)>|
                souls_match(souls@, s) ==> indexes(at@, #[trigger] s.take(j as int)),
        decreases kept - j,
    {
        let a = souls[j].0;
        let ghost before = at@;
        if !at.contains_key(&a) {
            at.insert(a, j);
        }
        assert forall|s: Seq<(u64, Seq<(u64, u64)>)>| souls_match(souls@, s) implies indexes(
            at@,
            #[trigger] s.take(j + 1),
        ) by {
            assert(indexes(before, s.take(j as int)));
            assert(s.take(j + 1).drop_last() =~= s.take(j as int));
            assert forall|b: u64| #[trigger]
                soul_index(s.take(j + 1), b) == if at@.contains_key(b) {
                    Some(at@[b])
                } else {
                    None
                } by {
                assert(soul_index(s.take(j as int), b) == if before.contains_key(b) {
                    Some(before[b])
                } else {
                    None
                });
            }
        }
        j += 1;
    }
    at
}

} // verus!

verus! {

/// How many of a dict's values are souls.
pub open spec fn held(items: Seq<(u64, u64)>, souls: Seq<(u64, Seq<(u64, u64)>)>) -> nat
    decreases items.len(),
{
    if items.len() == 0 {
        0
    } else {
        held(items.drop_last(), souls) + if soul_index(souls, items.last().1) is Some {
            1nat
        } else {
            0nat
        }
    }
}

/// Among the readable dicts that are not souls, the first to hold the most souls as values,
/// with how many it holds and its items; none if no such dict holds a soul.
pub open spec fn best<M: Memory + ?Sized>(
    m: &M,
    rt: Runtime,
    readable: Seq<u64>,
    souls: Seq<(u64, Seq<(u64, u64)>)>,
) -> Option<(nat, Seq<(u64, u64)>)>
    decreases readable.len(),
{
    if readable.len() == 0 {
        None
    } else {
        let b = best(m, rt, readable.drop_last(), souls);
        let dict = readable.last();
        if soul_index(souls, dict) is Some {
            b
        } else {
            match spec_dict_items(m, rt, dict) {
                Err(_) => b,
                Ok((items, _)) => {
                    let h = held(items, souls);
                    if h > 0 && match b {
                        None => true,
                        Some((n, _)) => h > n,
                    } {
                        Some((h, items))
                    } else {
                        b
                    }
                },
            }
        }
    }
}

/// The container is the dict holding the most souls: among the readable dicts that are not
/// souls, none holds more souls as values than the one chosen, every one before it holds fewer,
/// and it holds at least one; when none is chosen, no such dict holds a soul.
pub proof fn lemma_best_holds_most<M: Memory + ?Sized>(
    m: &M,
    rt: Runtime,
    readable: Seq<u64>,
    souls: Seq<(u64, Seq<(u64, u64)>)>,
)
    ensures
        match best(m, rt, readable, souls) {
            None => forall|j: int|
                0 <= j < readable.len() && soul_index(souls, readable[j]) is None ==> (
                #[trigger] spec_dict_items(m, rt, readable[j]) matches Ok((items, _)) ==> held(
                    items,
                    souls,
                ) == 0),
            Some((h, items)) => {
                &&& h > 0
                &&& h == held(items, souls)
                &&& exists|i: int|
                    0 <= i < readable.len() && soul_index(souls, readable[i]) is None && (
                    #[trigger] spec_dict_items(m, rt, readable[i]) matches Ok((its, _)) && its
                        == items) && forall|j: int|
                        0 <= j < i && soul_index(souls, readable[j]) is None ==> (
                        #[trigger] spec_dict_items(m, rt, readable[j]) matches Ok((o, _)) ==> held(
                            o,
                            souls,
                        ) < h)
                &&& forall|j: int|
                    0 <= j < readable.len() && soul_index(souls, readable[j]) is None ==> (
                    #[trigger] spec_dict_items(m, rt, readable[j]) matches Ok((o, _)) ==> held(
                        o,
                        souls,
                    ) <= h)
            },
        },
    decreases readable.len(),
{
    if readable.len() > 0 {
        let init = readable.drop_last();
        let last = readable.len() - 1;
        lemma_best_holds_most(m, rt, init, souls);
        assert forall|j: int| 0 <= j < init.len() implies init[j] == readable[j] by {}
        let b = best(m, rt, init, souls);
        let dict = readable.last();
        match b {
            None => {},
            Some((h, items)) => {
                let i = choose|i: int|
                    0 <= i < init.len() && soul_index(souls, init[i]) is None && (
                    #[trigger] spec_dict_items(m, rt, init[i]) matches Ok((its, _)) && its
                        == items) && forall|j: int|
                        0 <= j < i && soul_index(souls, init[j]) is None ==> (
                        #[trigger] spec_dict_items(m, rt, init[j]) matches Ok((o, _)) ==> held(
                            o,
                            souls,
                        ) < h);
                assert(readable[i] == init[i]);
                if best(m, rt, readable, souls) == b {
                    assert(forall|j: int|
                        0 <= j < i && soul_index(souls, readable[j]) is None ==> (
                        #[trigger] spec_dict_items(m, rt, readable[j]) matches Ok((o, _))
                            ==> held(o, souls) < h));
                }
            },
        }
        if soul_index(souls, dict) is None {
            match spec_dict_items(m, rt, dict) {
                Err(_) => {},
                Ok((items, _)) => {
                    let h = held(items, souls);
                    let wins = match b {
                        None => h > 0,
                        Some((n, _)) => h > 0 && h > n,
                    };
                    if wins {
                        assert(readable[last] == dict);
                        assert(spec_dict_items(m, rt, readable[last]) matches Ok((its, _)) && its
                            == items);
                    }
                },
            }
        }
    }
}

/// How many of a dict's values are souls.
fn held_count(
    items: &Vec<(u64, u64)>,
    at: &HashMap<u64, usize>,
    souls: Ghost<Seq<(u64, Seq<(u64, u64)>)>>,
) -> (r: usize)
    requires
        indexes(at@, souls@),
    ensures
        r == held(items@, souls@),
{
    let mut count: usize = 0;
    let mut i: usize = 0;
    while i < items.len()
        invariant
            i <= items@.len(),
            indexes(at@, souls@),
            count == held(items@.take(i as int), souls@),
            count <= i,
        decreases items@.len() - i,
    {
        assert(items@.take(i + 1).drop_last() =~= items@.take(i as int));
        let v = items[i].1;
        assert(soul_index(souls@, v) == if at@.contains_key(v) {
            Some(at@[v])
        } else {
            None
        });
        if at.contains_key(&v) {
            count += 1;
        }
        i += 1;
    }
    assert(items@.take(items@.len() as int) =~= items@);
    count
}

/// The container pass: the dict holding the most souls as values. Its items are kept as read
/// here, so its keys are the ones it was chosen by. Progress goes from [`RECOGNISED`] to
/// [`PROGRESS_TOTAL`]; a cancel is heard at every checkpoint.
#[verifier::spinoff_prover]
fn find_container<M: Memory + ?Sized, P: Progress, C: Fn() -> bool>(
    d: &Decoder<'_, M>,
    readable: &Vec<u64>,
    at: &HashMap<u64, usize>,
    souls: Ghost<Seq<(u64, Seq<(u64, u64)>)>>,
    rep: &mut Reporter,
    progress: &mut P,
    cancelled: &C,
) -> (r: Result<Option<Vec<(u64, u64)>>, Cancelled>)
    requires
        indexes(at@, souls@),
        old(rep).wf(old(progress).log()),
        old(rep).last matches Some(l) ==> l <= RECOGNISED,
        cancelled.requires(()),
    ensures
        final(rep).wf(final(progress).log()),
        final(rep).start == old(rep).start,
        final(rep).last matches Some(l) ==> l <= PROGRESS_TOTAL,
        r is Err ==> cancelled.ensures((), true),
        r matches Ok(b) ==> match best(d.spec_mem(), d.spec_rt(), readable@, souls@) {
            None => b is None,
            Some((_, items)) => b matches Some(v) && v@ == items,
        },
{
    let ghost m = d.spec_mem();
    let ghost rt = d.spec_rt();
    let n = readable.len();
    let mut best_held: usize = 0;
    let mut best_items: Option<Vec<(u64, u64)>> = None;
    proof {
        lemma_scale(0, 0, n as u64, RECOGNISED, PROGRESS_TOTAL);
        if n > 0 {
            assert(spec_scale(0, n as u64, RECOGNISED, PROGRESS_TOTAL) == RECOGNISED) by (nonlinear_arith)
                requires
                    n > 0,
            ;
        }
    }
    let mut i: usize = 0;
    while i < n
        invariant
            n == readable@.len(),
            i <= n,
            m == d.spec_mem(),
            rt == d.spec_rt(),
            indexes(at@, souls@),
            cancelled.requires(()),
            rep.wf(progress.log()),
            rep.start == old(rep).start,
            rep.last matches Some(l) ==> l <= spec_scale(
                i as u64,
                n as u64,
                RECOGNISED,
                PROGRESS_TOTAL,
            ),
            match best(m, rt, readable@.take(i as int), souls@) {
                None => best_items is None,
                Some((h, items)) => best_items matches Some(v) && v@ == items && best_held == h,
            },
        decreases n - i,
    {
        proof {
            lemma_scale(i as u64, (i + 1) as u64, n as u64, RECOGNISED, PROGRESS_TOTAL);
        }
        if i % CHECKPOINT_EVERY == 0 {
            if cancelled() {
                return Err(Cancelled);
            }
            let done = scale(i as u64, n as u64, RECOGNISED, PROGRESS_TOTAL);
            rep.report(progress, done);
        }
        let dict = readable[i];
        assert(readable@.take(i + 1).drop_last() =~= readable@.take(i as int));
        assert(readable@.take(i + 1).last() == dict);
        assert(soul_index(souls@, dict) == if at@.contains_key(dict) {
            Some(at@[dict])
        } else {
            None
        });
        if !at.contains_key(&dict) {
            match d.dict_items(dict) {
                Ok((items, _)) => {
                    let h = held_count(&items, at, souls);
                    if h > 0 && (best_items.is_none() || h > best_held) {
                        best_held = h;
                        best_items = Some(items);
                    }
                },
                Err(_) => {},
            }
        }
        i += 1;
    }
    proof {
        lemma_scale(n as u64, n as u64, n as u64, RECOGNISED, PROGRESS_TOTAL);
        assert(readable@.take(n as int) =~= readable@);
    }
    Ok(best_items)
}

} // verus!

verus! {

/// The container's key for each soul it holds, the first key wins, and the souls in the order
/// the container holds them.
pub open spec fn container_order(items: Seq<(u64, u64)>, souls: Seq<(u64, Seq<(u64, u64)>)>) -> (
    Map<usize, u64>,
    Seq<usize>,
)
    decreases items.len(),
{
    if items.len() == 0 {
        (Map::empty(), Seq::empty())
    } else {
        let (keys, order) = container_order(items.drop_last(), souls);
        let (k, v) = items.last();
        match soul_index(souls, v) {
            Some(s) => if keys.contains_key(s) {
                (keys, order)
            } else {
                (keys.insert(s, k), order.push(s))
            },
            None => (keys, order),
        }
    }
}

/// The souls below `n` that no key names, in index order.
pub open spec fn uncovered(keys: Map<usize, u64>, n: nat) -> Seq<usize>
    decreases n,
{
    if n == 0 {
        Seq::empty()
    } else {
        let rest = uncovered(keys, (n - 1) as nat);
        if keys.contains_key((n - 1) as usize) {
            rest
        } else {
            rest.push((n - 1) as usize)
        }
    }
}

/// The container's key for each soul it holds, and those souls in its order.
fn container_keys(
    items: &Vec<(u64, u64)>,
    at: &HashMap<u64, usize>,
    souls: Ghost<Seq<(u64, Seq<(u64, u64)>)>>,
) -> (r: (HashMap<usize, u64>, Vec<usize>))
    requires
        indexes(at@, souls@),
        souls@.len() <= usize::MAX,
    ensures
        r.0@ == container_order(items@, souls@).0,
        r.1@ == container_order(items@, souls@).1,
        forall|i: int| 0 <= i < r.1@.len() ==> #[trigger] r.1@[i] < souls@.len(),
{
    let mut keys: HashMap<usize, u64> = HashMap::new();
    let mut order: Vec<usize> = Vec::new();
    let mut i: usize = 0;
    while i < items.len()
        invariant
            i <= items@.len(),
            indexes(at@, souls@),
            souls@.len() <= usize::MAX,
            keys@ == container_order(items@.take(i as int), souls@).0,
            order@ == container_order(items@.take(i as int), souls@).1,
            forall|j: int| 0 <= j < order@.len() ==> #[trigger] order@[j] < souls@.len(),
        decreases items@.len() - i,
    {
        assert(items@.take(i + 1).drop_last() =~= items@.take(i as int));
        let (k, v) = items[i];
        assert(items@.take(i + 1).last() == (k, v));
        assert(soul_index(souls@, v) == if at@.contains_key(v) {
            Some(at@[v])
        } else {
            None
        });
        proof {
            lemma_soul_index_bound(souls@, v);
        }
        match at.get(&v) {
            Some(s) => {
                if !keys.contains_key(s) {
                    keys.insert(*s, k);
                    order.push(*s);
                }
            },
            None => {},
        }
        i += 1;
    }
    assert(items@.take(items@.len() as int) =~= items@);
    (keys, order)
}

/// The souls below `n` that no key names, appended in index order.
fn add_uncovered(order: &mut Vec<usize>, keys: &HashMap<usize, u64>, n: usize)
    ensures
        final(order)@ == old(order)@ + uncovered(keys@, n as nat),
{
    let ghost start = order@;
    let mut s: usize = 0;
    while s < n
        invariant
            s <= n,
            order@ == start + uncovered(keys@, s as nat),
        decreases n - s,
    {
        if !keys.contains_key(&s) {
            order.push(s);
        }
        assert(uncovered(keys@, (s + 1) as nat) == if keys@.contains_key(s) {
            uncovered(keys@, s as nat)
        } else {
            uncovered(keys@, s as nat).push(s)
        });
        s += 1;
    }
}

proof fn lemma_uncovered_bound(keys: Map<usize, u64>, n: nat)
    ensures
        forall|i: int| 0 <= i < uncovered(keys, n).len() ==> #[trigger] uncovered(keys, n)[i] < n,
    decreases n,
{
    if n > 0 {
        lemma_uncovered_bound(keys, (n - 1) as nat);
        let rest = uncovered(keys, (n - 1) as nat);
        let all = uncovered(keys, n);
        assert forall|i: int| 0 <= i < all.len() implies #[trigger] all[i] < n by {
            if i < rest.len() {
                assert(all[i] == rest[i]);
            }
        }
    }
}

/// A soul's entries as read: keys one level deep, values [`MAX_DEPTH`] deep.
pub open spec fn entries_read<M: Memory + ?Sized>(
    m: &M,
    rt: Runtime,
    items: Seq<(u64, u64)>,
) -> Seq<(RawView, RawView)> {
    Seq::new(
        items.len(),
        |i: int| (spec_value(m, rt, items[i].0, 1), spec_value(m, rt, items[i].1, MAX_DEPTH as nat)),
    )
}

/// The record of the `s`-th soul: no typed field set, its entries verbatim, and its key in
/// the container where it has one.
pub open spec fn soul_record<M: Memory + ?Sized>(
    m: &M,
    rt: Runtime,
    souls: Seq<(u64, Seq<(u64, u64)>)>,
    keys: Map<usize, u64>,
    s: usize,
) -> SoulView {
    SoulView {
        soul_id: None,
        suit_code: None,
        star: None,
        slot: None,
        level: None,
        main: None,
        subs: None,
        innate: None,
        observed: Some(
            ObservedView {
                type_label: builtin_name(Builtin::Dict),
                container_key: if keys.contains_key(s) {
                    Some(spec_value(m, rt, keys[s], 1))
                } else {
                    None
                },
                entries: entries_read(m, rt, souls[s as int].1),
            },
        ),
    }
}

/// The records of the souls, in `order`.
#[verifier::spinoff_prover]
fn build_records<M: Memory + ?Sized>(
    d: &mut Decoder<'_, M>,
    souls: &Vec<(u64, Vec<(u64, u64)>)>,
    model: Ghost<Seq<(u64, Seq<(u64, u64)>)>>,
    keys: &HashMap<usize, u64>,
    order: &Vec<usize>,
) -> (r: Vec<SoulRecord>)
    requires
        old(d).wf(),
        souls_match(souls@, model@),
        forall|i: int| 0 <= i < order@.len() ==> #[trigger] order@[i] < souls@.len(),
    ensures
        final(d).wf(),
        final(d).spec_mem() == old(d).spec_mem(),
        final(d).spec_rt() == old(d).spec_rt(),
        r@.len() == order@.len(),
        forall|i: int|
            0 <= i < r@.len() ==> (#[trigger] r@[i]).view() == soul_record(
                old(d).spec_mem(),
                old(d).spec_rt(),
                model@,
                keys@,
                order@[i],
            ),
{
    let ghost m = d.spec_mem();
    let ghost rt = d.spec_rt();
    let mut records: Vec<SoulRecord> = Vec::new();
    let mut i: usize = 0;
    while i < order.len()
        invariant
            i <= order@.len(),
            d.wf(),
            d.spec_mem() == m,
            d.spec_rt() == rt,
            souls_match(souls@, model@),
            forall|x: int| 0 <= x < order@.len() ==> #[trigger] order@[x] < souls@.len(),
            records@.len() == i,
            forall|x: int|
                0 <= x < i ==> (#[trigger] records@[x]).view() == soul_record(
                    m,
                    rt,
                    model@,
                    keys@,
                    order@[x],
                ),
        decreases order@.len() - i,
    {
        let s = order[i];
        assert(order@[i as int] < souls@.len());
        let items = &souls[s].1;
        assert(souls@[s as int].0 == model@[s as int].0);
        assert(items@ == model@[s as int].1);
        let container_key = match keys.get(&s) {
            Some(k) => Some(d.value(*k, 1)),
            None => None,
        };
        let mut entries: Vec<RawEntry> = Vec::new();
        let mut j: usize = 0;
        while j < items.len()
            invariant
                j <= items@.len(),
                d.wf(),
                d.spec_mem() == m,
                d.spec_rt() == rt,
                entries@.len() == j,
                forall|x: int|
                    0 <= x < j ==> (#[trigger] entries@[x]).key.view() == spec_value(
                        m,
                        rt,
                        items@[x].0,
                        1,
                    ) && entries@[x].value.view() == spec_value(
                        m,
                        rt,
                        items@[x].1,
                        MAX_DEPTH as nat,
                    ),
            decreases items@.len() - j,
        {
            let (k, v) = items[j];
            let key = d.value(k, 1);
            let value = d.entry_value(v);
            entries.push(RawEntry { key, value });
            j += 1;
        }
        let ghost ev = entries@;
        let observed = ObservedRecord {
            type_label: Builtin::Dict.name().to_owned(),
            container_key,
            entries,
        };
        let record = SoulRecord {
            soul_id: None,
            suit_code: None,
            star: None,
            slot: None,
            level: None,
            main: None,
            subs: None,
            innate: None,
            observed: Some(observed),
        };
        proof {
            assert(entries_view(ev) =~= entries_read(m, rt, model@[s as int].1));
            assert(record.view() == soul_record(m, rt, model@, keys@, s));
        }
        records.push(record);
        i += 1;
    }
    records
}

/// How many regions a heap scan reads.
pub open spec fn heap_count(rs: Seq<Region>) -> nat
    decreases rs.len(),
{
    if rs.len() == 0 {
        0
    } else {
        heap_count(rs.drop_last()) + if spec_picks(Pick::Heap, rs.last()) {
            1nat
        } else {
            0nat
        }
    }
}

/// How many regions a heap scan reads, and their bytes added up.
fn heap_regions<M: Memory + ?Sized>(mem: &M) -> (r: (u64, u64))
    ensures
        r.0 == heap_count(mem.spec_regions()),
{
    let regions = mem.regions();
    let mut count: u64 = 0;
    let mut bytes: u64 = 0;
    let mut i: usize = 0;
    while i < regions.len()
        invariant
            i <= regions@.len(),
            regions@ == mem.spec_regions(),
            count == heap_count(regions@.take(i as int)),
            count <= i,
        decreases regions@.len() - i,
    {
        assert(regions@.take(i + 1).drop_last() =~= regions@.take(i as int));
        let r = regions[i];
        if picks(Pick::Heap, &r) {
            count += 1;
            bytes = bytes.saturating_add(r.size);
        }
        i += 1;
    }
    assert(regions@.take(regions@.len() as int) =~= regions@);
    (count, bytes)
}

} // verus!

verus! {

/// The dicts a heap scan finds: a word holding the dict type's address is the type field of
/// the dict 8 bytes before it.
pub open spec fn heap_dicts<M: Memory + ?Sized>(m: &M, rt: Runtime) -> Seq<u64> {
    scan_hits(m, Pick::Heap, Needle::Word(rt.dict)).map_values(|a: u64| (a - 8) as u64)
}

/// What a heap scan run to its end hears of its chunks.
pub open spec fn heap_heard<M: Memory + ?Sized>(m: &M) -> Seq<Chunk> {
    spans_chunks(m, scan_spans(m, Pick::Heap))
}

/// The souls reported: the first [`MAX_SOULS`].
pub open spec fn kept(souls: Seq<(u64, Seq<(u64, u64)>)>) -> Seq<(u64, Seq<(u64, u64)>)> {
    if souls.len() > MAX_SOULS {
        souls.take(MAX_SOULS as int)
    } else {
        souls
    }
}

/// The souls left out past [`MAX_SOULS`].
pub open spec fn left_out(souls: Seq<(u64, Seq<(u64, u64)>)>) -> nat {
    if souls.len() > MAX_SOULS {
        (souls.len() - MAX_SOULS) as nat
    } else {
        0
    }
}

/// The recognition pass over the whole heap.
pub open spec fn heap_sorted<M: Memory + ?Sized>(m: &M, rt: Runtime) -> Sorted {
    sorted(m, rt, heap_dicts(m, rt))
}

/// The items of the souls' container, or none if no dict holds a soul.
pub open spec fn container_items<M: Memory + ?Sized>(m: &M, rt: Runtime) -> Seq<(u64, u64)> {
    let s = heap_sorted(m, rt);
    match best(m, rt, s.readable, kept(s.souls)) {
        Some((_, items)) => items,
        None => Seq::empty(),
    }
}

/// The container's key for each soul, and the order of the records: the container's souls
/// first, in its order, then the rest in address order.
pub open spec fn soul_order<M: Memory + ?Sized>(m: &M, rt: Runtime) -> (Map<usize, u64>, Seq<usize>) {
    let k = kept(heap_sorted(m, rt).souls);
    let (keys, first) = container_order(container_items(m, rt), k);
    (keys, first + uncovered(keys, k.len()))
}

/// The records a reading of the souls holds, in order.
pub open spec fn soul_records<M: Memory + ?Sized>(m: &M, rt: Runtime) -> Seq<SoulView> {
    let (keys, order) = soul_order(m, rt);
    order.map_values(|s: usize| soul_record(m, rt, kept(heap_sorted(m, rt).souls), keys, s))
}

/// What a reading of the souls copied and left out.
pub open spec fn read_stats<M: Memory + ?Sized>(m: &M, rt: Runtime) -> ReadStats {
    let s = heap_sorted(m, rt);
    ReadStats {
        regions_scanned: heap_count(m.spec_regions()) as u64,
        regions_unreadable: unreadable_regions(heap_heard(m)).len() as u64,
        bytes_scanned: heard_bytes(heap_heard(m)),
        candidates_rejected: (s.rejected + left_out(s.souls)) as u64,
    }
}

/// A reading of the souls: partial, for the reader cannot tell whether the game holds the
/// whole inventory in memory; the recognition rule stated as inherited, no field mapped; and
/// the records of [`soul_records`].
pub open spec fn souls_reading<M: Memory + ?Sized>(m: &M, rt: Runtime, r: Reading) -> bool {
    &&& r.coverage == Coverage::Partial
    &&& r.observed_account_id is None
    &&& r.stats == read_stats(m, rt)
    &&& r.records matches Records::Souls(sr) && sr.recognition == Evidence::Inherited
        && sr.mappings == SoulMappings::unmapped() && sr.souls@.len() == soul_records(m, rt).len()
        && forall|i: int|
        0 <= i < sr.souls@.len() ==> (#[trigger] sr.souls@[i]).view() == soul_records(m, rt)[i]
}

/// Progress as a reading reports it: what was heard before stays, each new report is above
/// the one before, on the scale of [`PROGRESS_TOTAL`], and a reading that finished reported
/// the total last.
pub open spec fn progress_law(before: Seq<(u64, u64)>, after: Seq<(u64, u64)>, finished: bool) -> bool {
    let new = after.subrange(before.len() as int, after.len() as int);
    &&& after.len() >= before.len()
    &&& after.subrange(0, before.len() as int) == before
    &&& forall|i: int, j: int| 0 <= i < j < new.len() ==> new[i].0 < new[j].0
    &&& forall|i: int|
        0 <= i < new.len() ==> #[trigger] new[i].1 == PROGRESS_TOTAL && new[i].0 <= PROGRESS_TOTAL
    &&& finished ==> new.len() > 0 && new.last() == (PROGRESS_TOTAL, PROGRESS_TOTAL)
}

/// The dicts the scan's hits are the type fields of.
fn dicts_of(hits: &Vec<u64>, dict: Ghost<u64>) -> (r: Vec<u64>)
    requires
        forall|i: int| 0 <= i < hits@.len() ==> #[trigger] hits@[i] >= 8,
    ensures
        r@ == hits@.map_values(|a: u64| (a - 8) as u64),
{
    let mut r: Vec<u64> = Vec::new();
    let mut i: usize = 0;
    while i < hits.len()
        invariant
            i <= hits@.len(),
            forall|x: int| 0 <= x < hits@.len() ==> #[trigger] hits@[x] >= 8,
            r@ == hits@.take(i as int).map_values(|a: u64| (a - 8) as u64),
        decreases hits@.len() - i,
    {
        assert(hits@[i as int] >= 8);
        r.push(hits[i] - 8);
        assert(hits@.take(i + 1).map_values(|a: u64| (a - 8) as u64) =~= hits@.take(
            i as int,
        ).map_values(|a: u64| (a - 8) as u64).push((hits@[i as int] - 8) as u64));
        i += 1;
    }
    assert(hits@.take(hits@.len() as int) =~= hits@);
    r
}

} // verus!

verus! {

proof fn lemma_souls_match_take(v: Seq<(u64, Vec<(u64, u64)>)>, s: Seq<(u64, Seq<(u64, u64)>)>, n: int)
    requires
        souls_match(v, s),
        0 <= n <= v.len(),
    ensures
        souls_match(v.subrange(0, n), s.take(n)),
{
    assert forall|j: int| 0 <= j < n implies #[trigger] v.subrange(0, n)[j].0 == s.take(n)[j].0
        && v.subrange(0, n)[j].1@ == s.take(n)[j].1 by {
        assert(v[j].0 == s[j].0);
    }
}

proof fn lemma_progress(rep: Reporter, start: Seq<(u64, u64)>, log: Seq<(u64, u64)>, finished: bool)
    requires
        rep.wf(log),
        rep.start@ == start,
        finished ==> rep.last == Some(PROGRESS_TOTAL),
    ensures
        progress_law(start, log, finished),
{
    let new = log.subrange(start.len() as int, log.len() as int);
    assert(new =~= rep.reports(log));
    if finished {
        assert(new[new.len() - 1].1 == PROGRESS_TOTAL);
    }
}

/// Read the souls: every dict in the target's private writable memory that the recognition
/// rule accepts, their container's key for each, and what the reading copied and left out.
/// `progress` hears `(done, total)` pairs, each above the one before; `cancelled` is asked at
/// every checkpoint, and a reading it cancels stops there.
pub fn read_souls<M: Memory + ?Sized, P: Progress, C: Fn() -> bool>(
    mem: &M,
    rt: &Runtime,
    progress: &mut P,
    cancelled: &C,
) -> (r: Result<Reading, Cancelled>)
    requires
        cancelled.requires(()),
    ensures
        progress_law(old(progress).log(), final(progress).log(), r is Ok),
        r matches Ok(reading) ==> souls_reading(mem, *rt, reading),
        r is Err ==> cancelled.ensures((), true),
        (forall|b: bool| cancelled.ensures((), b) ==> !b) ==> r is Ok,
        (forall|b: bool| cancelled.ensures((), b) ==> b) && scan_spans(mem, Pick::Heap).len()
            > 0 ==> r == Err::<Reading, Cancelled>(Cancelled),
{
    let ghost m = mem;
    let ghost start = progress.log();
    let mut d = Decoder::new(mem, rt);
    let (regions_scanned, total) = heap_regions(mem);
    let rep = Reporter::new(progress);
    let mut watch = ScanWatch {
        reporter: rep,
        cancelled,
        total,
        scanned: 0,
        unreadable: Vec::new(),
        heard: Ghost(Seq::empty()),
    };
    assert(watch.unreadable@ =~= unreadable_regions(Seq::<Chunk>::empty()));
    let hits = match scan(mem, Pick::Heap, Needle::Word(rt.dict), &mut watch, progress) {
        Ok(h) => h,
        Err(c) => {
            proof {
                lemma_progress(watch.reporter, start, progress.log(), false);
            }
            return Err(c);
        },
    };
    let ghost heard = watch.heard@;
    assert(heard =~= heap_heard(mem));
    let mut rep = watch.reporter;
    proof {
        lemma_scale(watch.scanned, watch.scanned, watch.total, 0, SCANNED);
        lemma_spans_hits_floor(mem, scan_spans(mem, Pick::Heap), rt.dict);
    }
    let dicts = dicts_of(&hits, Ghost(rt.dict));
    assert(dicts@ == heap_dicts(mem, *rt));
    let (readable, mut souls, rejected) = match sort_dicts(&d, &dicts, &mut rep, progress, cancelled) {
        Ok(x) => x,
        Err(c) => {
            proof {
                lemma_progress(rep, start, progress.log(), false);
            }
            return Err(c);
        },
    };
    let ghost all = heap_sorted(mem, *rt).souls;
    let ghost model = kept(all);
    let over: usize = if souls.len() > MAX_SOULS {
        souls.len() - MAX_SOULS
    } else {
        0
    };
    let ghost before = souls@;
    let nd = dicts.len();
    assert(rejected + over <= nd);
    let candidates_rejected: u64 = rejected + over as u64;
    souls.truncate(MAX_SOULS);
    proof {
        if before.len() > MAX_SOULS {
            lemma_souls_match_take(before, all, MAX_SOULS as int);
        } else {
            assert(souls@ =~= before);
        }
        assert(souls_match(souls@, model));
    }
    let at = index_souls(&souls, souls.len());
    assert(model.take(souls@.len() as int) =~= model);
    assert(indexes(at@, model.take(souls@.len() as int)));
    let container = match find_container(&d, &readable, &at, Ghost(model), &mut rep, progress, cancelled) {
        Ok(c) => c,
        Err(c) => {
            proof {
                lemma_progress(rep, start, progress.log(), false);
            }
            return Err(c);
        },
    };
    let items = match container {
        Some(v) => v,
        None => Vec::new(),
    };
    assert(items@ == container_items(mem, *rt));
    let (keys, mut order) = container_keys(&items, &at, Ghost(model));
    let ghost first = order@;
    add_uncovered(&mut order, &keys, souls.len());
    proof {
        lemma_uncovered_bound(keys@, souls@.len() as nat);
        assert forall|i: int| 0 <= i < order@.len() implies #[trigger] order@[i] < souls@.len() by {
            if i >= first.len() {
                assert(order@[i] == uncovered(keys@, souls@.len() as nat)[i - first.len()]);
            }
        }
    }
    let records = build_records(&mut d, &souls, Ghost(model), &keys, &order);
    rep.report(progress, PROGRESS_TOTAL);
    let stats = ReadStats {
        regions_scanned,
        regions_unreadable: watch.unreadable.len() as u64,
        bytes_scanned: watch.scanned,
        candidates_rejected,
    };
    let ghost expected = soul_records(mem, *rt);
    let reading = Reading {
        coverage: Coverage::Partial,
        observed_account_id: None,
        stats,
        records: Records::Souls(
            SoulRecords {
                souls: records,
                recognition: Evidence::Inherited,
                mappings: SoulMappings::default(),
            },
        ),
    };
    proof {
        assert(soul_order(mem, *rt).1 =~= order@);
        assert(soul_order(mem, *rt).0 == keys@);
        assert(reading.stats == read_stats(mem, *rt));
        lemma_progress(rep, start, progress.log(), true);
    }
    Ok(reading)
}

} // verus!
