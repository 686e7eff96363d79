//! Another process's memory as the parsers see it: a list of readable regions and a way to
//! copy bytes out of them. [`Image`] holds the bytes here, for tests and fixtures; the desktop
//! channel implements [`Memory`] over the game process. Parsing never needs to know which.

use vstd::prelude::*;

use std::collections::HashMap;
use vstd::cell::invcell::InvCell;

use super::bytes::{le_nat, le_u64, le_uint, signed, to_signed};

verus! {

/// What backs a region, as the operating system reports it.
#[derive(Debug, Clone, Copy, PartialEq, Eq, Structural)]
pub enum RegionKind {
    /// Memory the process allocated: its heaps.
    Private,
    /// A loaded executable or library.
    Image,
    /// A mapped file or section.
    Mapped,
}

/// One committed, readable region.
#[derive(Debug, Clone, Copy, PartialEq, Eq, Structural)]
pub struct Region {
    pub base: u64,
    pub size: u64,
    pub kind: RegionKind,
    pub writable: bool,
}

impl Region {
    /// The region's end, saturated at the top of the address space.
    pub open spec fn spec_end(&self) -> u64 {
        if self.base + self.size > u64::MAX {
            u64::MAX
        } else {
            (self.base + self.size) as u64
        }
    }

    pub open spec fn spec_contains(&self, address: u64) -> bool {
        self.base <= address && address < self.spec_end()
    }

    pub fn end(&self) -> (r: u64)
        ensures
            r == self.spec_end(),
    {
        self.base.saturating_add(self.size)
    }

    pub fn contains(&self, address: u64) -> (r: bool)
        ensures
            r == self.spec_contains(address),
    {
        address >= self.base && address < self.end()
    }
}

/// Regions in address order, none overlapping another, none reaching past the address space.
pub open spec fn regions_wf(rs: Seq<Region>) -> bool {
    &&& forall|i: int| 0 <= i < rs.len() ==> #[trigger] rs[i].base + rs[i].size <= u64::MAX
    &&& forall|i: int, j: int|
        0 <= i < j < rs.len() ==> #[trigger] rs[i].base + rs[i].size <= #[trigger] rs[j].base
}

/// In well-formed regions, at most one region holds an address.
pub proof fn lemma_one_region_holds(rs: Seq<Region>, a: u64, i: int, j: int)
    requires
        regions_wf(rs),
        0 <= i < rs.len(),
        0 <= j < rs.len(),
        rs[i].spec_contains(a),
        rs[j].spec_contains(a),
    ensures
        i == j,
{
    if i < j {
        assert(rs[i].base + rs[i].size <= rs[j].base);
    } else if j < i {
        assert(rs[j].base + rs[j].size <= rs[i].base);
    }
}

/// Bytes that could not be copied: not committed, not readable, or gone.
#[derive(Debug, Clone, Copy, PartialEq, Eq, Structural)]
pub struct Unreadable {
    pub address: u64,
    pub len: usize,
}

/// A region that would overlap one already added, or run past the end of the address space.
#[derive(Debug, Clone, Copy, PartialEq, Eq, Structural)]
pub struct Overlap {
    pub base: u64,
    pub size: u64,
}

/// The 64-bit word at `a`, if it can be read.
pub open spec fn spec_u64<M: Memory + ?Sized>(m: &M, a: u64) -> Option<u64> {
    match m.spec_read(a, 8) {
        Some(b) => Some(le_u64(b)),
        None => None,
    }
}

/// The 32-bit word at `a`, if it can be read.
pub open spec fn spec_u32<M: Memory + ?Sized>(m: &M, a: u64) -> Option<u32> {
    match m.spec_read(a, 4) {
        Some(b) => Some(le_nat(b) as u32),
        None => None,
    }
}

/// A process's memory, read-only. What a read gives is [`Memory::spec_read`], the same for
/// every read of the same bytes: the contracts treat memory as standing still. That is an
/// assumption on every implementation. [`Image`] meets it; a running game does not, and what
/// is proved of a reading of the game holds of it as if it stood still while it was read.
/// [`Cached`] narrows the gap: it keeps the blocks it has copied, a bounded number of them, so
/// the reads a parser makes near one another mostly see one copy. An implementation outside the verified library, such as the
/// program's view of the game process, need not state the spec functions; what they are is
/// then left open.
pub trait Memory {
    /// The readable regions.
    closed spec fn spec_regions(&self) -> Seq<Region> {
        arbitrary()
    }

    /// The `len` bytes at `address`, or `None` if they cannot all be copied.
    closed spec fn spec_read(&self, address: u64, len: nat) -> Option<Seq<u8>> {
        arbitrary()
    }

    /// The readable regions, in address order.
    fn regions(&self) -> (r: &[Region])
        ensures
            r@ == self.spec_regions(),
            regions_wf(r@),
    ;

    /// Fill `buf` from `address`, all of it or nothing: a read that fails leaves `buf` as it
    /// was.
    fn read_into(&self, address: u64, buf: &mut Vec<u8>) -> (r: Result<(), Unreadable>)
        ensures
            final(buf)@.len() == old(buf)@.len(),
            r is Err ==> final(buf)@ == old(buf)@,
            match self.spec_read(address, old(buf)@.len()) {
                Some(b) => r is Ok && final(buf)@ == b,
                None => r == Err::<(), Unreadable>(
                    Unreadable { address, len: old(buf)@.len() as usize },
                ),
            },
    ;

    /// The `len` bytes at `address`.
    fn read_vec(&self, address: u64, len: usize) -> (r: Result<Vec<u8>, Unreadable>)
        ensures
            r matches Ok(v) ==> v@.len() == len,
            match self.spec_read(address, len as nat) {
                Some(b) => r matches Ok(v) && v@ == b,
                None => r == Err::<Vec<u8>, Unreadable>(Unreadable { address, len }),
            },
    {
        let mut v: Vec<u8> = Vec::new();
        let mut i: usize = 0;
        while i < len
            invariant
                i <= len,
                v@.len() == i,
            decreases len - i,
        {
            v.push(0);
            i += 1;
        }
        match self.read_into(address, &mut v) {
            Ok(()) => Ok(v),
            Err(e) => Err(e),
        }
    }

    fn read_u64(&self, address: u64) -> (r: Result<u64, Unreadable>)
        ensures
            match self.spec_read(address, 8) {
                Some(b) => r == Ok::<u64, Unreadable>(le_u64(b)),
                None => r == Err::<u64, Unreadable>(Unreadable { address, len: 8 }),
            },
    {
        let v = match self.read_vec(address, 8) {
            Ok(v) => v,
            Err(e) => return Err(e),
        };
        assert(v@.subrange(0, 8) =~= v@);
        Ok(le_uint(&v, 0, 8))
    }

    fn read_i64(&self, address: u64) -> (r: Result<i64, Unreadable>)
        ensures
            match self.spec_read(address, 8) {
                Some(b) => r == Ok::<i64, Unreadable>(signed(le_u64(b))),
                None => r == Err::<i64, Unreadable>(Unreadable { address, len: 8 }),
            },
    {
        let v = match self.read_u64(address) {
            Ok(v) => v,
            Err(e) => return Err(e),
        };
        Ok(to_signed(v))
    }

    fn read_u32(&self, address: u64) -> (r: Result<u32, Unreadable>)
        ensures
            match self.spec_read(address, 4) {
                Some(b) => r == Ok::<u32, Unreadable>(le_nat(b) as u32),
                None => r == Err::<u32, Unreadable>(Unreadable { address, len: 4 }),
            },
    {
        let v = match self.read_vec(address, 4) {
            Ok(v) => v,
            Err(e) => return Err(e),
        };
        assert(v@.subrange(0, 4) =~= v@);
        proof {
            super::bytes::lemma_le_nat_bound(v@);
            super::bytes::lemma_pow256_8();
        }
        Ok(le_uint(&v, 0, 4) as u32)
    }
}

/// What an image read gives: the bytes of the one region holding `a`, if all `len` of them
/// are in it.
pub open spec fn image_read(rs: Seq<Region>, bs: Seq<Seq<u8>>, a: u64, len: nat) -> Option<
    Seq<u8>,
> {
    if exists|i: int| 0 <= i < rs.len() && #[trigger] rs[i].spec_contains(a) {
        let i = choose|i: int| 0 <= i < rs.len() && #[trigger] rs[i].spec_contains(a);
        let off = a - rs[i].base;
        if off + len <= bs[i].len() {
            Some(bs[i].subrange(off, off + len))
        } else {
            None
        }
    } else {
        None
    }
}

/// Whether two regions can stand one after the other in address order: they share no byte,
/// and neither is an empty region strictly inside the other.
pub open spec fn apart(a: Region, b: Region) -> bool {
    a.base + a.size <= b.base || b.base + b.size <= a.base
}

/// Whether a region goes before a new one at `base`: it starts below it, or it is an empty
/// region at the same base.
pub open spec fn goes_before(r: Region, base: u64) -> bool {
    r.base < base || (r.base == base && r.size == 0)
}

/// Where a region with this base goes: after every region that goes before it.
pub open spec fn insertion_point(rs: Seq<Region>, base: u64) -> int
    decreases rs.len(),
{
    if rs.len() == 0 {
        0
    } else if goes_before(rs[0], base) {
        1 + insertion_point(rs.drop_first(), base)
    } else {
        0
    }
}

proof fn lemma_insertion_point(rs: Seq<Region>, base: u64)
    ensures
        0 <= insertion_point(rs, base) <= rs.len(),
        forall|j: int| 0 <= j < insertion_point(rs, base) ==> goes_before(#[trigger] rs[j], base),
        insertion_point(rs, base) < rs.len() ==> !goes_before(rs[insertion_point(rs, base)], base),
    decreases rs.len(),
{
    if rs.len() > 0 && goes_before(rs[0], base) {
        lemma_insertion_point(rs.drop_first(), base);
        assert forall|j: int| 0 <= j < insertion_point(rs, base) implies goes_before(
            #[trigger] rs[j],
            base,
        ) by {
            if j > 0 {
                assert(rs[j] == rs.drop_first()[j - 1]);
            }
        }
    }
}

/// Inserting a region between its neighbours keeps the regions well formed when it fits
/// between them.
proof fn lemma_insert_wf(rs: Seq<Region>, new: Region, at: int)
    requires
        regions_wf(rs),
        0 <= at <= rs.len(),
        new.base + new.size <= u64::MAX,
        at > 0 ==> rs[at - 1].base + rs[at - 1].size <= new.base,
        at < rs.len() ==> new.base + new.size <= rs[at].base,
    ensures
        regions_wf(rs.insert(at, new)),
{
    let ins = rs.insert(at, new);
    assert forall|i: int, j: int| 0 <= i < j < ins.len() implies #[trigger] ins[i].base
        + ins[i].size <= #[trigger] ins[j].base by {
        if i < at && j < at {
            assert(ins[i] == rs[i] && ins[j] == rs[j]);
        } else if i < at && j == at {
            assert(ins[i] == rs[i]);
            if i < at - 1 {
                assert(rs[i].base + rs[i].size <= rs[at - 1].base);
            }
        } else if i < at && j > at {
            assert(ins[i] == rs[i] && ins[j] == rs[j - 1]);
        } else if i == at {
            assert(ins[j] == rs[j - 1]);
            if j - 1 > at {
                assert(rs[at].base + rs[at].size <= rs[j - 1].base);
            }
        } else {
            assert(ins[i] == rs[i - 1] && ins[j] == rs[j - 1]);
        }
    }
    assert forall|i: int| 0 <= i < ins.len() implies #[trigger] ins[i].base + ins[i].size
        <= u64::MAX by {
        if i < at {
            assert(ins[i] == rs[i]);
        } else if i > at {
            assert(ins[i] == rs[i - 1]);
        }
    }
}

/// Memory held in this process: regions and their bytes. What the tests and the synthetic
/// fixtures read.
pub struct Image {
    regions: Vec<Region>,
    bytes: Vec<Vec<u8>>,
}

impl Image {
    #[verifier::type_invariant]
    closed spec fn wf(&self) -> bool {
        &&& self.regions@.len() == self.bytes@.len()
        &&& regions_wf(self.regions@)
        &&& forall|i: int|
            0 <= i < self.regions@.len() ==> #[trigger] self.regions@[i].size
                == self.bytes@[i]@.len()
    }

    /// The bytes each region holds, in the regions' order.
    pub closed spec fn spec_bytes(&self) -> Seq<Seq<u8>> {
        self.bytes@.map_values(|b: Vec<u8>| b@)
    }

    pub closed spec fn spec_region_list(&self) -> Seq<Region> {
        self.regions@
    }

    pub fn new() -> (m: Image)
        ensures
            m.spec_region_list() == Seq::<Region>::empty(),
            m.spec_bytes() == Seq::<Seq<u8>>::empty(),
            image_shape(m.spec_region_list(), m.spec_bytes()),
    {
        let m = Image { regions: Vec::new(), bytes: Vec::new() };
        assert(m.spec_bytes() =~= Seq::<Seq<u8>>::empty());
        m
    }

    /// Add a region holding `bytes`. A region that shares a byte with one already added, that
    /// would stand strictly inside one as an empty region or hold an empty one strictly inside
    /// it, or that would run past the end of the address space, is refused and nothing changes.
    #[verifier::spinoff_prover]
    #[verifier::rlimit(40)]
    pub fn add(&mut self, base: u64, kind: RegionKind, writable: bool, bytes: Vec<u8>) -> (r:
        Result<(), Overlap>)
        ensures
            ({
                let rs = old(self).spec_region_list();
                let new = Region { base, size: bytes@.len() as u64, kind, writable };
                let at = insertion_point(rs, base);
                &&& r is Ok <==> (base + bytes@.len() <= u64::MAX && forall|i: int|
                    0 <= i < rs.len() ==> apart(#[trigger] rs[i], new))
                &&& r is Ok <==> (base + bytes@.len() <= u64::MAX && regions_wf(
                    rs.insert(at, new),
                ))
                &&& r is Ok ==> final(self).spec_region_list() == rs.insert(at, new)
                    && final(self).spec_bytes() == old(self).spec_bytes().insert(at, bytes@)
                &&& r is Err ==> final(self).spec_region_list() == rs && final(self).spec_bytes()
                    == old(self).spec_bytes() && r == Err::<(), Overlap>(
                    Overlap { base, size: bytes@.len() as u64 },
                )
                &&& image_shape(final(self).spec_region_list(), final(self).spec_bytes())
            }),
    {
        proof {
            use_type_invariant(&*self);
        }
        let ghost rs = self.regions@;
        let size = bytes.len() as u64;
        let refused = Overlap { base, size };
        let new = Region { base, size, kind, writable };
        if base > u64::MAX - size {
            return Err(refused);
        }
        let n = self.regions.len();
        let mut at: usize = 0;
        assert(rs.subrange(0, n as int) =~= rs);
        while at < n && (self.regions[at].base < base || (self.regions[at].base == base
            && self.regions[at].size == 0))
            invariant
                n == rs.len(),
                rs == self.regions@,
                at <= n,
                insertion_point(rs, base) == at + insertion_point(rs.subrange(at as int, n as int), base),
            decreases n - at,
        {
            assert(rs.subrange(at as int, n as int).drop_first() =~= rs.subrange(at + 1, n as int));
            at += 1;
        }
        proof {
            lemma_insertion_point(rs, base);
            if at < n {
                assert(rs.subrange(at as int, n as int)[0] == rs[at as int]);
            }
        }
        assert(at == insertion_point(rs, base));
        let ghost ins = rs.insert(at as int, new);
        if at > 0 && self.regions[at - 1].base + self.regions[at - 1].size > base {
            assert(ins[at - 1] == rs[at - 1]);
            assert(ins[at as int] == new);
            assert(!(ins[at - 1].base + ins[at - 1].size <= ins[at as int].base));
            assert(!regions_wf(ins));
            assert(goes_before(rs[at - 1], base));
            assert(!apart(rs[at - 1], new));
            assert(!(forall|i: int| 0 <= i < rs.len() ==> apart(#[trigger] rs[i], new)));
            return Err(refused);
        }
        if at < n && base + size > self.regions[at].base {
            assert(ins[at + 1] == rs[at as int]);
            assert(ins[at as int] == new);
            assert(!(ins[at as int].base + ins[at as int].size <= ins[at + 1].base));
            assert(!regions_wf(ins));
            assert(!goes_before(rs[at as int], base));
            assert(!apart(rs[at as int], new));
            assert(!(forall|i: int| 0 <= i < rs.len() ==> apart(#[trigger] rs[i], new)));
            return Err(refused);
        }
        proof {
            lemma_insert_wf(rs, new, at as int);
            assert forall|i: int| 0 <= i < rs.len() implies apart(#[trigger] rs[i], new) by {
                if i < at {
                    assert(ins[i] == rs[i]);
                } else {
                    assert(ins[i + 1] == rs[i]);
                }
            }
        }
        let mut taken = Image::new();
        std::mem::swap(self, &mut taken);
        proof {
            use_type_invariant(&taken);
        }
        let Image { mut regions, bytes: mut all } = taken;
        let ghost old_all = all@;
        regions.insert(at, new);
        all.insert(at, bytes);
        assert(all@.map_values(|b: Vec<u8>| b@) =~= old_all.map_values(|b: Vec<u8>| b@).insert(
            at as int,
            all@[at as int]@,
        ));
        assert forall|i: int| 0 <= i < regions@.len() implies #[trigger] regions@[i].size
            == all@[i]@.len() by {
            if i < at {
                assert(regions@[i] == rs[i] && all@[i] == old_all[i]);
            } else if i > at {
                assert(regions@[i] == rs[i - 1] && all@[i] == old_all[i - 1]);
            }
        }
        *self = Image { regions, bytes: all };
        Ok(())
    }
}

impl Memory for Image {
    open spec fn spec_regions(&self) -> Seq<Region> {
        self.spec_region_list()
    }

    open spec fn spec_read(&self, address: u64, len: nat) -> Option<Seq<u8>> {
        image_read(self.spec_region_list(), self.spec_bytes(), address, len)
    }

    fn regions(&self) -> (r: &[Region]) {
        proof {
            use_type_invariant(self);
        }
        self.regions.as_slice()
    }

    fn read_into(&self, address: u64, buf: &mut Vec<u8>) -> (r: Result<(), Unreadable>) {
        proof {
            use_type_invariant(self);
        }
        let len = buf.len();
        let unreadable = Unreadable { address, len };
        let n = self.regions.len();
        let mut i: usize = 0;
        while i < n && !self.regions[i].contains(address)
            invariant
                n == self.regions@.len(),
                i <= n,
                forall|j: int| 0 <= j < i ==> !(#[trigger] self.regions@[j]).spec_contains(address),
            decreases n - i,
        {
            i += 1;
        }
        let ghost rs = self.regions@;
        if i == n {
            assert(!exists|j: int| 0 <= j < rs.len() && #[trigger] rs[j].spec_contains(address));
            return Err(unreadable);
        }
        proof {
            let k = choose|j: int| 0 <= j < rs.len() && #[trigger] rs[j].spec_contains(address);
            lemma_one_region_holds(rs, address, i as int, k);
        }
        let region = self.regions[i];
        let start = address - region.base;
        let src = &self.bytes[i];
        assert(src@ == self.spec_bytes()[i as int]);
        if start > src.len() as u64 || src.len() - (start as usize) < len {
            return Err(unreadable);
        }
        let start = start as usize;
        let slen = src.len();
        let ghost want = src@.subrange(start as int, start + len);
        let mut k: usize = 0;
        while k < len
            invariant
                len == buf@.len(),
                slen == src@.len(),
                start + len <= src@.len(),
                k <= len,
                want == src@.subrange(start as int, start + len),
                forall|j: int| 0 <= j < k ==> buf@[j] == want[j],
            decreases len - k,
        {
            buf[k] = src[start + k];
            k += 1;
        }
        assert(buf@ =~= want);
        Ok(())
    }
}

} // verus!

verus! {

/// The block a [`Cached`] memory copies at once.
pub const BLOCK: u64 = 0x1_0000;

/// Blocks a [`Cached`] memory keeps before it starts over: 64 MiB.
pub const CACHED_BLOCKS: usize = 1024;

/// The region holding `a`, if one does.
pub open spec fn holding(rs: Seq<Region>, a: u64) -> Option<int> {
    if exists|i: int| 0 <= i < rs.len() && #[trigger] rs[i].spec_contains(a) {
        Some(choose|i: int| 0 <= i < rs.len() && #[trigger] rs[i].spec_contains(a))
    } else {
        None
    }
}

/// The block holding `a`: its start and length. Blocks are counted from the start of the
/// region that holds the address, never across a region's edge.
pub open spec fn spec_block_of(rs: Seq<Region>, a: u64) -> Option<(u64, u64)> {
    match holding(rs, a) {
        Some(i) => {
            let r = rs[i];
            let start = (r.base + (a - r.base) / (BLOCK as int) * (BLOCK as int)) as u64;
            let left = r.spec_end() - start;
            Some((start, if BLOCK <= left { BLOCK } else { left as u64 }))
        },
        None => None,
    }
}

/// What a cached read gives from the `done`-th of `len` bytes at `address` on: the bytes of
/// the blocks it runs through, each read whole from the inner memory.
pub open spec fn cached_from<M: Memory + ?Sized>(m: &M, address: u64, done: nat, len: nat) -> Option<
    Seq<u8>,
>
    decreases len - done,
{
    if done >= len {
        Some(Seq::empty())
    } else if address + done > u64::MAX {
        None
    } else {
        let a = (address + done) as u64;
        match spec_block_of(m.spec_regions(), a) {
            None => None,
            Some((start, blen)) => match m.spec_read(start, blen as nat) {
                None => None,
                Some(block) => if a < start || a - start >= block.len() {
                    None
                } else {
                    let off = a - start;
                    let n: nat = if block.len() - off < len - done {
                        (block.len() - off) as nat
                    } else {
                        (len - done) as nat
                    };
                    match cached_from(m, address, done + n, len) {
                        Some(rest) => Some(block.subrange(off, off + n) + rest),
                        None => None,
                    }
                },
            },
        }
    }
}

/// A block as the cache holds it, as a mathematical value.
pub open spec fn block_view(b: Option<Vec<u8>>) -> Option<Seq<u8>> {
    match b {
        Some(v) => Some(v@),
        None => None,
    }
}

/// Every cached block is the block at its start, as the inner memory reads it whole.
pub open spec fn blocks_hold<M: Memory>(m: M, blocks: Map<u64, Option<Vec<u8>>>) -> bool {
    forall|s: u64| #[trigger]
        blocks.contains_key(s) ==> (spec_block_of(m.spec_regions(), s) matches Some((t, l)) && t
            == s && block_view(blocks[s]) == m.spec_read(s, l as nat))
}

/// What the cache of a memory may hold.
pub open spec fn cache_rule<M: Memory>(m: M) -> spec_fn(HashMap<u64, Option<Vec<u8>>>) -> bool {
    |blocks: HashMap<u64, Option<Vec<u8>>>| blocks_hold(m, blocks@)
}

proof fn lemma_ends_sorted(rs: Seq<Region>, i: int, j: int)
    requires
        regions_wf(rs),
        0 <= i < j < rs.len(),
    ensures
        rs[i].spec_end() <= rs[j].base,
        rs[j].base <= rs[j].spec_end(),
{
    assert(rs[i].base + rs[i].size <= rs[j].base);
    assert(rs[j].base + rs[j].size <= u64::MAX);
    assert(rs[i].base + rs[i].size <= u64::MAX);
}

/// A block's start is in the block it starts, which is the same block.
proof fn lemma_block_start(rs: Seq<Region>, a: u64)
    requires
        regions_wf(rs),
        spec_block_of(rs, a) is Some,
    ensures
        ({
            let (start, len) = spec_block_of(rs, a)->0;
            &&& start <= a
            &&& a - start < len
            &&& start + len <= u64::MAX
            &&& spec_block_of(rs, start) == Some((start, len))
        }),
{
    let i = holding(rs, a)->0;
    let r = rs[i];
    let b = BLOCK as int;
    let q = (a - r.base) / b;
    assert(r.base + r.size <= u64::MAX);
    assert(0 <= q * b <= a - r.base < q * b + b) by (nonlinear_arith)
        requires
            q == (a - r.base) / b,
            b > 0,
            a - r.base >= 0,
    ;
    let start = (r.base + q * b) as u64;
    assert(r.spec_contains(start));
    assert(holding(rs, start) == Some(i)) by {
        let k = choose|k: int| 0 <= k < rs.len() && #[trigger] rs[k].spec_contains(start);
        lemma_one_region_holds(rs, start, i, k);
    }
    assert((q * b) / b == q) by (nonlinear_arith)
        requires
            b > 0,
            q >= 0,
    ;
}

/// The block holding `address` among regions in address order: the first region ending past
/// it, if that region holds it.
fn block_in(regions: &[Region], address: u64) -> (r: Option<(u64, u64)>)
    requires
        regions_wf(regions@),
    ensures
        r == spec_block_of(regions@, address),
{
    let ghost rs = regions@;
    let n = regions.len();
    let mut lo: usize = 0;
    let mut hi: usize = n;
    while lo < hi
        invariant
            rs == regions@,
            regions_wf(rs),
            n == rs.len(),
            lo <= hi <= n,
            forall|j: int| 0 <= j < lo ==> #[trigger] rs[j].spec_end() <= address,
            forall|j: int| hi <= j < n ==> #[trigger] rs[j].spec_end() > address,
        decreases hi - lo,
    {
        let mid = lo + (hi - lo) / 2;
        if regions[mid].end() <= address {
            assert forall|j: int| 0 <= j < mid + 1 implies #[trigger] rs[j].spec_end() <= address by {
                if j < mid {
                    lemma_ends_sorted(rs, j, mid as int);
                }
            }
            lo = mid + 1;
        } else {
            assert forall|j: int| mid <= j < n implies #[trigger] rs[j].spec_end() > address by {
                if j > mid {
                    lemma_ends_sorted(rs, mid as int, j);
                }
            }
            hi = mid;
        }
    }
    if lo < n && regions[lo].contains(address) {
        assert(holding(rs, address) == Some(lo as int)) by {
            let k = choose|k: int| 0 <= k < rs.len() && #[trigger] rs[k].spec_contains(address);
            lemma_one_region_holds(rs, address, lo as int, k);
        }
        let r = regions[lo];
        let start = r.base + (address - r.base) / BLOCK * BLOCK;
        let left = r.end() - start;
        Some((start, if BLOCK <= left { BLOCK } else { left }))
    } else {
        assert forall|j: int| 0 <= j < n implies !(#[trigger] rs[j]).spec_contains(address) by {
            if j > lo {
                lemma_ends_sorted(rs, lo as int, j);
            }
        }
        None
    }
}

} // verus!

verus! {

/// A memory whose reads go through a cache of whole blocks, so the many small reads a parser
/// makes near one another cost one copy from the other process. A read gives the bytes of the
/// blocks it runs through, each as the inner memory reads it whole: [`cached_from`].
pub struct Cached<M: Memory> {
    inner: M,
    blocks: InvCell<HashMap<u64, Option<Vec<u8>>>, spec_fn(HashMap<u64, Option<Vec<u8>>>) -> bool>,
}

impl<M: Memory> Cached<M> {
    #[verifier::type_invariant]
    closed spec fn wf(&self) -> bool {
        self.blocks.predicate() == cache_rule(self.inner)
    }

    /// The memory cached.
    pub closed spec fn spec_inner(&self) -> M {
        self.inner
    }

    /// A cache of `inner`, empty.
    pub fn new(inner: M) -> (c: Cached<M>)
        ensures
            c.spec_inner() == inner,
    {
        let empty: HashMap<u64, Option<Vec<u8>>> = HashMap::new();
        assert(blocks_hold(inner, empty@));
        let blocks = InvCell::new(empty, Ghost(cache_rule(inner)));
        Cached { inner, blocks }
    }

    /// The memory cached.
    pub fn inner(&self) -> (r: &M)
        ensures
            *r == self.spec_inner(),
    {
        &self.inner
    }

    /// The start of the block holding `address`, and the block's length. Blocks are counted
    /// from the start of the region that holds the address, never across a region's edge: a
    /// region is only page-aligned, so a block aligned to anything larger could begin in the
    /// region before it.
    fn block_of(&self, address: u64) -> (r: Option<(u64, u64)>)
        ensures
            r == spec_block_of(self.inner.spec_regions(), address),
    {
        block_in(self.inner.regions(), address)
    }

    /// Copy into `buf`, from its `done`-th byte on, what the block at `start` holds from `at`
    /// on, as much as fits: the block comes from the cache, or whole from the inner memory on a
    /// miss. `None` if the block cannot be read or holds nothing from `at` on.
    fn copy_block(&self, at: u64, start: u64, blen: u64, buf: &mut Vec<u8>, done: usize) -> (r:
        Option<usize>)
        requires
            spec_block_of(self.inner.spec_regions(), at) == Some((start, blen)),
            regions_wf(self.inner.spec_regions()),
            done < old(buf)@.len(),
        ensures
            final(buf)@.len() == old(buf)@.len(),
            match self.inner.spec_read(start, blen as nat) {
                Some(block) => if at - start >= block.len() {
                    r is None
                } else {
                    let off = at - start;
                    let n = if block.len() - off < old(buf)@.len() - done {
                        block.len() - off
                    } else {
                        old(buf)@.len() - done
                    };
                    &&& r == Some(n as usize)
                    &&& final(buf)@.subrange(0, done + n) == old(buf)@.subrange(0, done as int)
                        + block.subrange(off, off + n)
                },
                None => r is None,
            },
    {
        proof {
            use_type_invariant(self);
            lemma_block_start(self.inner.spec_regions(), at);
        }
        let ghost m = self.inner;
        let len = buf.len();
            let mut blocks = self.blocks.replace(HashMap::new());
        if blocks.len() >= CACHED_BLOCKS && !blocks.contains_key(&start) {
            blocks.clear();
        }
        if !blocks.contains_key(&start) {
            let b = self.block(start, blen);
            blocks.insert(start, b);
        }
        assert(blocks@.contains_key(start));
        let ghost got = block_view(blocks@[start]);
        assert(got == m.spec_read(start, blen as nat));
        let ghost before = buf@;
        let step: Option<usize> = match blocks.get(&start) {
            Some(Some(block)) => {
                let offset = (at - start) as usize;
                if offset >= block.len() {
                    None
                } else {
                    let available = block.len() - offset;
                    let n = if available < len - done {
                        available
                    } else {
                        len - done
                    };
                    let mut k: usize = 0;
                    while k < n
                        invariant
                            k <= n,
                            done + n <= len,
                            offset + n <= block@.len(),
                            block@.len() <= usize::MAX,
                            len == buf@.len(),
                            forall|j: int| 0 <= j < done ==> buf@[j] == before[j],
                            forall|j: int|
                                done <= j < done + k ==> #[trigger] buf@[j] == block@[offset + j
                                    - done],
                        decreases n - k,
                    {
                        buf.set(done + k, block[offset + k]);
                        k += 1;
                    }
                    assert(buf@.subrange(0, (done + n) as int) =~= before.subrange(
                        0,
                        done as int,
                    ) + block@.subrange(offset as int, (offset + n) as int));
                    Some(n)
                }
            },
            _ => None,
        };
        self.blocks.replace(blocks);
        step
    }

    /// The block at `start`, or `None` if it cannot be read whole.
    fn block(&self, start: u64, len: u64) -> (r: Option<Vec<u8>>)
        requires
            len <= BLOCK,
        ensures
            block_view(r) == self.inner.spec_read(start, len as nat),
    {
        let mut buf: Vec<u8> = vec![0u8; len as usize];
        match self.inner.read_into(start, &mut buf) {
            Ok(()) => Some(buf),
            Err(_) => None,
        }
    }
}

impl<M: Memory> Memory for Cached<M> {
    open spec fn spec_regions(&self) -> Seq<Region> {
        self.spec_inner().spec_regions()
    }

    open spec fn spec_read(&self, address: u64, len: nat) -> Option<Seq<u8>> {
        cached_from(&self.spec_inner(), address, 0, len)
    }

    fn regions(&self) -> (r: &[Region]) {
        self.inner.regions()
    }

    fn read_into(&self, address: u64, buf: &mut Vec<u8>) -> (r: Result<(), Unreadable>) {
        let len = buf.len();
        let mut copy: Vec<u8> = Vec::new();
        let mut i: usize = 0;
        while i < len
            invariant
                i <= len,
                copy@.len() == i,
            decreases len - i,
        {
            copy.push(0);
            i += 1;
        }
        match self.fill(address, &mut copy) {
            Ok(()) => {
                *buf = copy;
                Ok(())
            },
            Err(e) => Err(e),
        }
    }
}

impl<M: Memory> Cached<M> {
    /// Fill `buf` from `address` through the cache; on a failure part of it may be filled.
    fn fill(&self, address: u64, buf: &mut Vec<u8>) -> (r: Result<(), Unreadable>)
        ensures
            final(buf)@.len() == old(buf)@.len(),
            match cached_from(&self.spec_inner(), address, 0, old(buf)@.len()) {
                Some(b) => r is Ok && final(buf)@ == b,
                None => r == Err::<(), Unreadable>(
                    Unreadable { address, len: old(buf)@.len() as usize },
                ),
            },
    {
        proof {
            use_type_invariant(self);
        }
        let ghost m = self.inner;
        let len = buf.len();
        let unreadable = Unreadable { address, len };
        let mut done: usize = 0;
        let ghost regions = m.spec_regions();
        let _ = self.inner.regions();
        while done < len
            invariant
                m == self.inner,
                self.blocks.predicate() == cache_rule(self.inner),
                regions == m.spec_regions(),
                regions_wf(regions),
                len == buf@.len(),
                len == old(buf)@.len(),
                unreadable == (Unreadable { address, len }),
                done <= len,
                cached_from(&m, address, 0, len as nat) == match cached_from(
                    &m,
                    address,
                    done as nat,
                    len as nat,
                ) {
                    Some(rest) => Some(buf@.subrange(0, done as int) + rest),
                    None => None,
                },
            decreases len - done,
        {
            let at = match address.checked_add(done as u64) {
                Some(a) => a,
                None => {
                    assert(cached_from(&m, address, done as nat, len as nat) is None);
                    return Err(unreadable);
                },
            };
            let (start, blen) = match self.block_of(at) {
                Some(b) => b,
                None => {
                    assert(cached_from(&m, address, done as nat, len as nat) is None);
                    return Err(unreadable);
                },
            };
            proof {
                lemma_block_start(regions, at);
            }
            let ghost before = buf@;
            let ghost got = m.spec_read(start, blen as nat);
            let step = self.copy_block(at, start, blen, buf, done);
            match step {
                Some(n) => {
                    proof {
                        let rest = cached_from(&m, address, (done + n) as nat, len as nat);
                        match rest {
                            Some(t) => {
                                assert(before.subrange(0, done as int) + (got->0.subrange(
                                    (at - start) as int,
                                    (at - start) + n,
                                ) + t) =~= buf@.subrange(0, (done + n) as int) + t);
                            },
                            None => {},
                        }
                    }
                    done = done + n;
                },
                None => {
                    assert(cached_from(&m, address, done as nat, len as nat) is None);
                    return Err(unreadable);
                },
            }
        }
        assert(buf@.subrange(0, len as int) =~= buf@);
        Ok(())
    }
}

} // verus!

verus! {

/// Regions in address order with a gap after each: no region ends where the next begins.
pub open spec fn spaced(rs: Seq<Region>) -> bool {
    forall|i: int| 0 <= i < rs.len() - 1 ==> #[trigger] rs[i].spec_end() < rs[i + 1].base
}

/// Regions and the bytes they hold, one run of bytes per region, as long as the region.
pub open spec fn image_shape(rs: Seq<Region>, bs: Seq<Seq<u8>>) -> bool {
    &&& regions_wf(rs)
    &&& rs.len() == bs.len()
    &&& forall|i: int| 0 <= i < rs.len() ==> #[trigger] rs[i].size == bs[i].len()
}

/// A memory that reads as the image of regions `rs` holding `bs`.
pub open spec fn reads_as_image<M: Memory + ?Sized>(m: &M, rs: Seq<Region>, bs: Seq<Seq<u8>>) -> bool {
    &&& m.spec_regions() == rs
    &&& image_shape(rs, bs)
    &&& forall|a: u64, len: nat| #[trigger] m.spec_read(a, len) == image_read(rs, bs, a, len)
}

proof fn lemma_holding_is(rs: Seq<Region>, a: u64, i: int)
    requires
        regions_wf(rs),
        0 <= i < rs.len(),
        rs[i].spec_contains(a),
    ensures
        holding(rs, a) == Some(i),
{
    let k = choose|k: int| 0 <= k < rs.len() && #[trigger] rs[k].spec_contains(a);
    lemma_one_region_holds(rs, a, i, k);
}

/// Past the end of a region with a gap after it, no region holds the address.
proof fn lemma_gap_after(rs: Seq<Region>, i: int)
    requires
        regions_wf(rs),
        spaced(rs),
        0 <= i < rs.len(),
    ensures
        holding(rs, rs[i].spec_end()) is None,
{
    let e = rs[i].spec_end();
    assert forall|j: int| 0 <= j < rs.len() implies !(#[trigger] rs[j]).spec_contains(e) by {
        if j < i {
            lemma_ends_sorted(rs, j, i);
        } else if j > i {
            if j > i + 1 {
                lemma_ends_sorted(rs, i + 1, j);
            }
            assert(rs[i].spec_end() < rs[i + 1].base);
        }
    }
}

/// A cached read from inside a region of an image, with gaps between its regions: the bytes
/// of the region if the read ends in it, nothing if it runs past its end.
proof fn lemma_cached_in_region<M: Memory + ?Sized>(
    m: &M,
    rs: Seq<Region>,
    bs: Seq<Seq<u8>>,
    address: u64,
    done: nat,
    len: nat,
    i: int,
)
    requires
        reads_as_image(m, rs, bs),
        0 <= i < rs.len(),
        done < len,
        address + done <= u64::MAX,
        rs[i].spec_contains((address + done) as u64),
    ensures
        address + len <= rs[i].spec_end() ==> cached_from(m, address, done, len) == Some(
            bs[i].subrange(address + done - rs[i].base, address + len - rs[i].base),
        ),
        spaced(rs) && address + len > rs[i].spec_end() ==> cached_from(m, address, done, len)
            is None,
    decreases len - done,
{
    let a = (address + done) as u64;
    let r = rs[i];
    assert(r.base + r.size <= u64::MAX);
    assert(r.size == bs[i].len());
    lemma_holding_is(rs, a, i);
    lemma_block_start(rs, a);
    let (start, blen) = spec_block_of(rs, a)->0;
    assert(r.spec_contains(start));
    lemma_holding_is(rs, start, i);
    assert(start + blen <= r.spec_end());
    let block = bs[i].subrange(start - r.base, start - r.base + blen);
    assert(m.spec_read(start, blen as nat) == image_read(rs, bs, start, blen as nat));
    assert(image_read(rs, bs, start, blen as nat) == Some(block));
    let off = a - start;
    let n: nat = if block.len() - off < len - done {
        (block.len() - off) as nat
    } else {
        (len - done) as nat
    };
    if n == len - done {
        assert(cached_from(m, address, done + n, len) == Some(Seq::<u8>::empty()));
        assert(block.subrange(off, off + n) + Seq::<u8>::empty() =~= bs[i].subrange(
            address + done - r.base,
            address + len - r.base,
        ));
    } else {
        let next = start + blen;
        assert(address + done + n == next);
        if next < r.spec_end() {
            assert(r.spec_contains(next as u64));
            lemma_cached_in_region(m, rs, bs, address, done + n, len, i);
            if address + len <= r.spec_end() {
                let rest = bs[i].subrange(next - r.base, address + len - r.base);
                assert(block.subrange(off, off + n) + rest =~= bs[i].subrange(
                    address + done - r.base,
                    address + len - r.base,
                ));
            }
        } else if spaced(rs) {
            lemma_gap_after(rs, i);
            assert(spec_block_of(rs, next as u64) is None);
            assert(cached_from(m, address, done + n, len) is None);
        }
    }
}

/// A cached read of an image gives what the image gives wherever the image gives bytes, and
/// fails where no region holds the address; only a read that the image refuses because it
/// runs past its region's end can differ, by running on into a region that touches it.
pub proof fn lemma_cached_agrees<M: Memory + ?Sized>(
    m: &M,
    rs: Seq<Region>,
    bs: Seq<Seq<u8>>,
    address: u64,
    len: nat,
)
    requires
        reads_as_image(m, rs, bs),
        len > 0,
    ensures
        m.spec_read(address, len) is Some ==> cached_from(m, address, 0, len) == m.spec_read(
            address,
            len,
        ),
        holding(rs, address) is None ==> cached_from(m, address, 0, len) is None,
{
    assert(m.spec_read(address, len) == image_read(rs, bs, address, len));
    if exists|i: int| 0 <= i < rs.len() && #[trigger] rs[i].spec_contains(address) {
        let i = choose|i: int| 0 <= i < rs.len() && #[trigger] rs[i].spec_contains(address);
        lemma_holding_is(rs, address, i);
        assert(rs[i].base + rs[i].size <= u64::MAX);
        assert(rs[i].size == bs[i].len());
        lemma_cached_in_region(m, rs, bs, address, 0, len, i);
    } else {
        assert(holding(rs, address) is None);
    }
}

/// An image reads as its regions hold: from inside a region, the bytes the region holds there.
pub proof fn lemma_image_reads(m: &Image, i: int, off: nat, len: nat)
    requires
        image_shape(m.spec_region_list(), m.spec_bytes()),
        0 <= i < m.spec_region_list().len(),
        off < m.spec_region_list()[i].size,
        off + len <= m.spec_region_list()[i].size,
    ensures
        reads_as_image(m, m.spec_region_list(), m.spec_bytes()),
        m.spec_read((m.spec_region_list()[i].base + off) as u64, len) == Some(
            m.spec_bytes()[i].subrange(off as int, (off + len) as int),
        ),
{
    let rs = m.spec_region_list();
    let a = (rs[i].base + off) as u64;
    assert(rs[i].base + rs[i].size <= u64::MAX);
    assert(rs[i].spec_contains(a));
    lemma_holding_is(rs, a, i);
}

/// A cached read of an image gives what the image gives, where its regions have gaps between
/// them: where two regions touch, a cached read can run on from one into the next.
pub proof fn lemma_cached_image_read<M: Memory + ?Sized>(
    m: &M,
    rs: Seq<Region>,
    bs: Seq<Seq<u8>>,
    address: u64,
    len: nat,
)
    requires
        reads_as_image(m, rs, bs),
        spaced(rs),
        len > 0,
    ensures
        cached_from(m, address, 0, len) == m.spec_read(address, len),
{
    assert(m.spec_read(address, len) == image_read(rs, bs, address, len));
    if exists|i: int| 0 <= i < rs.len() && #[trigger] rs[i].spec_contains(address) {
        let i = choose|i: int| 0 <= i < rs.len() && #[trigger] rs[i].spec_contains(address);
        lemma_holding_is(rs, address, i);
        assert(rs[i].base + rs[i].size <= u64::MAX);
        assert(rs[i].size == bs[i].len());
        lemma_cached_in_region(m, rs, bs, address, 0, len, i);
    } else {
        assert(holding(rs, address) is None);
    }
}

} // verus!
