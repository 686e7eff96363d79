//! What the reader learns from the operating system about processes, as values. The calls
//! themselves are the program's; the rules that turn their answers into values are here.

use vstd::prelude::*;

use crate::layout::memory::{Region, RegionKind};

verus! {

/// Query with limited rights: what learning facts about a process needs.
pub const PROCESS_QUERY_LIMITED_INFORMATION: u32 = 0x1000;

/// Read a process's memory.
pub const PROCESS_VM_READ: u32 = 0x0010;

/// The only access the reader asks of the game: query with limited rights, and read memory.
pub const READ_ACCESS: u32 = PROCESS_QUERY_LIMITED_INFORMATION | PROCESS_VM_READ;

/// One entry of the process list.
#[derive(Debug, Clone, PartialEq, Eq)]
pub struct ProcessEntry {
    pub pid: u32,
    pub parent_pid: u32,
    pub image_name: String,
}

/// The pointer width a process runs with.
#[derive(Debug, Clone, Copy, PartialEq, Eq, Structural)]
pub enum Bitness {
    Bits32,
    Bits64,
}

/// What can be learnt about a process with limited query rights alone.
#[derive(Debug, Clone, Copy, PartialEq, Eq, Structural)]
pub struct ProcessFacts {
    pub bitness: Option<Bitness>,
    pub created_unix_ms: Option<u64>,
    pub session_id: Option<u32>,
}

impl ProcessFacts {
    /// Nothing learnt.
    pub open spec fn spec_none() -> ProcessFacts {
        ProcessFacts { bitness: None, created_unix_ms: None, session_id: None }
    }

    /// Nothing learnt.
    pub fn none() -> (r: ProcessFacts)
        ensures
            r == ProcessFacts::spec_none(),
    {
        ProcessFacts { bitness: None, created_unix_ms: None, session_id: None }
    }
}

/// `IMAGE_FILE_MACHINE_UNKNOWN`: the machine a process not run under WOW64 reports.
pub const MACHINE_UNKNOWN: u16 = 0;

/// A process's width from the machine `IsWow64Process2` reports for it: one not under WOW64
/// has the host's width, and this reader is built for 64-bit hosts.
pub fn bitness_of(process_machine: u16) -> (r: Bitness)
    ensures
        r == if process_machine == MACHINE_UNKNOWN {
            Bitness::Bits64
        } else {
            Bitness::Bits32
        },
{
    if process_machine == MACHINE_UNKNOWN {
        Bitness::Bits64
    } else {
        Bitness::Bits32
    }
}

/// 100-nanosecond intervals from 1601-01-01 to 1970-01-01.
pub const FILETIME_UNIX_EPOCH: u64 = 116_444_736_000_000_000;

/// Milliseconds since the Unix epoch of a `FILETIME`, or `None` before the epoch.
pub fn unix_ms(high: u32, low: u32) -> (r: Option<u64>)
    ensures
        ({
            let ticks = high * 0x1_0000_0000 + low;
            &&& ticks < FILETIME_UNIX_EPOCH ==> r is None
            &&& ticks >= FILETIME_UNIX_EPOCH ==> r == Some(
                ((ticks - FILETIME_UNIX_EPOCH) / 10_000) as u64,
            )
        }),
{
    let ticks: u64 = (high as u64) * 0x1_0000_0000 + (low as u64);
    if ticks < FILETIME_UNIX_EPOCH {
        None
    } else {
        Some((ticks - FILETIME_UNIX_EPOCH) / 10_000)
    }
}

/// `MEM_COMMIT`, `MEM_IMAGE`, `MEM_MAPPED` and `PAGE_GUARD`.
pub const MEM_COMMIT: u32 = 0x1000;

pub const MEM_IMAGE: u32 = 0x100_0000;

pub const MEM_MAPPED: u32 = 0x4_0000;

pub const PAGE_GUARD: u32 = 0x100;

/// `PAGE_READONLY`, `PAGE_READWRITE`, `PAGE_WRITECOPY`, and their executable forms.
pub const READABLE: u32 = 0x02 | 0x04 | 0x08 | 0x20 | 0x40 | 0x80;

/// The protections among those that allow writing.
pub const WRITABLE: u32 = 0x04 | 0x08 | 0x40 | 0x80;

/// The region `VirtualQueryEx` describes, if it is one the reader reads: committed, readable
/// and not a guard page.
pub fn region_of(base: u64, size: u64, state: u32, protect: u32, kind: u32) -> (r: Option<Region>)
    ensures
        r is Some <==> (state == MEM_COMMIT && protect & READABLE != 0 && protect & PAGE_GUARD
            == 0),
        r matches Some(g) ==> g == (Region {
            base,
            size,
            kind: if kind == MEM_IMAGE {
                RegionKind::Image
            } else if kind == MEM_MAPPED {
                RegionKind::Mapped
            } else {
                RegionKind::Private
            },
            writable: protect & WRITABLE != 0,
        }),
{
    if state == MEM_COMMIT && protect & READABLE != 0 && protect & PAGE_GUARD == 0 {
        Some(
            Region {
                base,
                size,
                kind: if kind == MEM_IMAGE {
                    RegionKind::Image
                } else if kind == MEM_MAPPED {
                    RegionKind::Mapped
                } else {
                    RegionKind::Private
                },
                writable: protect & WRITABLE != 0,
            },
        )
    } else {
        None
    }
}

} // verus!
