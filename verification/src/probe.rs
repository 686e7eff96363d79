//! The messages the reader hands to the daemon, as this library models them: raw values read
//! from the game, readings, the processes it reports, and why a session or a request failed.

use vstd::prelude::*;

verus! {

/// Why a value was not read.
#[derive(Debug, Clone, Copy, PartialEq, Eq, Structural)]
pub enum UnreadReason {
    Unreadable,
    Malformed,
    OutOfRange,
    UnknownKind,
    DepthLimit,
}

/// The two kinds of sequence.
#[derive(Debug, Clone, Copy, PartialEq, Eq, Structural)]
pub enum SequenceKind {
    List,
    Tuple,
}

/// One value read from the game, as it is, or why it could not be read.
#[derive(Debug, PartialEq)]
pub enum RawValue {
    Null,
    Boolean(bool),
    Integer(i64),
    /// A float, as the bits of its IEEE 754 double.
    Float(u64),
    Text(String),
    /// A list or a tuple: the items decoded, and the true length where more were left out.
    Sequence { kind: SequenceKind, items: Vec<RawValue>, full_length: Option<u64> },
    /// A dict: the entries decoded, and the true length where more were left out.
    Mapping { entries: Vec<RawEntry>, full_length: Option<u64> },
    /// A value that was not read: its type's name, when known, and why.
    Unread { type_label: Option<String>, reason: UnreadReason },
}

/// One entry of a mapping.
#[derive(Debug, PartialEq)]
pub struct RawEntry {
    pub key: RawValue,
    pub value: RawValue,
}

/// A raw value as a mathematical value.
pub enum RawView {
    Null,
    Boolean(bool),
    Integer(i64),
    Float(u64),
    Text(Seq<char>),
    Sequence { kind: SequenceKind, items: Seq<RawView>, full_length: Option<u64> },
    Mapping { entries: Seq<(RawView, RawView)>, full_length: Option<u64> },
    Unread { type_label: Option<Seq<char>>, reason: UnreadReason },
}

pub open spec fn opt_text(s: Option<String>) -> Option<Seq<char>> {
    match s {
        Some(t) => Some(t@),
        None => None,
    }
}

impl RawValue {
    pub open spec fn view(&self) -> RawView
        decreases self,
    {
        match self {
            RawValue::Null => RawView::Null,
            RawValue::Boolean(b) => RawView::Boolean(*b),
            RawValue::Integer(n) => RawView::Integer(*n),
            RawValue::Float(x) => RawView::Float(*x),
            RawValue::Text(s) => RawView::Text(s@),
            RawValue::Sequence { kind, items, full_length } => RawView::Sequence {
                kind: *kind,
                items: Seq::new(
                    items@.len(),
                    |i: int|
                        if 0 <= i < items@.len() {
                            items@[i].view()
                        } else {
                            RawView::Null
                        },
                ),
                full_length: *full_length,
            },
            RawValue::Mapping { entries, full_length } => RawView::Mapping {
                entries: Seq::new(
                    entries@.len(),
                    |i: int|
                        if 0 <= i < entries@.len() {
                            (entries@[i].key.view(), entries@[i].value.view())
                        } else {
                            (RawView::Null, RawView::Null)
                        },
                ),
                full_length: *full_length,
            },
            RawValue::Unread { type_label, reason } => RawView::Unread {
                type_label: opt_text(*type_label),
                reason: *reason,
            },
        }
    }
}

/// How much of the scope a reading holds.
#[derive(Debug, Clone, Copy, PartialEq, Eq, Structural)]
pub enum Coverage {
    /// Some of it, or all of it without the reader being able to tell.
    Partial,
    /// All of it.
    Complete,
}

/// What a reading copied and left out.
#[derive(Debug, Clone, Copy, PartialEq, Eq, Structural)]
pub struct ReadStats {
    pub regions_scanned: u64,
    pub regions_unreadable: u64,
    pub bytes_scanned: u64,
    pub candidates_rejected: u64,
}

/// Where a mapping or a rule comes from.
#[derive(Debug, Clone, Copy, PartialEq, Eq, Structural)]
pub enum Evidence {
    /// Taken over from an earlier tool, not re-established by this project's recordings.
    Inherited,
}

/// One object as it was found: its type's name, the key it is held under in its container,
/// and its entries verbatim.
#[derive(Debug, PartialEq)]
pub struct ObservedRecord {
    pub type_label: String,
    pub container_key: Option<RawValue>,
    pub entries: Vec<RawEntry>,
}

/// One soul. Its typed fields are set only once a mapping from an entry to the field is
/// established; until then each record carries what was observed.
#[derive(Debug, PartialEq)]
pub struct SoulRecord {
    pub soul_id: Option<String>,
    pub suit_code: Option<u64>,
    pub star: Option<u64>,
    pub slot: Option<u64>,
    pub level: Option<u64>,
    pub main: Option<u64>,
    pub subs: Option<u64>,
    pub innate: Option<u64>,
    pub observed: Option<ObservedRecord>,
}

/// An observed record as a mathematical value.
pub struct ObservedView {
    pub type_label: Seq<char>,
    pub container_key: Option<RawView>,
    pub entries: Seq<(RawView, RawView)>,
}

/// Entries as pairs of views.
pub open spec fn entries_view(entries: Seq<RawEntry>) -> Seq<(RawView, RawView)> {
    Seq::new(entries.len(), |i: int| (entries[i].key.view(), entries[i].value.view()))
}

impl ObservedRecord {
    pub open spec fn view(&self) -> ObservedView {
        ObservedView {
            type_label: self.type_label@,
            container_key: match self.container_key {
                Some(k) => Some(k.view()),
                None => None,
            },
            entries: entries_view(self.entries@),
        }
    }
}

/// A soul record as a mathematical value.
pub struct SoulView {
    pub soul_id: Option<Seq<char>>,
    pub suit_code: Option<u64>,
    pub star: Option<u64>,
    pub slot: Option<u64>,
    pub level: Option<u64>,
    pub main: Option<u64>,
    pub subs: Option<u64>,
    pub innate: Option<u64>,
    pub observed: Option<ObservedView>,
}

impl SoulRecord {
    pub open spec fn view(&self) -> SoulView {
        SoulView {
            soul_id: opt_text(self.soul_id),
            suit_code: self.suit_code,
            star: self.star,
            slot: self.slot,
            level: self.level,
            main: self.main,
            subs: self.subs,
            innate: self.innate,
            observed: match self.observed {
                Some(o) => Some(o.view()),
                None => None,
            },
        }
    }
}

/// Which typed fields of a soul record are mapped, and on what evidence.
#[derive(Debug, Clone, Copy, PartialEq, Eq, Structural)]
pub struct SoulMappings {
    pub soul_id: Option<Evidence>,
    pub suit_code: Option<Evidence>,
    pub star: Option<Evidence>,
    pub slot: Option<Evidence>,
    pub level: Option<Evidence>,
    pub main: Option<Evidence>,
    pub subs: Option<Evidence>,
    pub innate: Option<Evidence>,
}

impl SoulMappings {
    /// No field mapped.
    pub open spec fn unmapped() -> SoulMappings {
        SoulMappings {
            soul_id: None,
            suit_code: None,
            star: None,
            slot: None,
            level: None,
            main: None,
            subs: None,
            innate: None,
        }
    }
}

impl Default for SoulMappings {
    fn default() -> (r: SoulMappings)
        ensures
            r == SoulMappings::unmapped(),
    {
        SoulMappings {
            soul_id: None,
            suit_code: None,
            star: None,
            slot: None,
            level: None,
            main: None,
            subs: None,
            innate: None,
        }
    }
}

/// The souls a reading found, the rule they were recognised by, and which fields are mapped.
#[derive(Debug, PartialEq)]
pub struct SoulRecords {
    pub souls: Vec<SoulRecord>,
    pub recognition: Evidence,
    pub mappings: SoulMappings,
}

/// The records of a reading, by scope.
#[derive(Debug, PartialEq)]
pub enum Records {
    Souls(SoulRecords),
}

/// One reading of a scope.
#[derive(Debug, PartialEq)]
pub struct Reading {
    pub coverage: Coverage,
    pub observed_account_id: Option<String>,
    pub stats: ReadStats,
    pub records: Records,
}

/// The pointer width a target process runs with.
#[derive(Debug, Clone, Copy, PartialEq, Eq, Structural)]
pub enum PointerWidth {
    PointerWidth32,
    PointerWidth64,
}

/// A process as the daemon is told of it: its id and file name, and what the system tells
/// about it.
#[derive(Debug, Clone, PartialEq)]
pub struct TargetProcess {
    pub pid: u32,
    pub image_name: String,
    pub parent_pid: Option<u32>,
    pub pointer_width: Option<PointerWidth>,
    pub created_unix_ms: Option<u64>,
    pub session_id: Option<u32>,
}

impl TargetProcess {
    /// The same process.
    pub fn duplicate(&self) -> (r: TargetProcess)
        ensures
            r == *self,
    {
        TargetProcess {
            pid: self.pid,
            image_name: self.image_name.clone(),
            parent_pid: self.parent_pid,
            pointer_width: self.pointer_width,
            created_unix_ms: self.created_unix_ms,
            session_id: self.session_id,
        }
    }
}

/// How the reader reaches the game.
#[derive(Debug, Clone, Copy, PartialEq, Eq, Structural)]
pub enum Channel {
    /// The game process's memory on this machine.
    DesktopMemory,
}

} // verus!
