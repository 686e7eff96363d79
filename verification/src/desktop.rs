//! The desktop channel's decisions: choosing the game process, and classifying the operating
//! system's refusals.
//!
//! Choosing is deterministic and never guesses. With a pid from the daemon, that process is the
//! target, whatever its name. Without one, the processes whose file name is one of
//! [`IMAGE_NAMES`] are the candidates: none is not found, more than one is ambiguous with every
//! candidate listed, and only exactly one is chosen.
//!
//! Opening classifies the operating system's answer: access denied to a reader known to be
//! unelevated asks for elevation, to any other reader it is a plain refusal; a pid that is gone
//! is a process that exited; a 32-bit target is an unsupported environment.

use vstd::prelude::*;

use crate::platform::{Bitness, ProcessEntry, ProcessFacts};
use crate::probe::{PointerWidth, TargetProcess};
use crate::session::{Pid, SessionFailure, SessionReason, Target};
use crate::text::{decimal, push_decimal, push_signed, push_text, signed_decimal};

verus! {

/// The game's executable names: a hypothesis, with no recording of this project behind it
/// yet. A name the game does not use finds nothing and is reported as such.
pub const IMAGE_NAMES: [&'static str; 2] = ["onmyoji.exe", "onmyoji_future.exe"];

/// `ERROR_ACCESS_DENIED` and `ERROR_INVALID_PARAMETER`, as `OpenProcess` reports them.
pub const OS_ACCESS_DENIED: i32 = 5;

pub const OS_INVALID_PARAMETER: i32 = 87;

/// A process discovery considered.
#[derive(Debug, Clone, PartialEq, Eq)]
pub struct Candidate {
    pub pid: u32,
    pub parent_pid: u32,
    pub image_name: String,
}

impl Candidate {
    /// The same candidate.
    fn copy(&self) -> (r: Candidate)
        ensures
            r == *self,
    {
        Candidate { pid: self.pid, parent_pid: self.parent_pid, image_name: self.image_name.clone() }
    }
}

/// Whether this reader runs elevated, as far as the system says.
#[derive(Debug, Clone, Copy, PartialEq, Eq, Structural)]
pub enum Elevation {
    Elevated,
    Unelevated,
    /// The system would not say.
    Unknown,
}

/// Why the reader could not attach.
#[derive(Debug, Clone, PartialEq, Eq)]
pub enum AttachError {
    /// No process has one of the game's names.
    NoGame,
    /// No process has the pid the daemon named.
    NoPid { pid: Pid },
    /// More than one candidate.
    Ambiguous { candidates: Vec<Candidate> },
    /// The game refused a reader known to be unelevated.
    ElevationRequired,
    /// The game refused an elevated reader.
    AccessDenied,
    /// The game refused a reader that cannot tell whether it is elevated. Elevating is not
    /// suggested: it may not be the cause.
    DeniedUnknownElevation,
    /// The process was gone by the time it was opened.
    Exited,
    /// A host or a target this reader has no strategy for.
    Unsupported { reason: String },
    /// Any other operating-system failure, with the system's error number when it gave one.
    Os { os_error: Option<i32>, context: &'static str },
}

/// A character with ASCII letters in lower case.
pub open spec fn ascii_lower(c: char) -> char {
    if 'A' <= c && c <= 'Z' {
        ((c as u32) + 32) as char
    } else {
        c
    }
}

/// Whether two texts are the same, ignoring the case of ASCII letters.
pub open spec fn same_ignoring_case(a: Seq<char>, b: Seq<char>) -> bool {
    &&& a.len() == b.len()
    &&& forall|i: int| 0 <= i < a.len() ==> #[trigger] ascii_lower(a[i]) == ascii_lower(b[i])
}

/// Whether a file name is one of the game's, whatever its case.
pub open spec fn spec_is_game(name: Seq<char>) -> bool {
    same_ignoring_case(IMAGE_NAMES[0]@, name) || same_ignoring_case(IMAGE_NAMES[1]@, name)
}

fn lower(c: char) -> (r: char)
    ensures
        r == ascii_lower(c),
{
    if 'A' <= c && c <= 'Z' {
        ((c as u8) + 32) as char
    } else {
        c
    }
}

/// Whether two texts are the same, ignoring the case of ASCII letters.
pub fn eq_ignoring_case(a: &str, b: &str) -> (r: bool)
    ensures
        r == same_ignoring_case(a@, b@),
{
    let n = a.unicode_len();
    if n != b.unicode_len() {
        return false;
    }
    let mut i: usize = 0;
    while i < n
        invariant
            n == a@.len(),
            n == b@.len(),
            i <= n,
            forall|j: int| 0 <= j < i ==> #[trigger] ascii_lower(a@[j]) == ascii_lower(b@[j]),
        decreases n - i,
    {
        if lower(a.get_char(i)) != lower(b.get_char(i)) {
            return false;
        }
        i += 1;
    }
    true
}

/// Whether a file name is one of the game's.
pub fn is_game(image_name: &str) -> (r: bool)
    ensures
        r == spec_is_game(image_name@),
{
    eq_ignoring_case(IMAGE_NAMES[0], image_name) || eq_ignoring_case(IMAGE_NAMES[1], image_name)
}

/// The first candidate with this pid.
pub open spec fn with_pid(all: Seq<Candidate>, pid: u32) -> Option<int>
    decreases all.len(),
{
    if all.len() == 0 {
        None
    } else {
        match with_pid(all.drop_last(), pid) {
            Some(i) => Some(i),
            None => if all.last().pid == pid {
                Some(all.len() - 1)
            } else {
                None
            },
        }
    }
}

/// Where a candidate goes among candidates in pid order: after every one whose pid is not
/// above its own.
pub open spec fn pid_slot(sorted: Seq<Candidate>, pid: u32) -> int
    decreases sorted.len(),
{
    if sorted.len() == 0 {
        0
    } else if sorted[0].pid <= pid {
        1 + pid_slot(sorted.drop_first(), pid)
    } else {
        0
    }
}

/// Candidates in pid order; those with the same pid in the order they came.
pub open spec fn by_pid(s: Seq<Candidate>) -> Seq<Candidate>
    decreases s.len(),
{
    if s.len() == 0 {
        Seq::empty()
    } else {
        let sorted = by_pid(s.drop_last());
        sorted.insert(pid_slot(sorted, s.last().pid), s.last())
    }
}

/// The game processes among all, in pid order.
pub open spec fn games(all: Seq<Candidate>) -> Seq<Candidate> {
    by_pid(all.filter(|c: Candidate| spec_is_game(c.image_name@)))
}

proof fn lemma_pid_slot(sorted: Seq<Candidate>, pid: u32)
    ensures
        0 <= pid_slot(sorted, pid) <= sorted.len(),
    decreases sorted.len(),
{
    if sorted.len() > 0 && sorted[0].pid <= pid {
        lemma_pid_slot(sorted.drop_first(), pid);
    }
}

/// Where a candidate goes among candidates in pid order.
fn find_slot(sorted: &Vec<Candidate>, pid: u32) -> (r: usize)
    ensures
        r == pid_slot(sorted@, pid),
{
    let n = sorted.len();
    let mut i: usize = 0;
    assert(sorted@.subrange(0, n as int) =~= sorted@);
    while i < n && sorted[i].pid <= pid
        invariant
            n == sorted@.len(),
            i <= n,
            pid_slot(sorted@, pid) == i + pid_slot(sorted@.subrange(i as int, n as int), pid),
        decreases n - i,
    {
        assert(sorted@.subrange(i as int, n as int).drop_first() =~= sorted@.subrange(
            i + 1,
            n as int,
        ));
        i += 1;
    }
    if i < n {
        assert(sorted@.subrange(i as int, n as int)[0] == sorted@[i as int]);
    } else {
        assert(sorted@.subrange(i as int, n as int) =~= Seq::<Candidate>::empty());
    }
    i
}

/// The game processes among all, in pid order.
fn game_processes(all: &[Candidate]) -> (r: Vec<Candidate>)
    ensures
        r@ == games(all@),
{
    let ghost keep = |c: Candidate| spec_is_game(c.image_name@);
    let mut found: Vec<Candidate> = Vec::new();
    proof {
        reveal(Seq::filter);
        assert(all@.take(0) =~= Seq::<Candidate>::empty());
    }
    let mut sorted: Vec<Candidate> = Vec::new();
    let n = all.len();
    let mut i: usize = 0;
    while i < n
        invariant
            n == all@.len(),
            i <= n,
            keep == (|c: Candidate| spec_is_game(c.image_name@)),
            found@ == all@.take(i as int).filter(keep),
            sorted@ == by_pid(found@),
        decreases n - i,
    {
        let c = &all[i];
        assert(all@.take(i + 1).drop_last() =~= all@.take(i as int));
        if is_game(c.image_name.as_str()) {
            let ghost before = found@;
            found.push(c.copy());
            assert(found@.drop_last() =~= before);
            let at = find_slot(&sorted, c.pid);
            proof {
                lemma_pid_slot(sorted@, c.pid);
            }
            sorted.insert(at, c.copy());
        }
        i += 1;
        proof {
            reveal(Seq::filter);
            assert(all@.take(i as int).drop_last() =~= all@.take(i - 1));
        }
        assert(all@.take(i as int).filter(keep) == found@);
    }
    assert(all@.take(n as int) =~= all@);
    sorted
}

/// Choose the target among all processes: the one with the pid, or the one game process.
pub fn select(all: &[Candidate], target: Target) -> (r: Result<Candidate, AttachError>)
    ensures
        match target {
            Target::Pid(p) => match with_pid(all@, p.spec_get()) {
                Some(i) => r == Ok::<Candidate, AttachError>(all@[i]),
                None => r == Err::<Candidate, AttachError>(AttachError::NoPid { pid: p }),
            },
            Target::Discover => {
                let g = games(all@);
                &&& g.len() == 0 ==> r == Err::<Candidate, AttachError>(AttachError::NoGame)
                &&& g.len() == 1 ==> r == Ok::<Candidate, AttachError>(g[0])
                &&& g.len() > 1 ==> (r matches Err(AttachError::Ambiguous { candidates })
                    && candidates@ == g)
            },
        },
{
    match target {
        Target::Pid(p) => {
            let pid = p.get();
            let n = all.len();
            let mut i: usize = 0;
            while i < n
                invariant
                    n == all@.len(),
                    i <= n,
                    target == Target::Pid(p),
                    pid == p.spec_get(),
                    with_pid(all@.take(i as int), pid) is None,
                decreases n - i,
            {
                assert(all@.take(i + 1).drop_last() =~= all@.take(i as int));
                if all[i].pid == pid {
                    proof {
                        lemma_with_pid_prefix(all@, i as int + 1, pid);
                    }
                    let c = all[i].copy();
                    assert(c == all@[i as int]);

                    return Ok(c);
                }
                i += 1;
            }
            assert(all@.take(n as int) =~= all@);
            Err(AttachError::NoPid { pid: p })
        },
        Target::Discover => {
            let games = game_processes(all);
            if games.len() == 0 {
                Err(AttachError::NoGame)
            } else if games.len() == 1 {
                Ok(games[0].copy())
            } else {
                Err(AttachError::Ambiguous { candidates: games })
            }
        },
    }
}

/// The first candidate with a pid, found in a prefix, is the first in the whole list.
proof fn lemma_with_pid_prefix(all: Seq<Candidate>, k: int, pid: u32)
    requires
        0 < k <= all.len(),
        with_pid(all.take(k - 1), pid) is None,
        all[k - 1].pid == pid,
    ensures
        with_pid(all, pid) == Some(k - 1),
    decreases all.len(),
{
    assert(all.take(k).drop_last() =~= all.take(k - 1));
    if k < all.len() {
        assert(all.drop_last().take(k) =~= all.take(k));
        assert(all.drop_last().take(k - 1) =~= all.take(k - 1));
        lemma_with_pid_prefix(all.drop_last(), k, pid);
    } else {
        assert(all.take(k) =~= all);
    }
}

/// Whether candidates come in pid order.
pub open spec fn in_pid_order(s: Seq<Candidate>) -> bool {
    forall|i: int, j: int| 0 <= i < j < s.len() ==> #[trigger] s[i].pid <= #[trigger] s[j].pid
}

/// In candidates in pid order, those before the slot have a pid not above `pid`, those from
/// it on a pid above it.
proof fn lemma_pid_slot_splits(sorted: Seq<Candidate>, pid: u32)
    requires
        in_pid_order(sorted),
    ensures
        0 <= pid_slot(sorted, pid) <= sorted.len(),
        forall|i: int| 0 <= i < pid_slot(sorted, pid) ==> #[trigger] sorted[i].pid <= pid,
        forall|i: int| pid_slot(sorted, pid) <= i < sorted.len() ==> #[trigger] sorted[i].pid > pid,
    decreases sorted.len(),
{
    if sorted.len() > 0 && sorted[0].pid <= pid {
        let t = sorted.drop_first();
        assert(in_pid_order(t)) by {
            assert forall|i: int, j: int| 0 <= i < j < t.len() implies #[trigger] t[i].pid
                <= #[trigger] t[j].pid by {
                assert(sorted[i + 1].pid <= sorted[j + 1].pid);
            }
        }
        lemma_pid_slot_splits(t, pid);
        assert forall|i: int| 0 <= i < pid_slot(sorted, pid) implies #[trigger] sorted[i].pid
            <= pid by {
            if i > 0 {
                assert(sorted[i] == t[i - 1]);
            }
        }
        assert forall|i: int| pid_slot(sorted, pid) <= i < sorted.len() implies #[trigger] sorted[
            i].pid > pid by {
            assert(sorted[i] == t[i - 1]);
        }
    } else if sorted.len() > 0 {
        assert forall|i: int| 0 <= i < sorted.len() implies #[trigger] sorted[i].pid > pid by {
            if i > 0 {
                assert(sorted[0].pid <= sorted[i].pid);
            }
        }
    }
}

/// Sorting by pid orders the candidates and keeps each as often as it came.
proof fn lemma_by_pid(s: Seq<Candidate>)
    ensures
        in_pid_order(by_pid(s)),
        by_pid(s).to_multiset() == s.to_multiset(),
    decreases s.len(),
{
    broadcast use vstd::seq_lib::group_to_multiset_ensures;

    if s.len() == 0 {
        assert(by_pid(s).to_multiset() =~= s.to_multiset());
    } else {
        let rest = s.drop_last();
        let x = s.last();
        lemma_by_pid(rest);
        let sorted = by_pid(rest);
        lemma_pid_slot_splits(sorted, x.pid);
        let k = pid_slot(sorted, x.pid);
        let out = sorted.insert(k, x);
        assert(out == by_pid(s));
        sorted.insert_ensures(k, x);
        assert forall|i: int, j: int| 0 <= i < j < out.len() implies #[trigger] out[i].pid
            <= #[trigger] out[j].pid by {
            if j < k {
                assert(out[i] == sorted[i] && out[j] == sorted[j]);
            } else if j == k {
                assert(out[i] == sorted[i]);
            } else if i < k {
                assert(out[i] == sorted[i] && out[j] == sorted[j - 1]);
                assert(sorted[i].pid <= x.pid);
            } else if i == k {
                assert(out[j] == sorted[j - 1]);
            } else {
                assert(out[i] == sorted[i - 1] && out[j] == sorted[j - 1]);
            }
        }
        vstd::seq_lib::to_multiset_insert(sorted, k, x);
        assert(rest.push(x) =~= s);
        vstd::seq_lib::to_multiset_build(rest, x);
    }
}

/// Without a pid, the candidates are the game processes: each game process as often as it is
/// listed, nothing else, and in pid order.
pub proof fn lemma_games_are_the_game_processes(all: Seq<Candidate>)
    ensures
        in_pid_order(games(all)),
        games(all).to_multiset() == all.filter(|c: Candidate| spec_is_game(c.image_name@))
            .to_multiset(),
        forall|i: int| 0 <= i < games(all).len() ==> spec_is_game(#[trigger] games(all)[i].image_name@),
{
    broadcast use vstd::seq_lib::group_to_multiset_ensures;

    let keep = |c: Candidate| spec_is_game(c.image_name@);
    let found = all.filter(keep);
    lemma_by_pid(found);
    let g = games(all);
    assert forall|i: int| 0 <= i < g.len() implies spec_is_game(#[trigger] g[i].image_name@) by {
        assert(g.contains(g[i]));
        assert(g.to_multiset().count(g[i]) > 0);
        assert(found.contains(g[i]));
        all.filter_lemma(keep);
    }
}

/// What an `OpenProcess` failure means, given what is known of this reader's elevation.
pub open spec fn spec_classify_open(os_error: Option<i32>, elevation: Elevation) -> AttachError {
    match (os_error, elevation) {
        (Some(OS_ACCESS_DENIED), Elevation::Unelevated) => AttachError::ElevationRequired,
        (Some(OS_ACCESS_DENIED), Elevation::Elevated) => AttachError::AccessDenied,
        (Some(OS_ACCESS_DENIED), Elevation::Unknown) => AttachError::DeniedUnknownElevation,
        (Some(OS_INVALID_PARAMETER), _) => AttachError::Exited,
        (e, _) => AttachError::Os { os_error: e, context: "opening the game" },
    }
}

/// Access denied asks for elevation only of a reader known to be unelevated: a reader that
/// cannot tell, or is elevated, is told of a plain refusal, and no other error asks for it.
pub proof fn lemma_elevation_only_when_known_unelevated(os_error: Option<i32>, elevation: Elevation)
    ensures
        spec_classify_open(os_error, elevation) == AttachError::ElevationRequired <==> (os_error
            == Some(OS_ACCESS_DENIED) && elevation == Elevation::Unelevated),
        os_error == Some(OS_ACCESS_DENIED) && elevation != Elevation::Unelevated ==> (
        spec_classify_open(os_error, elevation) is AccessDenied || spec_classify_open(
            os_error,
            elevation,
        ) is DeniedUnknownElevation),
{
}

/// What an `OpenProcess` failure means, given what is known of this reader's elevation.
pub fn classify_open(os_error: Option<i32>, elevation: Elevation) -> (r: AttachError)
    ensures
        r == spec_classify_open(os_error, elevation),
{
    match (os_error, elevation) {
        (Some(OS_ACCESS_DENIED), Elevation::Unelevated) => AttachError::ElevationRequired,
        (Some(OS_ACCESS_DENIED), Elevation::Elevated) => AttachError::AccessDenied,
        (Some(OS_ACCESS_DENIED), Elevation::Unknown) => AttachError::DeniedUnknownElevation,
        (Some(OS_INVALID_PARAMETER), _) => AttachError::Exited,
        (os_error, _) => AttachError::Os { os_error, context: "opening the game" },
    }
}

/// What the reader says of a failure to attach.
pub open spec fn spec_message(e: AttachError) -> Seq<char> {
    match e {
        AttachError::NoGame => "no running process is named "@ + IMAGE_NAMES[0]@ + " or "@
            + IMAGE_NAMES[1]@,
        AttachError::NoPid { pid } => "no process has pid "@ + decimal(pid.spec_get() as nat),
        AttachError::Ambiguous { candidates } => decimal(candidates@.len())
            + " processes match; choose one by pid"@,
        AttachError::ElevationRequired =>
            "the game refused access; it runs elevated and the reader does not"@,
        AttachError::AccessDenied => "the game refused access to an elevated reader"@,
        AttachError::DeniedUnknownElevation =>
            "the game refused access, and the system would not say whether this reader is elevated"@,
        AttachError::Exited => "the process exited before it could be opened"@,
        AttachError::Unsupported { reason } => reason@,
        AttachError::Os { os_error, context } => match os_error {
            Some(e) => context@ + " failed with system error "@ + signed_decimal(e as int),
            None => context@ + " failed, and the system gave no error number"@,
        },
    }
}

/// The operating-system error a failure came from: access denied for a refusal, an invalid
/// parameter for a process gone, the system's own for any other failure; only a positive
/// one counts.
pub open spec fn spec_os_error(e: AttachError) -> Option<u32> {
    let raw: Option<i32> = match e {
        AttachError::ElevationRequired | AttachError::AccessDenied
        | AttachError::DeniedUnknownElevation => Some(OS_ACCESS_DENIED),
        AttachError::Exited => Some(OS_INVALID_PARAMETER),
        AttachError::Os { os_error, .. } => os_error,
        _ => None,
    };
    match raw {
        Some(v) => if v >= 1 {
            Some(v as u32)
        } else {
            None
        },
        None => None,
    }
}

/// A candidate as the daemon is told of it, with what the system tells about it.
pub open spec fn spec_target(c: Candidate, f: ProcessFacts) -> TargetProcess {
    TargetProcess {
        pid: c.pid,
        image_name: c.image_name,
        parent_pid: Some(c.parent_pid),
        pointer_width: match f.bitness {
            Some(Bitness::Bits32) => Some(PointerWidth::PointerWidth32),
            Some(Bitness::Bits64) => Some(PointerWidth::PointerWidth64),
            None => None,
        },
        created_unix_ms: f.created_unix_ms,
        session_id: f.session_id,
    }
}

/// The facts learnt about the `i`-th candidate, or none.
pub open spec fn facts_at(facts: Seq<ProcessFacts>, i: int) -> ProcessFacts {
    if 0 <= i < facts.len() {
        facts[i]
    } else {
        ProcessFacts::spec_none()
    }
}

/// A candidate as the daemon is told of it, with what the system tells about it.
pub fn target_of(c: &Candidate, f: ProcessFacts) -> (r: TargetProcess)
    ensures
        r == spec_target(*c, f),
{
    TargetProcess {
        pid: c.pid,
        image_name: c.image_name.clone(),
        parent_pid: Some(c.parent_pid),
        pointer_width: match f.bitness {
            Some(Bitness::Bits32) => Some(PointerWidth::PointerWidth32),
            Some(Bitness::Bits64) => Some(PointerWidth::PointerWidth64),
            None => None,
        },
        created_unix_ms: f.created_unix_ms,
        session_id: f.session_id,
    }
}

impl AttachError {
    /// What the reader says of the failure.
    pub fn message(&self) -> (r: String)
        ensures
            r@ == spec_message(*self),
    {
        let mut m = String::new();
        match self {
            AttachError::NoGame => {
                push_text(&mut m, "no running process is named ");
                push_text(&mut m, IMAGE_NAMES[0]);
                push_text(&mut m, " or ");
                push_text(&mut m, IMAGE_NAMES[1]);
            },
            AttachError::NoPid { pid } => {
                push_text(&mut m, "no process has pid ");
                push_decimal(&mut m, pid.get() as u64);
            },
            AttachError::Ambiguous { candidates } => {
                push_decimal(&mut m, candidates.len() as u64);
                push_text(&mut m, " processes match; choose one by pid");
            },
            AttachError::ElevationRequired => {
                push_text(&mut m, "the game refused access; it runs elevated and the reader does not");
            },
            AttachError::AccessDenied => {
                push_text(&mut m, "the game refused access to an elevated reader");
            },
            AttachError::DeniedUnknownElevation => {
                push_text(
                    &mut m,
                    "the game refused access, and the system would not say whether this reader is elevated",
                );
            },
            AttachError::Exited => {
                push_text(&mut m, "the process exited before it could be opened");
            },
            AttachError::Unsupported { reason } => {
                push_text(&mut m, reason.as_str());
            },
            AttachError::Os { os_error, context } => {
                push_text(&mut m, context);
                match os_error {
                    Some(e) => {
                        push_text(&mut m, " failed with system error ");
                        push_signed(&mut m, *e as i64);
                    },
                    None => {
                        push_text(&mut m, " failed, and the system gave no error number");
                    },
                }
            },
        }
        m
    }

    /// The operating-system error the failure came from, when there is one.
    pub fn os_error(&self) -> (r: Option<u32>)
        ensures
            r == spec_os_error(*self),
    {
        let raw: Option<i32> = match self {
            AttachError::ElevationRequired | AttachError::AccessDenied
            | AttachError::DeniedUnknownElevation => Some(OS_ACCESS_DENIED),
            AttachError::Exited => Some(OS_INVALID_PARAMETER),
            AttachError::Os { os_error, .. } => *os_error,
            _ => None,
        };
        match raw {
            Some(v) => if v >= 1 {
                Some(v as u32)
            } else {
                None
            },
            None => None,
        }
    }

    /// The failure the daemon is told about, which ends the session. An ambiguous target
    /// lists its candidates, each with the facts learnt about it, in order.
    pub fn failure(&self, facts: &[ProcessFacts]) -> (r: SessionFailure)
        ensures
            r.message@ == spec_message(*self),
            r.os_error == spec_os_error(*self),
            match *self {
                AttachError::NoGame | AttachError::NoPid { .. } => r.reason
                    == SessionReason::NotFound,
                AttachError::Ambiguous { candidates } => r.reason matches SessionReason::Ambiguous {
                    candidates: listed,
                } && listed@.len() == candidates@.len() && forall|i: int|
                    0 <= i < listed@.len() ==> #[trigger] listed@[i] == spec_target(
                        candidates@[i],
                        facts_at(facts@, i),
                    ),
                AttachError::ElevationRequired => r.reason == SessionReason::ElevationRequired,
                AttachError::AccessDenied | AttachError::DeniedUnknownElevation => r.reason
                    == SessionReason::AccessDenied,
                AttachError::Exited => r.reason == SessionReason::ProcessExited,
                AttachError::Unsupported { .. } => r.reason
                    == SessionReason::UnsupportedEnvironment,
                AttachError::Os { .. } => r.reason == SessionReason::Internal,
            },
    {
        let reason = match self {
            AttachError::NoGame | AttachError::NoPid { .. } => SessionReason::NotFound,
            AttachError::Ambiguous { candidates } => {
                let mut listed: Vec<TargetProcess> = Vec::new();
                let n = candidates.len();
                let mut i: usize = 0;
                while i < n
                    invariant
                        n == candidates@.len(),
                        i <= n,
                        listed@.len() == i,
                        forall|j: int|
                            0 <= j < i ==> #[trigger] listed@[j] == spec_target(
                                candidates@[j],
                                facts_at(facts@, j),
                            ),
                    decreases n - i,
                {
                    let f = if i < facts.len() {
                        facts[i]
                    } else {
                        ProcessFacts::none()
                    };
                    listed.push(target_of(&candidates[i], f));
                    i += 1;
                }
                SessionReason::Ambiguous { candidates: listed }
            },
            AttachError::ElevationRequired => SessionReason::ElevationRequired,
            AttachError::AccessDenied | AttachError::DeniedUnknownElevation => {
                SessionReason::AccessDenied
            },
            AttachError::Exited => SessionReason::ProcessExited,
            AttachError::Unsupported { .. } => SessionReason::UnsupportedEnvironment,
            AttachError::Os { .. } => SessionReason::Internal,
        };
        SessionFailure { reason, message: self.message(), os_error: self.os_error() }
    }
}

/// Every listed process, as candidates.
pub fn candidates(list: &[ProcessEntry]) -> (r: Vec<Candidate>)
    ensures
        r@.len() == list@.len(),
        forall|i: int|
            0 <= i < r@.len() ==> #[trigger] r@[i] == (Candidate {
                pid: list@[i].pid,
                parent_pid: list@[i].parent_pid,
                image_name: list@[i].image_name,
            }),
{
    let mut r: Vec<Candidate> = Vec::new();
    let n = list.len();
    let mut i: usize = 0;
    while i < n
        invariant
            n == list@.len(),
            i <= n,
            r@.len() == i,
            forall|j: int|
                0 <= j < i ==> #[trigger] r@[j] == (Candidate {
                    pid: list@[j].pid,
                    parent_pid: list@[j].parent_pid,
                    image_name: list@[j].image_name,
                }),
        decreases n - i,
    {
        let p = &list[i];
        r.push(Candidate { pid: p.pid, parent_pid: p.parent_pid, image_name: p.image_name.clone() });
        i += 1;
    }
    r
}

/// The failure to list processes.
pub fn listing_failure(os_error: Option<i32>) -> (r: AttachError)
    ensures
        r == (AttachError::Os { os_error, context: "listing processes" }),
{
    AttachError::Os { os_error, context: "listing processes" }
}

/// Whether this reader runs elevated, from the system's answer, if it gave one.
pub fn elevation_of(answer: Option<bool>) -> (r: Elevation)
    ensures
        r == match answer {
            Some(true) => Elevation::Elevated,
            Some(false) => Elevation::Unelevated,
            None => Elevation::Unknown,
        },
{
    match answer {
        Some(true) => Elevation::Elevated,
        Some(false) => Elevation::Unelevated,
        None => Elevation::Unknown,
    }
}

/// A chosen process the reader can read: not one known to be 32-bit.
pub fn width_supported(chosen: &Candidate, f: ProcessFacts) -> (r: Result<(), AttachError>)
    ensures
        f.bitness == Some(Bitness::Bits32) ==> (r matches Err(AttachError::Unsupported { reason })
            && reason@ == chosen.image_name@ + " is a 32-bit process"@),
        f.bitness != Some(Bitness::Bits32) ==> r is Ok,
{
    match f.bitness {
        Some(Bitness::Bits32) => {
            let mut reason = String::new();
            push_text(&mut reason, chosen.image_name.as_str());
            push_text(&mut reason, " is a 32-bit process");
            Err(AttachError::Unsupported { reason })
        },
        _ => Ok(()),
    }
}

} // verus!
