//! The reader's side of the probe protocol, as decisions: which process the handshake names,
//! why a session ends or a request fails, and how each request is answered. The stream, the
//! frames and the worker thread are the program's.
//!
//! Two kinds of failure are told apart by type. A [`SessionFailure`] ends the session: the
//! daemon gets a session-level `Failed`, and the reader exits. A [`RequestFailure`] answers one
//! request, and the session goes on.

use vstd::prelude::*;

use crate::layout::souls::Progress;
use crate::probe::{Channel, Reading, TargetProcess};
use crate::text::{decimal, push_decimal, push_text};

verus! {

/// Which process to attach to, as the daemon's handshake names it.
#[derive(Debug, Clone, Copy, PartialEq, Eq, Structural)]
pub enum Target {
    /// The one process whose file name is the game's.
    Discover,
    /// The process with this id, whatever its name.
    Pid(Pid),
}

/// A process id: never 0.
#[derive(Debug, Clone, Copy, PartialEq, Eq, Structural)]
pub struct Pid {
    value: u32,
}

impl Pid {
    #[verifier::type_invariant]
    spec fn is_nonzero(self) -> bool {
        self.value != 0
    }

    /// The id as a number.
    pub closed spec fn spec_get(self) -> u32 {
        self.value
    }

    /// The id `value`, or none for 0.
    pub fn new(value: u32) -> (r: Option<Pid>)
        ensures
            r is Some <==> value != 0,
            r matches Some(p) ==> p.spec_get() == value,
    {
        if value == 0 {
            None
        } else {
            Some(Pid { value })
        }
    }

    /// The id as a number, which is never 0.
    pub fn get(self) -> (r: u32)
        ensures
            r == self.spec_get(),
            r != 0,
    {
        proof {
            use_type_invariant(&self);
        }
        self.value
    }
}

/// The target field of a handshake.
#[derive(Debug, Clone, Copy, PartialEq, Eq, Structural)]
pub enum WireTarget {
    Discover,
    Pid(u32),
}

impl Target {
    /// The target a handshake names, or why it names none.
    pub fn of(t: Option<WireTarget>) -> (r: Result<Target, &'static str>)
        ensures
            match t {
                None => r matches Err(e) && e@ == "the handshake names no target"@,
                Some(WireTarget::Discover) => r == Ok::<Target, &'static str>(Target::Discover),
                Some(WireTarget::Pid(p)) => if p == 0 {
                    r matches Err(e) && e@ == "the handshake names pid 0"@
                } else {
                    r matches Ok(Target::Pid(q)) && q.spec_get() == p
                },
            },
    {
        match t {
            None => Err("the handshake names no target"),
            Some(WireTarget::Discover) => Ok(Target::Discover),
            Some(WireTarget::Pid(pid)) => match Pid::new(pid) {
                None => Err("the handshake names pid 0"),
                Some(p) => Ok(Target::Pid(p)),
            },
        }
    }

    /// The handshake field for this target.
    pub fn wire(self) -> (r: WireTarget)
        ensures
            match self {
                Target::Discover => r == WireTarget::Discover,
                Target::Pid(p) => r == WireTarget::Pid(p.spec_get()),
            },
    {
        match self {
            Target::Discover => WireTarget::Discover,
            Target::Pid(pid) => WireTarget::Pid(pid.get()),
        }
    }
}

/// Why a session ended.
#[derive(Debug, Clone, PartialEq)]
pub enum SessionReason {
    /// No process to attach to.
    NotFound,
    /// More than one candidate, each listed.
    Ambiguous { candidates: Vec<TargetProcess> },
    /// The game refused a reader known to be unelevated.
    ElevationRequired,
    /// The game refused the reader.
    AccessDenied,
    /// The game was gone before it could be opened.
    ProcessExited,
    /// A host or a target the reader has no strategy for.
    UnsupportedEnvironment,
    /// The game's memory is not a layout the reader knows.
    LayoutMismatch,
    /// The daemon broke the protocol.
    ProtocolError,
    /// The daemon speaks a version the reader does not.
    ProtocolUnsupported,
    /// The reader's own fault.
    Internal,
}

/// A failure that ends the session: why, in words, and the operating-system error it came
/// from, when there is one.
#[derive(Debug, Clone, PartialEq)]
pub struct SessionFailure {
    pub reason: SessionReason,
    pub message: String,
    pub os_error: Option<u32>,
}

impl SessionFailure {
    pub fn new(reason: SessionReason, message: String) -> (r: SessionFailure)
        ensures
            r == (SessionFailure { reason, message, os_error: None }),
    {
        SessionFailure { reason, message, os_error: None }
    }
}

/// Why one request failed.
#[derive(Debug, Clone, Copy, PartialEq, Eq, Structural)]
pub enum RequestReason {
    /// No game is attached.
    NotAttached,
    /// The daemon cancelled it.
    Cancelled,
    /// The reader does not read the scope it names.
    ScopeUnsupported,
}

/// A failure that answers one request.
#[derive(Debug, Clone, PartialEq)]
pub struct RequestFailure {
    pub reason: RequestReason,
    pub message: String,
}

impl RequestFailure {
    pub fn new(reason: RequestReason, message: String) -> (r: RequestFailure)
        ensures
            r == (RequestFailure { reason, message }),
    {
        RequestFailure { reason, message }
    }
}

/// What attaching found.
#[derive(Debug, Clone, PartialEq)]
pub struct Attached {
    pub engine: String,
    pub channel: Channel,
    pub target: TargetProcess,
}

/// The scope a request names, as this reader parses it.
#[derive(Debug, Clone, Copy, PartialEq, Eq, Structural)]
pub enum ReadScope {
    Souls,
}

/// A call made of a backend, with what it answered: an attach with its target, or a read with
/// its scope and whether its callback can never answer that the read is cancelled.
pub enum BackendCall {
    Attach { target: Target, answer: Result<Attached, SessionFailure> },
    Read { scope: ReadScope, never_cancels: bool, answer: Result<Reading, RequestFailure> },
}

/// How the reader reaches the game: the desktop channel, or synthetic memory in tests.
pub trait Backend {
    /// The calls made of it so far, oldest first.
    closed spec fn calls(&self) -> Seq<BackendCall> {
        arbitrary()
    }

    /// Attach to the target.
    fn attach(&mut self, target: Target) -> (r: Result<Attached, SessionFailure>)
        ensures
            final(self).calls() == old(self).calls().push(
                BackendCall::Attach { target, answer: r },
            ),
    ;

    /// Read a scope. `progress` hears `(done, total)`; `cancelled` is asked at checkpoints, and
    /// a read ends as cancelled only once it has answered that the read is cancelled.
    fn read<P: Progress, C: Fn() -> bool>(
        &mut self,
        scope: ReadScope,
        progress: &mut P,
        cancelled: &C,
    ) -> (r: Result<Reading, RequestFailure>)
        requires
            cancelled.requires(()),
        ensures
            r matches Err(f) && f.reason == RequestReason::Cancelled ==> cancelled.ensures(
                (),
                true,
            ),
            final(self).calls() == old(self).calls().push(
                BackendCall::Read {
                    scope,
                    never_cancels: forall|b: bool| cancelled.ensures((), b) ==> !b,
                    answer: r,
                },
            ),
    ;
}

/// A protocol version: a major one, which must match, and a minor one.
#[derive(Debug, Clone, Copy, PartialEq, Eq, Structural)]
pub struct Version {
    pub major: u32,
    pub minor: u32,
}

/// The target the daemon's handshake names, or why the session ends: a handshake without a
/// version or a target breaks the protocol, and one whose version this reader does not
/// accept is refused. `accepted` is whether the reader accepts the handshake's version.
pub fn handshake_target(
    version: Option<Version>,
    accepted: bool,
    ours: Version,
    target: Option<WireTarget>,
) -> (r: Result<Target, SessionFailure>)
    ensures
        match version {
            None => r matches Err(f) && f.reason == SessionReason::ProtocolError && f.message@
                == "the handshake has no version"@ && f.os_error is None,
            Some(v) => if !accepted {
                r matches Err(f) && f.reason == SessionReason::ProtocolUnsupported && f.message@
                    == "the daemon speaks "@ + decimal(v.major as nat) + "."@ + decimal(
                    v.minor as nat,
                ) + ", this reader "@ + decimal(ours.major as nat) + "."@ + decimal(
                    ours.minor as nat,
                ) && f.os_error is None
            } else {
                match target {
                    None => r matches Err(f) && f.reason == SessionReason::ProtocolError
                        && f.message@ == "the handshake names no target"@ && f.os_error is None,
                    Some(WireTarget::Discover) => r == Ok::<Target, SessionFailure>(
                        Target::Discover,
                    ),
                    Some(WireTarget::Pid(p)) => if p == 0 {
                        r matches Err(f) && f.reason == SessionReason::ProtocolError && f.message@
                            == "the handshake names pid 0"@ && f.os_error is None
                    } else {
                        r matches Ok(Target::Pid(q)) && q.spec_get() == p
                    },
                }
            },
        },
{
    let v = match version {
        Some(v) => v,
        None => {
            let mut m = String::new();
            push_text(&mut m, "the handshake has no version");
            return Err(SessionFailure::new(SessionReason::ProtocolError, m));
        },
    };
    if !accepted {
        let mut m = String::new();
        push_text(&mut m, "the daemon speaks ");
        push_decimal(&mut m, v.major as u64);
        push_text(&mut m, ".");
        push_decimal(&mut m, v.minor as u64);
        push_text(&mut m, ", this reader ");
        push_decimal(&mut m, ours.major as u64);
        push_text(&mut m, ".");
        push_decimal(&mut m, ours.minor as u64);
        return Err(SessionFailure::new(SessionReason::ProtocolUnsupported, m));
    }
    match Target::of(target) {
        Ok(t) => Ok(t),
        Err(e) => {
            let mut m = String::new();
            push_text(&mut m, e);
            Err(SessionFailure::new(SessionReason::ProtocolError, m))
        },
    }
}

/// The scope a request names: `code` is the number the request carries and `souls` the
/// protocol's number for the souls scope. Only that scope is read; any other number, the unstated
/// scope among them, comes back as itself, to be answered unsupported.
pub fn requested_scope(code: i32, souls: i32) -> (r: Result<ReadScope, i32>)
    ensures
        r == (if code == souls {
            Ok::<ReadScope, i32>(ReadScope::Souls)
        } else {
            Err::<ReadScope, i32>(code)
        }),
{
    if code == souls {
        Ok(ReadScope::Souls)
    } else {
        Err(code)
    }
}

/// A message from the daemon, by what it asks, or the end of the stream.
#[derive(Debug, Clone, Copy, PartialEq, Eq, Structural)]
pub enum Incoming {
    Handshake,
    ReadRequest,
    Cancel,
    Shutdown,
    /// The daemon closed the pipe.
    Closed,
    /// A message the daemon does not send to a reader.
    Other,
}

/// What the session does with a message.
#[derive(Debug, Clone, PartialEq)]
pub enum Step {
    /// Take the handshake: attach, and acknowledge.
    Attach,
    /// Queue the request for the worker.
    Read,
    /// Stop the request it names, if it runs.
    Cancel,
    /// End the session cleanly.
    End,
    /// End the session with this failure.
    Fail(SessionFailure),
}

/// What the session does with message `m`, called `name`, before or after the handshake: the
/// first message must be the handshake; after it, requests and cancels are served, a shutdown
/// or a closed pipe ends the session cleanly, and anything else is a protocol error.
pub fn on_message(handshaken: bool, m: Incoming, name: &str) -> (r: Step)
    ensures
        m == Incoming::Closed ==> r == Step::End,
        !handshaken && m != Incoming::Closed ==> if m == Incoming::Handshake {
            r == Step::Attach
        } else {
            r matches Step::Fail(f) && f.reason == SessionReason::ProtocolError && f.os_error
                is None && f.message@ == "expected Handshake, got "@ + name@
        },
        handshaken && m != Incoming::Closed ==> match m {
            Incoming::ReadRequest => r == Step::Read,
            Incoming::Cancel => r == Step::Cancel,
            Incoming::Shutdown => r == Step::End,
            _ => r matches Step::Fail(f) && f.reason == SessionReason::ProtocolError && f.os_error
                is None && f.message@ == "unexpected "@ + name@,
        },
{
    if m == Incoming::Closed {
        return Step::End;
    }
    if !handshaken {
        if m == Incoming::Handshake {
            return Step::Attach;
        }
        let mut t = String::new();
        push_text(&mut t, "expected Handshake, got ");
        push_text(&mut t, name);
        return Step::Fail(SessionFailure::new(SessionReason::ProtocolError, t));
    }
    match m {
        Incoming::ReadRequest => Step::Read,
        Incoming::Cancel => Step::Cancel,
        Incoming::Shutdown => Step::End,
        _ => {
            let mut t = String::new();
            push_text(&mut t, "unexpected ");
            push_text(&mut t, name);
            Step::Fail(SessionFailure::new(SessionReason::ProtocolError, t))
        },
    }
}

/// What a request gets before any reading: a request cancelled before it starts is answered
/// cancelled without being read, and one for a scope this reader does not know is answered
/// unsupported; any other is read.
pub fn before_read(cancelled: bool, scope: Result<ReadScope, i32>) -> (r: Result<
    ReadScope,
    RequestFailure,
>)
    ensures
        cancelled ==> (r matches Err(f) && f.reason == RequestReason::Cancelled && f.message@
            == "cancelled before it started"@),
        !cancelled ==> match scope {
            Ok(s) => r == Ok::<ReadScope, RequestFailure>(s),
            Err(unknown) => r matches Err(f) && f.reason == RequestReason::ScopeUnsupported
                && f.message@ == "this reader does not read scope "@ + crate::text::signed_decimal(
                unknown as int,
            ),
        },
{
    if cancelled {
        let mut m = String::new();
        push_text(&mut m, "cancelled before it started");
        return Err(RequestFailure::new(RequestReason::Cancelled, m));
    }
    match scope {
        Ok(s) => Ok(s),
        Err(unknown) => {
            let mut m = String::new();
            push_text(&mut m, "this reader does not read scope ");
            crate::text::push_signed(&mut m, unknown as i64);
            Err(RequestFailure::new(RequestReason::ScopeUnsupported, m))
        },
    }
}

} // verus!
