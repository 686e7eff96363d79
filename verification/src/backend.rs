//! The two ways a session reaches memory: the desktop channel over the game process, and a
//! synthetic image for tests and fixtures. Both attach by discovering the runtime's layout and
//! read through the same [`crate::layout`] code.

use vstd::prelude::*;

use crate::layout::cpython::{
    discover, engine_name, layout_text, spec_discover, LayoutError, Runtime,
};
use crate::layout::memory::{Cached, Image, Memory};
use crate::layout::souls::{progress_law, read_souls, souls_reading, Progress};
use crate::probe::{Channel, Reading, TargetProcess};
use crate::session::{
    Attached, Backend, BackendCall, ReadScope, RequestFailure, RequestReason, SessionFailure, SessionReason,
    Target,
};
use crate::text::{decimal, push_decimal, push_text};

verus! {

/// The failure of a memory whose layout is not one the reader knows.
pub fn layout_failure(e: &LayoutError) -> (r: SessionFailure)
    ensures
        r.reason == SessionReason::LayoutMismatch,
        r.os_error is None,
        r.message@ == "the game's memory is not a known layout: "@ + layout_text(*e),
{
    let mut m = String::new();
    push_text(&mut m, "the game's memory is not a known layout: ");
    let d = e.text();
    push_text(&mut m, d.as_str());
    SessionFailure::new(SessionReason::LayoutMismatch, m)
}

/// Memory with its runtime found.
pub struct Attachment<M: Memory> {
    memory: Cached<M>,
    runtime: Runtime,
}

impl<M: Memory> Attachment<M> {
    /// The memory, read through a cache.
    pub closed spec fn spec_memory(&self) -> Cached<M> {
        self.memory
    }

    /// The runtime found in it.
    pub closed spec fn spec_runtime(&self) -> Runtime {
        self.runtime
    }
}

/// Cache a memory and find its runtime, or fail with why its layout is not known.
pub fn attach_to<M: Memory>(memory: M) -> (r: Result<Attachment<M>, SessionFailure>)
    ensures
        r matches Ok(a) ==> a.spec_memory().spec_inner() == memory && spec_discover(
            &a.spec_memory(),
        ) == Ok::<Runtime, LayoutError>(a.spec_runtime()),
        r matches Err(f) ==> exists|c: Cached<M>, e: LayoutError|
            c.spec_inner() == memory && spec_discover(&c) == Err::<Runtime, LayoutError>(e)
                && f.reason == SessionReason::LayoutMismatch && f.os_error is None && f.message@
                == "the game's memory is not a known layout: "@ + layout_text(e),
{
    let memory = Cached::new(memory);
    match discover(&memory) {
        Ok(runtime) => Ok(Attachment { memory, runtime }),
        Err(e) => Err(layout_failure(&e)),
    }
}

/// A read asked of a backend that attached to nothing.
pub fn not_attached() -> (r: RequestFailure)
    ensures
        r.reason == RequestReason::NotAttached,
        r.message@ == "no game is attached"@,
{
    let mut m = String::new();
    push_text(&mut m, "no game is attached");
    RequestFailure::new(RequestReason::NotAttached, m)
}

/// Read a scope from attached memory: a reading, or a cancel.
pub fn read_from<M: Memory, P: Progress, C: Fn() -> bool>(
    a: &Attachment<M>,
    scope: ReadScope,
    progress: &mut P,
    cancelled: &C,
) -> (r: Result<Reading, RequestFailure>)
    requires
        cancelled.requires(()),
    ensures
        progress_law(old(progress).log(), final(progress).log(), r is Ok),
        r matches Ok(reading) ==> souls_reading(&a.spec_memory(), a.spec_runtime(), reading),
        r matches Err(f) ==> f.reason == RequestReason::Cancelled && f.message@ == "cancelled"@
            && cancelled.ensures((), true),
        (forall|b: bool| cancelled.ensures((), b) ==> !b) ==> r is Ok,
{
    match scope {
        ReadScope::Souls => match read_souls(&a.memory, &a.runtime, progress, cancelled) {
            Ok(reading) => Ok(reading),
            Err(_) => {
                let mut m = String::new();
                push_text(&mut m, "cancelled");
                Err(RequestFailure::new(RequestReason::Cancelled, m))
            },
        },
    }
}

/// Where a synthetic backend stands.
enum ImageState {
    /// Not attached yet: the memory waits.
    Detached(Image),
    Attached(Attachment<Image>),
    /// An attach was tried and failed; the memory is gone with it.
    Failed,
}

/// Where a synthetic backend stands, as a mathematical value.
pub enum Phase {
    Detached(Image),
    Attached { memory: Cached<Image>, runtime: Runtime },
    Failed,
}

/// Synthetic memory standing in for a game process.
pub struct ImageBackend {
    target: TargetProcess,
    state: ImageState,
    calls: Ghost<Seq<BackendCall>>,
}

impl ImageBackend {
    /// The process it stands in for.
    pub closed spec fn spec_target(&self) -> TargetProcess {
        self.target
    }

    /// Where it stands.
    pub closed spec fn phase(&self) -> Phase {
        match self.state {
            ImageState::Detached(image) => Phase::Detached(image),
            ImageState::Attached(a) => Phase::Attached { memory: a.memory, runtime: a.runtime },
            ImageState::Failed => Phase::Failed,
        }
    }

    /// Whether an attached backend found the runtime of its memory.
    pub closed spec fn wf(&self) -> bool {
        self.state matches ImageState::Attached(a) ==> spec_discover(&a.memory) == Ok::<
            Runtime,
            LayoutError,
        >(a.runtime)
    }

    /// A backend over `image`, standing in for `target`, not attached yet.
    pub fn new(image: Image, target: TargetProcess) -> (r: ImageBackend)
        ensures
            r.wf(),
            r.spec_target() == target,
            r.phase() == Phase::Detached(image),
            r.calls() == Seq::<BackendCall>::empty(),
    {
        ImageBackend { target, state: ImageState::Detached(image), calls: Ghost(Seq::empty()) }
    }
}

/// What an attach of `before` to `target` answers, and where it leaves the backend: the target
/// must be the process the image stands in for, and the image's layout one the reader knows.
pub open spec fn attach_outcome(
    before: ImageBackend,
    after: ImageBackend,
    target: Target,
    r: Result<Attached, SessionFailure>,
) -> bool {
    &&& after.spec_target() == before.spec_target()
    &&& match target {
        Target::Pid(p) => p.spec_get() != before.spec_target().pid ==> (r matches Err(f)
            && f.reason == SessionReason::NotFound && f.message@ == "no process has pid "@
            + decimal(p.spec_get() as nat) && after.phase() == before.phase()),
        _ => true,
    }
    &&& (target matches Target::Pid(p) ==> p.spec_get() == before.spec_target().pid) ==> match
        before.phase() {
        Phase::Detached(image) => match r {
            Ok(a) => after.phase() matches Phase::Attached { memory, runtime }
                && memory.spec_inner() == image && spec_discover(&memory) == Ok::<
                Runtime,
                LayoutError,
            >(runtime) && a.engine@ == engine_name(runtime.keys) && a.channel
                == Channel::DesktopMemory && a.target == before.spec_target(),
            Err(f) => after.phase() == Phase::Failed && exists|c: Cached<Image>, e: LayoutError|
                c.spec_inner() == image && spec_discover(&c) == Err::<Runtime, LayoutError>(e)
                    && f.reason == SessionReason::LayoutMismatch && f.os_error is None
                    && f.message@ == "the game's memory is not a known layout: "@ + layout_text(
                    e,
                ),
        },
        _ => r matches Err(f) && f.reason == SessionReason::Internal && f.message@
            == "attached twice"@ && after.phase() == before.phase(),
    }
}

impl ImageBackend {
    /// An attach, with the calls made of the backend left as they were.
    fn attach_image(&mut self, target: Target) -> (r: Result<Attached, SessionFailure>)
        ensures
            attach_outcome(*old(self), *final(self), target, r),
            final(self).calls@ == old(self).calls@,
    {
        match target {
            Target::Pid(pid) => {
                let pid = pid.get();
                if pid != self.target.pid {
                    let mut m = String::new();
                    push_text(&mut m, "no process has pid ");
                    push_decimal(&mut m, pid as u64);
                    return Err(SessionFailure::new(SessionReason::NotFound, m));
                }
            },
            Target::Discover => {},
        }
        let mut state = ImageState::Failed;
        std::mem::swap(&mut state, &mut self.state);
        let image = match state {
            ImageState::Detached(image) => image,
            other => {
                self.state = other;
                let mut m = String::new();
                push_text(&mut m, "attached twice");
                return Err(SessionFailure::new(SessionReason::Internal, m));
            },
        };
        let a = match attach_to(image) {
            Ok(a) => a,
            Err(f) => return Err(f),
        };
        let engine = a.runtime.engine().to_owned();
        self.state = ImageState::Attached(a);
        Ok(Attached { engine, channel: Channel::DesktopMemory, target: self.target.duplicate() })
    }
}

impl Backend for ImageBackend {
    closed spec fn calls(&self) -> Seq<BackendCall> {
        self.calls@
    }

    /// Attach once: the target must be the process the image stands in for, and the image's
    /// layout one the reader knows.
    fn attach(&mut self, target: Target) -> (r: Result<Attached, SessionFailure>)
        ensures
            attach_outcome(*old(self), *final(self), target, r),
    {
        let r = self.attach_image(target);
        self.calls = Ghost(self.calls@.push(BackendCall::Attach { target, answer: r }));
        r
    }

    /// Read from the attached image; a backend not attached reads nothing.
    fn read<P: Progress, C: Fn() -> bool>(
        &mut self,
        scope: ReadScope,
        progress: &mut P,
        cancelled: &C,
    ) -> (r: Result<Reading, RequestFailure>)
        ensures
            final(self).phase() == old(self).phase(),
            final(self).spec_target() == old(self).spec_target(),
            match old(self).phase() {
                Phase::Attached { memory, runtime } => {
                    &&& progress_law(old(progress).log(), final(progress).log(), r is Ok)
                    &&& r matches Ok(reading) ==> souls_reading(&memory, runtime, reading)
                    &&& r matches Err(f) ==> f.reason == RequestReason::Cancelled
                        && cancelled.ensures((), true)
                },
                _ => r matches Err(f) && f.reason == RequestReason::NotAttached
                    && final(progress).log() == old(progress).log(),
            },
    {
        let r = match &self.state {
            ImageState::Attached(a) => read_from(a, scope, progress, cancelled),
            _ => Err(not_attached()),
        };
        self.calls = Ghost(
            self.calls@.push(
                BackendCall::Read {
                    scope,
                    never_cancels: forall|b: bool| cancelled.ensures((), b) ==> !b,
                    answer: r,
                },
            ),
        );
        r
    }
}

/// The desktop channel's memory, once attached: the game process's, cached, with its runtime.
pub struct DesktopBackend<M: Memory> {
    attached: Option<Attachment<M>>,
}

impl<M: Memory> DesktopBackend<M> {
    /// What it is attached to, if anything.
    pub closed spec fn spec_attached(&self) -> Option<(Cached<M>, Runtime)> {
        match self.attached {
            Some(a) => Some((a.memory, a.runtime)),
            None => None,
        }
    }

    /// Not attached.
    pub fn new() -> (r: DesktopBackend<M>)
        ensures
            r.spec_attached() is None,
    {
        DesktopBackend { attached: None }
    }

    /// Attach to the chosen process's memory: find its runtime, and report the process.
    pub fn attach_memory(&mut self, chosen: TargetProcess, memory: M) -> (r: Result<
        Attached,
        SessionFailure,
    >)
        ensures
            r matches Ok(a) ==> final(self).spec_attached() matches Some((c, runtime))
                && c.spec_inner() == memory && spec_discover(&c) == Ok::<Runtime, LayoutError>(
                runtime,
            ) && a.engine@ == engine_name(runtime.keys) && a.channel == Channel::DesktopMemory
                && a.target == chosen,
            r matches Err(f) ==> final(self).spec_attached() == old(self).spec_attached() && exists|
                c: Cached<M>,
                e: LayoutError,
            |
                c.spec_inner() == memory && spec_discover(&c) == Err::<Runtime, LayoutError>(e)
                    && f.reason == SessionReason::LayoutMismatch && f.os_error is None
                    && f.message@ == "the game's memory is not a known layout: "@ + layout_text(e),
    {
        let a = match attach_to(memory) {
            Ok(a) => a,
            Err(f) => return Err(f),
        };
        let engine = a.runtime.engine().to_owned();
        self.attached = Some(a);
        Ok(Attached { engine, channel: Channel::DesktopMemory, target: chosen })
    }

    /// Read from the attached memory; a backend not attached reads nothing.
    pub fn read_attached<P: Progress, C: Fn() -> bool>(
        &self,
        scope: ReadScope,
        progress: &mut P,
        cancelled: &C,
    ) -> (r: Result<Reading, RequestFailure>)
        requires
            cancelled.requires(()),
        ensures
            match self.spec_attached() {
                Some((memory, runtime)) => {
                    &&& progress_law(old(progress).log(), final(progress).log(), r is Ok)
                    &&& r matches Ok(reading) ==> souls_reading(&memory, runtime, reading)
                    &&& r matches Err(f) ==> f.reason == RequestReason::Cancelled
                        && cancelled.ensures((), true)
                },
                None => r matches Err(f) && f.reason == RequestReason::NotAttached
                    && final(progress).log() == old(progress).log(),
            },
    {
        match &self.attached {
            Some(a) => read_from(a, scope, progress, cancelled),
            None => Err(not_attached()),
        }
    }
}

/// Why the desktop channel cannot attach on a host other than Windows.
pub fn not_windows() -> (r: SessionFailure)
    ensures
        r.reason == SessionReason::UnsupportedEnvironment,
        r.os_error is None,
        r.message@ == "the desktop channel reads the Windows game, and this is not Windows"@,
{
    let mut m = String::new();
    push_text(&mut m, "the desktop channel reads the Windows game, and this is not Windows");
    SessionFailure::new(SessionReason::UnsupportedEnvironment, m)
}

} // verus!
