//! Export mode: attach, read the souls once, and hand back one export for the program to write
//! as JSON to the file the user named. No daemon is involved; the file is what a user of
//! another machine imports, and what the maintainer keeps as a recording of one reading.

use vstd::prelude::*;

use crate::layout::souls::Progress;
use crate::probe::{Channel, Reading, TargetProcess};
use crate::session::{
    Attached, Backend, BackendCall, ReadScope, RequestFailure, RequestReason, SessionFailure, Target, Version,
};

verus! {

/// One reading, with what it was read from and by.
#[derive(Debug, PartialEq)]
pub struct ProbeExport {
    pub protocol_version: Version,
    pub probe_build_id: String,
    pub engine: String,
    pub channel: Channel,
    pub readings: Vec<Reading>,
    pub captured_at: Option<String>,
    pub target: Option<TargetProcess>,
}

/// Why an export was not read.
#[derive(Debug, Clone, PartialEq)]
pub enum ExportFailure {
    /// Attaching failed.
    Attach(SessionFailure),
    /// The read failed. Nothing cancels an export's read and it reads a scope the reader has,
    /// so this is the reader's own fault.
    Read(RequestFailure),
}

impl ExportFailure {
    /// What the reader says of the failure.
    pub fn message(&self) -> (r: &str)
        ensures
            r@ == match self {
                ExportFailure::Attach(f) => f.message@,
                ExportFailure::Read(f) => f.message@,
            },
    {
        match self {
            ExportFailure::Attach(f) => f.message.as_str(),
            ExportFailure::Read(f) => f.message.as_str(),
        }
    }
}

/// The export of one reading: the protocol's version, this build, and what attaching found.
pub fn export_of(
    attached: Attached,
    reading: Reading,
    version: Version,
    build_id: &str,
    captured_at: &str,
) -> (r: ProbeExport)
    ensures
        r.protocol_version == version,
        r.probe_build_id@ == build_id@,
        r.engine == attached.engine,
        r.channel == attached.channel,
        r.readings@ == seq![reading],
        r.captured_at matches Some(c) && c@ == captured_at@,
        r.target == Some(attached.target),
{
    let readings = vec![reading];
    ProbeExport {
        protocol_version: version,
        probe_build_id: build_id.to_owned(),
        engine: attached.engine,
        channel: attached.channel,
        readings,
        captured_at: Some(captured_at.to_owned()),
        target: Some(attached.target),
    }
}

/// Whether `r` is the export, or the failure, that an attach result and a read result make: a
/// failed attach, with nothing read; a failed read; or the export of the reading, with the
/// engine, channel and target that attaching found.
pub open spec fn export_of_results(
    r: Result<ProbeExport, ExportFailure>,
    attached: Result<Attached, SessionFailure>,
    reading: Option<Result<Reading, RequestFailure>>,
    version: Version,
    build_id: Seq<char>,
    captured_at: Seq<char>,
) -> bool {
    match attached {
        Err(f) => reading is None && r == Err::<ProbeExport, ExportFailure>(ExportFailure::Attach(f)),
        Ok(a) => match reading {
            None => false,
            Some(Err(g)) => r == Err::<ProbeExport, ExportFailure>(ExportFailure::Read(g)),
            Some(Ok(x)) => r matches Ok(e) && e.protocol_version == version && e.probe_build_id@
                == build_id && e.engine == a.engine && e.channel == a.channel && e.readings@
                == seq![x] && (e.captured_at matches Some(c) && c@ == captured_at) && e.target
                == Some(a.target),
        },
    }
}

/// The export, or the failure, that attaching and reading gave: a read follows an attach
/// that succeeded, and only such an attach.
pub fn export_from(
    attached: Result<Attached, SessionFailure>,
    reading: Option<Result<Reading, RequestFailure>>,
    version: Version,
    build_id: &str,
    captured_at: &str,
) -> (r: Result<ProbeExport, ExportFailure>)
    requires
        attached is Ok <==> reading is Some,
    ensures
        export_of_results(r, attached, reading, version, build_id@, captured_at@),
{
    match attached {
        Err(f) => Err(ExportFailure::Attach(f)),
        Ok(a) => match reading {
            Some(Ok(x)) => Ok(export_of(a, x, version, build_id, captured_at)),
            Some(Err(g)) => Err(ExportFailure::Read(g)),
            None => {
                assert(false);
                Err(ExportFailure::Read(crate::backend::not_attached()))
            },
        },
    }
}

/// The calls an export makes of its backend, with their answers: an attach to `target`, then,
/// only where it succeeded, one read of the souls with a callback that never cancels.
pub open spec fn export_calls(
    target: Target,
    attached: Result<Attached, SessionFailure>,
    reading: Option<Result<Reading, RequestFailure>>,
) -> Seq<BackendCall> {
    match reading {
        None => seq![BackendCall::Attach { target, answer: attached }],
        Some(x) => seq![
            BackendCall::Attach { target, answer: attached },
            BackendCall::Read { scope: ReadScope::Souls, never_cancels: true, answer: x },
        ],
    }
}

/// Nothing cancels an export's read.
fn never() -> (r: bool)
    ensures
        !r,
{
    false
}

/// Attach and read the souls into an export. It attaches to `target` and, only where that
/// succeeds, reads the souls once with a callback that never cancels. What those calls give is
/// the backend's; the export, or the failure, is made of them as [`export_from`] makes it.
pub fn read<B: Backend, P: Progress>(
    backend: &mut B,
    target: Target,
    version: Version,
    build_id: &str,
    captured_at: &str,
    progress: &mut P,
) -> (r: Result<ProbeExport, ExportFailure>)
    ensures
        r matches Ok(e) ==> e.protocol_version == version && e.probe_build_id@ == build_id@
            && e.readings@.len() == 1 && (e.captured_at matches Some(c) && c@ == captured_at@)
            && e.target is Some,
        r matches Err(ExportFailure::Read(f)) ==> f.reason != RequestReason::Cancelled,
        exists|attached: Result<Attached, SessionFailure>, reading: Option<
            Result<Reading, RequestFailure>,
        >|
            export_of_results(r, attached, reading, version, build_id@, captured_at@)
                && final(backend).calls() == old(backend).calls() + export_calls(
                target,
                attached,
                reading,
            ),
{
    let attached = backend.attach(target);
    let reading = match &attached {
        Ok(_) => Some(backend.read(ReadScope::Souls, progress, &never)),
        Err(_) => None,
    };
    export_from(attached, reading, version, build_id, captured_at)
}

} // verus!
