use yata_reader::backend::{not_attached, not_windows, DesktopBackend, ImageBackend};
use yata_reader::export::{self, export_from, ExportFailure};
use yata_reader::layout::cpython::DictKeys;
use yata_reader::layout::fixture::inventory;
use yata_reader::layout::memory::Image;
use yata_reader::layout::synthetic::Builder;
use yata_reader::probe::{Channel, PointerWidth, Records, TargetProcess};
use yata_reader::session::{
    Backend, Pid, ReadScope, RequestReason, SessionReason, Target, Version,
};

const BUILD: &str = "yata-reader synthetic-fixture";

fn target() -> TargetProcess {
    TargetProcess {
        pid: 4242,
        image_name: "synthetic.exe".to_owned(),
        parent_pid: None,
        pointer_width: Some(PointerWidth::PointerWidth64),
        created_unix_ms: None,
        session_id: None,
    }
}

fn never() -> bool {
    false
}

fn backend(keys: DictKeys) -> ImageBackend {
    ImageBackend::new(inventory(keys).expect("disjoint"), target())
}

#[test]
fn an_image_backend_attaches_and_reads_the_souls() {
    for (keys, engine) in [(DictKeys::Logged, "cpython-3.11"), (DictKeys::Sized, "cpython-3.6-3.10")] {
        let mut b = backend(keys);
        let a = b.attach(Target::Discover).expect("attached");
        assert_eq!(a.engine, engine);
        assert_eq!(a.channel, Channel::DesktopMemory);
        assert_eq!(a.target, target());
        let mut progress: Vec<(u64, u64)> = Vec::new();
        let reading = b.read(ReadScope::Souls, &mut progress, &never).expect("read");
        let Records::Souls(s) = &reading.records;
        assert_eq!(s.souls.len(), 4);
        assert!(!progress.is_empty());
    }
}

#[test]
fn an_image_backend_refuses_another_pid_and_a_second_attach() {
    let mut b = backend(DictKeys::Logged);
    let f = b.attach(Target::Pid(nonzero(7))).expect_err("another pid");
    assert_eq!(f.reason, SessionReason::NotFound);
    assert_eq!(f.message, "no process has pid 7");
    b.attach(Target::Pid(nonzero(4242))).expect("its own pid");
    let f = b.attach(Target::Discover).expect_err("twice");
    assert_eq!(f.reason, SessionReason::Internal);
    assert_eq!(f.message, "attached twice");
}

#[test]
fn a_backend_not_attached_reads_nothing() {
    let mut b = backend(DictKeys::Logged);
    let mut progress: Vec<(u64, u64)> = Vec::new();
    let f = b.read(ReadScope::Souls, &mut progress, &never).expect_err("not attached");
    assert_eq!(f, not_attached());
    assert_eq!(f.reason, RequestReason::NotAttached);
    assert!(progress.is_empty());
    let d: DesktopBackend<Image> = DesktopBackend::new();
    let f = d.read_attached(ReadScope::Souls, &mut progress, &never).expect_err("not attached");
    assert_eq!(f.reason, RequestReason::NotAttached);
}

#[test]
fn memory_with_no_runtime_fails_attaching_with_its_layout_error() {
    let mut b = ImageBackend::new(Image::new(), target());
    let f = b.attach(Target::Discover).expect_err("no runtime");
    assert_eq!(f.reason, SessionReason::LayoutMismatch);
    assert_eq!(
        f.message,
        "the game's memory is not a known layout: TypeObject { found: 0 }"
    );
    assert_eq!(f.os_error, None);
}

#[test]
fn a_desktop_backend_attaches_to_the_memory_it_is_given() {
    let mut d: DesktopBackend<Image> = DesktopBackend::new();
    let image = Builder::new(DictKeys::Logged).finish().expect("disjoint");
    let a = d.attach_memory(target(), image).expect("attached");
    assert_eq!(a.engine, "cpython-3.11");
    let mut progress: Vec<(u64, u64)> = Vec::new();
    let reading = d.read_attached(ReadScope::Souls, &mut progress, &never).expect("read");
    let Records::Souls(s) = &reading.records;
    assert_eq!(s.souls.len(), 0);
}

#[test]
fn the_desktop_channel_is_windows_only() {
    let f = not_windows();
    assert_eq!(f.reason, SessionReason::UnsupportedEnvironment);
    assert_eq!(
        f.message,
        "the desktop channel reads the Windows game, and this is not Windows"
    );
}

#[test]
fn the_export_is_a_valid_export_of_four_souls() {
    let version = Version { major: 1, minor: 2 };
    let mut progress: Vec<(u64, u64)> = Vec::new();
    let e = export::read(
        &mut backend(DictKeys::Logged),
        Target::Discover,
        version,
        BUILD,
        "2026-09-25T00:00:00Z",
        &mut progress,
    )
    .expect("read");
    assert_eq!(e.protocol_version, version);
    assert_eq!(e.probe_build_id, BUILD);
    assert_eq!(e.engine, "cpython-3.11");
    assert_eq!(e.channel, Channel::DesktopMemory);
    assert_eq!(e.captured_at.as_deref(), Some("2026-09-25T00:00:00Z"));
    assert_eq!(e.target, Some(target()));
    assert_eq!(e.readings.len(), 1);
    let Records::Souls(s) = &e.readings[0].records;
    assert_eq!(s.souls.len(), 4);
}

#[test]
fn an_export_that_cannot_attach_says_why() {
    let mut progress: Vec<(u64, u64)> = Vec::new();
    let f = export::read(
        &mut backend(DictKeys::Logged),
        Target::Pid(nonzero(9)),
        Version { major: 1, minor: 0 },
        BUILD,
        "2026-09-25T00:00:00Z",
        &mut progress,
    )
    .expect_err("no such pid");
    assert_eq!(f.message(), "no process has pid 9");
    assert!(matches!(
        f,
        ExportFailure::Attach(ref s) if s.reason == SessionReason::NotFound
    ));
}

#[test]
fn an_export_is_made_of_what_attaching_and_reading_gave() {
    let version = Version { major: 1, minor: 0 };
    let f = not_windows();
    assert_eq!(
        export_from(Err(f.clone()), None, version, BUILD, "t"),
        Err(ExportFailure::Attach(f))
    );
    let mut b = backend(DictKeys::Logged);
    let a = b.attach(Target::Discover).expect("attached");
    let g = not_attached();
    assert_eq!(
        export_from(Ok(a.clone()), Some(Err(g.clone())), version, BUILD, "t"),
        Err(ExportFailure::Read(g))
    );
    let mut progress: Vec<(u64, u64)> = Vec::new();
    let reading = b.read(ReadScope::Souls, &mut progress, &never).expect("read");
    let e = export_from(Ok(a), Some(Ok(reading)), version, BUILD, "t").expect("an export");
    assert_eq!(e.engine, "cpython-3.11");
    assert_eq!(e.target, Some(target()));
    assert_eq!(e.captured_at.as_deref(), Some("t"));
}

fn nonzero(n: u32) -> Pid {
    Pid::new(n).expect("nonzero")
}
