use yata_reader::desktop::{
    candidates, classify_open, elevation_of, is_game, listing_failure, select, target_of,
    width_supported, AttachError, Candidate, Elevation, IMAGE_NAMES, OS_ACCESS_DENIED,
    OS_INVALID_PARAMETER,
};
use yata_reader::platform::{Bitness, ProcessEntry, ProcessFacts};
use yata_reader::probe::PointerWidth;
use yata_reader::session::{Pid, SessionReason, Target};

fn c(pid: u32, name: &str) -> Candidate {
    Candidate {
        pid,
        parent_pid: 1,
        image_name: name.into(),
    }
}

#[test]
fn no_game_process_is_not_found() {
    let all = [c(4, "System"), c(10, "explorer.exe")];
    assert_eq!(select(&all, Target::Discover), Err(AttachError::NoGame));
    let f = AttachError::NoGame.failure(&[]);
    assert_eq!(f.reason, SessionReason::NotFound);
    assert_eq!(f.os_error, None);
    assert_eq!(
        f.message,
        "no running process is named onmyoji.exe or onmyoji_future.exe"
    );
}

#[test]
fn one_game_process_is_chosen_whatever_its_case() {
    let all = [c(10, "explorer.exe"), c(20, "Onmyoji.EXE")];
    assert_eq!(select(&all, Target::Discover), Ok(c(20, "Onmyoji.EXE")));
}

#[test]
fn two_game_processes_are_ambiguous_and_listed_by_pid() {
    let all = [
        c(30, "onmyoji_future.exe"),
        c(10, "x.exe"),
        c(20, "onmyoji.exe"),
    ];
    let e = select(&all, Target::Discover).expect_err("ambiguous");
    assert_eq!(
        e,
        AttachError::Ambiguous {
            candidates: vec![c(20, "onmyoji.exe"), c(30, "onmyoji_future.exe")]
        }
    );
    let SessionReason::Ambiguous { candidates } = e.failure(&[]).reason else {
        panic!("ambiguous")
    };
    let pids: Vec<u32> = candidates.iter().map(|t| t.pid).collect();
    assert_eq!(pids, vec![20, 30]);
}

#[test]
fn a_given_pid_chooses_that_process_or_is_not_found() {
    let all = [
        c(20, "onmyoji.exe"),
        c(30, "onmyoji.exe"),
        c(40, "renamed.exe"),
    ];
    let pid = |n| Target::Pid(nonzero(n));
    assert_eq!(select(&all, pid(30)), Ok(c(30, "onmyoji.exe")));
    assert_eq!(select(&all, pid(40)), Ok(c(40, "renamed.exe")));
    assert_eq!(select(&all, pid(99)), Err(AttachError::NoPid { pid: nonzero(99) }));
}

#[test]
fn access_denied_means_elevation_only_when_known_unelevated() {
    let unelevated = classify_open(Some(OS_ACCESS_DENIED), Elevation::Unelevated);
    assert_eq!(unelevated, AttachError::ElevationRequired);
    assert_eq!(
        unelevated.failure(&[]).reason,
        SessionReason::ElevationRequired
    );
    let elevated = classify_open(Some(OS_ACCESS_DENIED), Elevation::Elevated);
    assert_eq!(elevated, AttachError::AccessDenied);
    assert_eq!(elevated.failure(&[]).reason, SessionReason::AccessDenied);
    // Not knowing is no reason to ask the user to elevate.
    let unknown = classify_open(Some(OS_ACCESS_DENIED), Elevation::Unknown);
    assert_eq!(unknown, AttachError::DeniedUnknownElevation);
    assert_eq!(unknown.failure(&[]).reason, SessionReason::AccessDenied);
    assert_eq!(unknown.failure(&[]).os_error, Some(5));
}

#[test]
fn a_vanished_process_and_other_errors_are_told_apart() {
    assert_eq!(
        classify_open(Some(OS_INVALID_PARAMETER), Elevation::Unelevated),
        AttachError::Exited
    );
    let other = classify_open(Some(1450), Elevation::Unelevated).failure(&[]);
    assert_eq!(other.reason, SessionReason::Internal);
    assert_eq!(other.os_error, Some(1450));
    assert_eq!(other.message, "opening the game failed with system error 1450");
    let silent = classify_open(None, Elevation::Unelevated).failure(&[]);
    assert_eq!(silent.os_error, None);
    assert_eq!(
        silent.message,
        "opening the game failed, and the system gave no error number"
    );
}

#[test]
fn a_pid_that_does_not_exist_is_not_found() {
    // Process ids are multiples of four, so an odd one never exists.
    let all = [c(4, "System"), c(8, "onmyoji.exe")];
    let odd = 4_000_000_001;
    assert_eq!(
        select(&all, Target::Pid(nonzero(odd))),
        Err(AttachError::NoPid { pid: nonzero(odd) })
    );
    assert_eq!(
        AttachError::NoPid { pid: nonzero(odd) }.message(),
        "no process has pid 4000000001"
    );
}

#[test]
fn no_game_is_running_on_a_test_machine() {
    let listed = vec![
        ProcessEntry {
            pid: 4,
            parent_pid: 0,
            image_name: "System".into(),
        },
        ProcessEntry {
            pid: 1200,
            parent_pid: 4,
            image_name: "explorer.exe".into(),
        },
    ];
    let all = candidates(&listed);
    assert!(!all.iter().any(|p| is_game(&p.image_name)));
    assert_eq!(select(&all, Target::Discover), Err(AttachError::NoGame));
}

#[test]
fn the_game_names_are_matched_whatever_their_case() {
    assert!(is_game("onmyoji.exe"));
    assert!(is_game("ONMYOJI_FUTURE.EXE"));
    assert!(!is_game("onmyoji.exe "));
    assert!(!is_game("onmyoji"));
    assert_eq!(IMAGE_NAMES.len(), 2);
}

#[test]
fn an_ambiguous_failure_lists_what_is_known_of_each_candidate() {
    let e = AttachError::Ambiguous {
        candidates: vec![c(20, "onmyoji.exe"), c(30, "onmyoji.exe")],
    };
    let facts = [ProcessFacts {
        bitness: Some(Bitness::Bits64),
        created_unix_ms: Some(7),
        session_id: Some(1),
    }];
    let f = e.failure(&facts);
    assert_eq!(f.message, "2 processes match; choose one by pid");
    assert_eq!(f.os_error, None);
    let SessionReason::Ambiguous { candidates } = f.reason else {
        panic!("ambiguous")
    };
    assert_eq!(candidates[0].pointer_width, Some(PointerWidth::PointerWidth64));
    assert_eq!(candidates[0].created_unix_ms, Some(7));
    assert_eq!(candidates[1].pointer_width, None);
    assert_eq!(candidates[1].parent_pid, Some(1));
}

#[test]
fn a_target_is_reported_with_its_facts() {
    let t = target_of(
        &c(20, "onmyoji.exe"),
        ProcessFacts {
            bitness: Some(Bitness::Bits32),
            created_unix_ms: None,
            session_id: Some(2),
        },
    );
    assert_eq!(t.pid, 20);
    assert_eq!(t.image_name, "onmyoji.exe");
    assert_eq!(t.parent_pid, Some(1));
    assert_eq!(t.pointer_width, Some(PointerWidth::PointerWidth32));
    assert_eq!(t.session_id, Some(2));
    assert_eq!(t.created_unix_ms, None);
}

#[test]
fn a_thirty_two_bit_target_is_unsupported() {
    let chosen = c(20, "onmyoji.exe");
    let thin = ProcessFacts {
        bitness: Some(Bitness::Bits32),
        created_unix_ms: None,
        session_id: None,
    };
    let e = width_supported(&chosen, thin).expect_err("unsupported");
    assert_eq!(
        e,
        AttachError::Unsupported {
            reason: "onmyoji.exe is a 32-bit process".into()
        }
    );
    assert_eq!(e.failure(&[]).reason, SessionReason::UnsupportedEnvironment);
    assert!(width_supported(&chosen, ProcessFacts::none()).is_ok());
}

#[test]
fn the_other_failures_say_what_happened() {
    assert_eq!(
        listing_failure(Some(-3)).message(),
        "listing processes failed with system error -3"
    );
    assert_eq!(listing_failure(Some(-3)).os_error(), None);
    assert_eq!(AttachError::Exited.os_error(), Some(87));
    assert_eq!(
        AttachError::Exited.failure(&[]).reason,
        SessionReason::ProcessExited
    );
    assert_eq!(elevation_of(Some(true)), Elevation::Elevated);
    assert_eq!(elevation_of(Some(false)), Elevation::Unelevated);
    assert_eq!(elevation_of(None), Elevation::Unknown);
}

fn nonzero(n: u32) -> Pid {
    Pid::new(n).expect("nonzero")
}
