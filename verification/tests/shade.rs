use cs2_dumper::memory::shade::{
    inject_schema_bindings, injectable_dll_path, is_shade_connector, judge_load, wait_status,
    LoadFailure, LoadStep, LoadVerdict, ShadeError, ShadeReport, StatusStep,
};

#[test]
fn recognises_shade_connector_name() {
    assert!(is_shade_connector(Some("shade")));
    assert!(is_shade_connector(Some("SHADE")));
    assert!(!is_shade_connector(Some("syscall")));
    assert!(!is_shade_connector(None));
}

#[test]
fn inject_path_strips_extended_prefix() {
    let extended = r"\\?\C:\Users\Admin\AppData\Local\Temp\cs2-dumper\cs2_dumper_shade.dll";
    let text = injectable_dll_path(extended);
    assert!(
        !text.starts_with(r"\\?\"),
        "LoadLibraryW path must not be extended: {text}"
    );
    assert!(text.ends_with(r"cs2_dumper_shade.dll"));
    assert_eq!(
        injectable_dll_path(r"C:\temp\cs2_dumper_shade.dll"),
        r"C:\temp\cs2_dumper_shade.dll"
    );
}

#[test]
fn only_a_successful_report_with_modules_is_accepted() {
    let mut failed = ShadeReport::default();
    match inject_schema_bindings(failed) {
        Err(ShadeError::PayloadFailed(reason)) => assert_eq!(reason, "unknown error"),
        other => panic!("{other:?}"),
    }
    failed = ShadeReport::default();
    failed.error = Some("no interface".to_string());
    match inject_schema_bindings(failed) {
        Err(ShadeError::PayloadFailed(reason)) => assert_eq!(reason, "no interface"),
        other => panic!("{other:?}"),
    }
    let mut empty = ShadeReport::default();
    empty.ok = true;
    assert!(matches!(inject_schema_bindings(empty), Err(ShadeError::NoModules)));
    let mut good = ShadeReport::default();
    good.ok = true;
    good.bindings.push("client.dll".to_string());
    good.schema_system = 140737488355328;
    let report = inject_schema_bindings(good).unwrap();
    assert_eq!(report.bindings, ["client.dll"]);
    assert_eq!(report.schema_system, 140737488355328);
}

fn failed(why: LoadFailure, give_back: bool) -> LoadVerdict {
    LoadVerdict::Failed { why, give_back }
}

#[test]
fn memory_is_given_back_unless_a_loader_may_still_read_it() {
    assert_eq!(judge_load(LoadStep::Opened(false)), failed(LoadFailure::NotOpened, false));
    assert_eq!(judge_load(LoadStep::Allocated(false)), failed(LoadFailure::NotAllocated, false));
    assert_eq!(judge_load(LoadStep::LibraryFound(false)), failed(LoadFailure::NoLibrary, true));
    assert_eq!(judge_load(LoadStep::LoaderFound(false)), failed(LoadFailure::NoLoader, true));
    assert_eq!(judge_load(LoadStep::Started(false)), failed(LoadFailure::NotStarted, true));
    assert_eq!(judge_load(LoadStep::Waited(0x102)), failed(LoadFailure::TimedOut, false));
    assert_eq!(judge_load(LoadStep::Waited(0xFFFF_FFFF)), failed(LoadFailure::WaitFailed, true));
    assert_eq!(judge_load(LoadStep::Ended(None)), failed(LoadFailure::NoResult, true));
    assert_eq!(judge_load(LoadStep::Ended(Some(0))), failed(LoadFailure::Refused, true));
    assert_eq!(judge_load(LoadStep::Ended(Some(7))), LoadVerdict::Loaded);
}

#[test]
fn a_step_that_succeeds_leads_to_the_next() {
    for step in [
        LoadStep::Opened(true),
        LoadStep::Allocated(true),
        LoadStep::Written { done: true, written: 8, wanted: 8 },
        LoadStep::LibraryFound(true),
        LoadStep::LoaderFound(true),
        LoadStep::Started(true),
        LoadStep::Waited(0),
    ] {
        assert_eq!(judge_load(step), LoadVerdict::GoOn);
    }
}

#[test]
fn a_short_write_is_a_failed_one() {
    let written = |done, written, wanted| judge_load(LoadStep::Written { done, written, wanted });
    assert_eq!(written(true, 6, 8), failed(LoadFailure::NotWritten, true));
    assert_eq!(written(false, 8, 8), failed(LoadFailure::NotWritten, true));
    assert_eq!(written(true, 8, 8), LoadVerdict::GoOn);
}

#[test]
fn an_unread_status_is_retried_until_the_time_is_over() {
    assert_eq!(wait_status(false, 0, 90_000), StatusStep::Retry(50));
    assert_eq!(wait_status(true, 10, 90_000), StatusStep::Done);
    assert_eq!(wait_status(false, 90_000, 90_000), StatusStep::GiveUp);
}
