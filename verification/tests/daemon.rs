use fcheckd::daemon::{
    plan_fill, signal_read_step, SignalRead, SignalStep, dispatch_token, epoll_wait_step, inotify_read_step, plan_event, plan_inotify_events, reap_again,
    reload_cfg, signal_action, wants_recursive_walk, watch_mask, watch_targets, EpollSource, ErrnoKind,
    EventPlan, LoopStep, ReapOutcome, SignalAction,
};
use fcheckd::config::{Cfg, CfgEntry};
use fcheckd::logger::{file_log_line, log_destination, LogDestination, LogLevel};
use fcheckd::watch::{InotifyState, WatchRequest};
use fcheckd::{INOTIFY_EPOLL_TOKEN, SIGNAL_EPOLL_TOKEN};

use nix::sys::inotify::{AddWatchFlags, InitFlags, Inotify};

fn p(s: &str) -> Vec<u8> {
    s.as_bytes().to_vec()
}

fn entry(path: &str, recursive: bool, events: u32) -> CfgEntry {
    CfgEntry { path: p(path), recursive, script: p("/s.sh"), events }
}

fn new_state() -> InotifyState {
    InotifyState::new(Inotify::init(InitFlags::IN_CLOEXEC | InitFlags::IN_NONBLOCK).unwrap())
}

/// A state with one watch on a fresh temporary directory, running `script`.
fn state_with_watch(dir: &tempfile::TempDir, script: &str) -> (InotifyState, i32) {
    let mut state = new_state();
    let wd = state.inotify_fd.add_watch(dir.path(), AddWatchFlags::IN_CREATE).unwrap();
    let key = wd.as_raw();
    state.record_watch(key, wd, p(script));
    (state, key)
}

#[test]
fn recorded_watch_maps_back_to_its_script() {
    let dir = tempfile::tempdir().unwrap();
    let (state, key) = state_with_watch(&dir, "/bin/script.sh");
    assert_eq!(state.watch_count(), 1);
    assert_eq!(state.script_for(key), Some(&p("/bin/script.sh")));
    assert_eq!(state.script_for(key + 1000), None);
}

#[test]
fn watching_the_same_object_twice_keeps_one_entry() {
    let dir = tempfile::tempdir().unwrap();
    let (mut state, key) = state_with_watch(&dir, "/first.sh");
    let wd = state.inotify_fd.add_watch(dir.path(), AddWatchFlags::IN_DELETE).unwrap();
    assert_eq!(wd.as_raw(), key);
    state.record_watch(wd.as_raw(), wd, p("/second.sh"));
    assert_eq!(state.watch_count(), 1);
    assert_eq!(state.script_for(key), Some(&p("/second.sh")));
}

#[test]
fn del_watches_empties_the_table_and_hands_back_each_watch() {
    let a = tempfile::tempdir().unwrap();
    let b = tempfile::tempdir().unwrap();
    let mut state = new_state();
    let wa = state.inotify_fd.add_watch(a.path(), AddWatchFlags::IN_CREATE).unwrap();
    let wb = state.inotify_fd.add_watch(b.path(), AddWatchFlags::IN_CREATE).unwrap();
    state.record_watch(wa.as_raw(), wa, p("/a.sh"));
    state.record_watch(wb.as_raw(), wb, p("/b.sh"));
    assert_eq!(state.watch_count(), 2);
    let mut removed: Vec<i32> = state.del_watches().into_iter().map(|(k, _)| k).collect();
    removed.sort();
    let mut expected = vec![wa.as_raw(), wb.as_raw()];
    expected.sort();
    assert_eq!(removed, expected);
    assert_eq!(state.watch_count(), 0);
    assert_eq!(state.script_for(wa.as_raw()), None);
}

#[test]
fn event_of_a_watch_runs_its_script() {
    let dir = tempfile::tempdir().unwrap();
    let (state, key) = state_with_watch(&dir, "/run.sh");
    match plan_event(&state, key, 0x100) {
        EventPlan::Run { script, overflow } => {
            assert_eq!(script, p("/run.sh"));
            assert!(!overflow);
        },
        _ => panic!("expected the script to run"),
    }
    match plan_event(&state, key, 0x100 | 0x4000) {
        EventPlan::Run { overflow, .. } => assert!(overflow),
        _ => panic!("expected the script to run"),
    }
}

#[test]
fn dropped_watch_runs_nothing() {
    let dir = tempfile::tempdir().unwrap();
    let (state, key) = state_with_watch(&dir, "/run.sh");
    assert!(matches!(plan_event(&state, key, 0x8000), EventPlan::Ignored));
    assert!(matches!(plan_event(&state, key, 0x8000 | 0x4000), EventPlan::Ignored));
}

#[test]
fn event_of_an_unknown_watch_runs_nothing() {
    let dir = tempfile::tempdir().unwrap();
    let (state, key) = state_with_watch(&dir, "/run.sh");
    assert!(matches!(plan_event(&state, key + 7, 0x100), EventPlan::NoScript { overflow: false }));
    assert!(matches!(plan_event(&state, key + 7, 0x4000), EventPlan::NoScript { overflow: true }));
}

#[test]
fn a_batch_of_events_is_planned_in_order() {
    let dir = tempfile::tempdir().unwrap();
    let (state, key) = state_with_watch(&dir, "/run.sh");
    let plans = plan_inotify_events(&state, &vec![(key, 0x100), (key, 0x8000), (key + 9, 0x200)]);
    assert_eq!(plans.len(), 3);
    assert!(matches!(plans[0], EventPlan::Run { .. }));
    assert!(matches!(plans[1], EventPlan::Ignored));
    assert!(matches!(plans[2], EventPlan::NoScript { .. }));
}

#[test]
fn read_failures_stop_retry_or_end_the_process() {
    assert_eq!(inotify_read_step(ErrnoKind::Again), LoopStep::Stop);
    assert_eq!(inotify_read_step(ErrnoKind::Interrupted), LoopStep::Retry);
    assert_eq!(inotify_read_step(ErrnoKind::Other), LoopStep::Fatal);
    assert_eq!(inotify_read_step(ErrnoKind::NoChild), LoopStep::Fatal);
    assert_eq!(epoll_wait_step(ErrnoKind::Interrupted), LoopStep::Retry);
    assert_eq!(epoll_wait_step(ErrnoKind::Again), LoopStep::Fatal);
}

#[test]
fn epoll_tokens_name_their_descriptor() {
    assert_eq!(dispatch_token(INOTIFY_EPOLL_TOKEN), Some(EpollSource::Inotify));
    assert_eq!(dispatch_token(SIGNAL_EPOLL_TOKEN), Some(EpollSource::Signal));
    assert_eq!(dispatch_token(2), None);
}

#[test]
fn hangup_reloads_and_child_exit_reaps() {
    assert_eq!(signal_action(nix::libc::SIGHUP as u32), SignalAction::ReloadConfig);
    assert_eq!(signal_action(nix::libc::SIGCHLD as u32), SignalAction::ReapChildren);
    assert_eq!(signal_action(nix::libc::SIGTERM as u32), SignalAction::Unexpected);
    assert_eq!(signal_action(0), SignalAction::Unknown);
}

#[test]
fn reaping_stops_when_nothing_is_left_to_collect() {
    assert!(!reap_again(ReapOutcome::StillAlive));
    assert!(!reap_again(ReapOutcome::Failed(ErrnoKind::NoChild)));
    assert!(reap_again(ReapOutcome::Collected));
    assert!(reap_again(ReapOutcome::Failed(ErrnoKind::Interrupted)));
}

#[test]
fn only_recursive_real_directories_are_walked() {
    assert!(wants_recursive_walk(&entry("/w", true, 0), true, false));
    assert!(!wants_recursive_walk(&entry("/w", true, 0), true, true));
    assert!(!wants_recursive_walk(&entry("/w", true, 0), false, false));
    assert!(!wants_recursive_walk(&entry("/w", false, 0), true, false));
}

#[test]
fn watches_never_follow_links() {
    assert_eq!(watch_mask(&entry("/w", false, 0x100)), 0x0200_0100);
    assert_eq!(watch_mask(&entry("/w", false, 0)), 0x0200_0000);
}

#[test]
fn recursive_entry_targets_its_root_and_every_directory_found() {
    let e = entry("/w", true, 0x100);
    let targets = watch_targets(&e, Some(vec![p("/w/a/b"), p("/w/a")]));
    assert_eq!(targets.len(), 3, "expected a watch on the root plus every nested subdir");
    assert_eq!(targets, vec![p("/w"), p("/w/a/b"), p("/w/a")]);
    assert_eq!(watch_targets(&e, None), vec![p("/w")]);
}

#[test]
fn reload_replaces_the_config_and_forgets_every_watch() {
    let dir = tempfile::tempdir().unwrap();
    let (mut state, key) = state_with_watch(&dir, "/run.sh");
    let mut cfg = Cfg { entry: vec![entry("/a", false, 0x100)], cli_config_path: None };
    let loaded = Cfg { entry: vec![entry("/a", false, 0x100), entry("/b", false, 0x200)], cli_config_path: None };
    let removed = reload_cfg(&mut state, &mut cfg, Some(loaded));
    assert_eq!(cfg.entry.len(), 2, "cfg should reflect the new entry");
    assert_eq!(removed.len(), 1);
    assert_eq!(removed[0].0, key);
    assert_eq!(state.watch_count(), 0);
}

#[test]
fn failed_reload_keeps_the_previous_config() {
    let mut state = new_state();
    let mut cfg = Cfg { entry: vec![entry("/a", false, 0x100)], cli_config_path: Some(p("/c.toml")) };
    let removed = reload_cfg(&mut state, &mut cfg, None);
    assert!(removed.is_empty());
    assert_eq!(cfg.entry.len(), 1);
    assert_eq!(cfg.entry[0].path, p("/a"));
    assert_eq!(cfg.cli_config_path, Some(p("/c.toml")));
}

#[test]
fn log_messages_go_where_the_logger_says() {
    assert_eq!(log_destination(false, false, LogLevel::Info), None);
    assert_eq!(log_destination(false, true, LogLevel::Info), None);
    assert_eq!(log_destination(true, false, LogLevel::Info), Some(LogDestination::Stdout));
    assert_eq!(log_destination(false, false, LogLevel::Error), Some(LogDestination::Stderr));
    assert_eq!(log_destination(false, true, LogLevel::Error), Some(LogDestination::File));
    assert_eq!(log_destination(true, true, LogLevel::Info), Some(LogDestination::File));
}

#[test]
fn log_file_lines_carry_a_timestamp() {
    assert_eq!(file_log_line("2026-01-02 03:04:05", "Error adding watch"), "[2026-01-02 03:04:05] Error adding watch");
}

/// Adds the watches of every entry of `cfg` (no recursion), as the daemon
/// does, recording each watch that could be added.
fn fill(state: &mut InotifyState, cfg: &Cfg) {
    let below = cfg.entry.iter().map(|_| None).collect();
    let requests = plan_fill(cfg, below);
    let mut outcomes = Vec::new();
    for r in &requests {
        let path = std::path::Path::new(std::str::from_utf8(&r.target).unwrap());
        let mask = AddWatchFlags::from_bits_retain(r.mask);
        outcomes.push(state.inotify_fd.add_watch(path, mask).ok().map(|wd| (wd.as_raw(), wd)));
    }
    state.record_fill(&requests, outcomes);
}

fn dir_entry(dir: &tempfile::TempDir, events: u32) -> CfgEntry {
    CfgEntry { path: p(dir.path().to_str().unwrap()), recursive: false, script: p("/s.sh"), events }
}

#[test]
fn two_entries_on_two_directories_get_two_watches() {
    let dir_a = tempfile::tempdir().unwrap();
    let dir_b = tempfile::tempdir().unwrap();
    let cfg = Cfg { entry: vec![dir_entry(&dir_a, 0x100), dir_entry(&dir_b, 0x200)], cli_config_path: None };
    let mut state = new_state();
    fill(&mut state, &cfg);
    assert_eq!(state.watch_count(), 2);
}

#[test]
fn reload_then_rebuild_holds_the_watches_of_the_new_config() {
    let dir_a = tempfile::tempdir().unwrap();
    let dir_b = tempfile::tempdir().unwrap();
    let mut cfg = Cfg { entry: vec![dir_entry(&dir_a, 0x100)], cli_config_path: None };
    let mut state = new_state();
    fill(&mut state, &cfg);
    assert_eq!(state.watch_count(), 1);

    let updated = Cfg { entry: vec![dir_entry(&dir_a, 0x100), dir_entry(&dir_b, 0x200)], cli_config_path: None };
    for (_, wd) in reload_cfg(&mut state, &mut cfg, Some(updated)) {
        state.inotify_fd.rm_watch(wd).unwrap();
    }
    fill(&mut state, &cfg);

    assert_eq!(cfg.entry.len(), 2, "cfg should reflect the new entry");
    assert_eq!(state.watch_count(), 2, "watches should be rebuilt from the new cfg");
}

#[test]
fn vanished_watched_object_gets_no_watch() {
    let dir = tempfile::tempdir().unwrap();
    let cfg = Cfg { entry: vec![dir_entry(&dir, 0x100)], cli_config_path: None };
    drop(dir);
    let mut state = new_state();
    fill(&mut state, &cfg);
    assert_eq!(state.watch_count(), 0);
}

#[test]
fn signal_reads_handle_stop_or_retry() {
    assert_eq!(
        signal_read_step(SignalRead::Signal(nix::libc::SIGHUP as u32)),
        SignalStep::Handle(SignalAction::ReloadConfig)
    );
    assert_eq!(
        signal_read_step(SignalRead::Signal(nix::libc::SIGCHLD as u32)),
        SignalStep::Handle(SignalAction::ReapChildren)
    );
    assert_eq!(
        signal_read_step(SignalRead::Signal(nix::libc::SIGUSR1 as u32)),
        SignalStep::Handle(SignalAction::Unexpected)
    );
    assert_eq!(signal_read_step(SignalRead::Empty), SignalStep::Stop);
    assert_eq!(signal_read_step(SignalRead::Failed), SignalStep::ReportAndRetry);
}

#[test]
fn recording_a_fill_keeps_old_watches_and_the_later_duplicate_wins() {
    let a = tempfile::tempdir().unwrap();
    let b = tempfile::tempdir().unwrap();
    let (mut state, ka) = state_with_watch(&a, "/old.sh");
    let wb = state.inotify_fd.add_watch(b.path(), AddWatchFlags::IN_CREATE).unwrap();
    let wa = state.inotify_fd.add_watch(a.path(), AddWatchFlags::IN_DELETE).unwrap();
    assert_eq!(wa.as_raw(), ka);
    let reqs = vec![request("/b", "/new.sh"), request("/gone", "/new.sh")];
    state.record_fill(&reqs, vec![Some((wb.as_raw(), wb)), None]);
    assert_eq!(state.watch_count(), 2);
    assert_eq!(state.script_for(ka), Some(&p("/old.sh")));
    assert_eq!(state.script_for(wb.as_raw()), Some(&p("/new.sh")));
    let reqs = vec![request("/a", "/third.sh"), request("/b", "/other.sh")];
    state.record_fill(&reqs, vec![Some((wa.as_raw(), wa)), Some((wb.as_raw(), wb))]);
    assert_eq!(state.watch_count(), 2);
    assert_eq!(state.script_for(ka), Some(&p("/third.sh")));
    assert_eq!(state.script_for(wb.as_raw()), Some(&p("/other.sh")));
}

fn request(target: &str, script: &str) -> WatchRequest {
    WatchRequest { target: p(target), mask: 0x100, script: p(script) }
}

#[test]
fn fill_plans_every_entry_in_order_with_its_mask_and_script() {
    let cfg = Cfg {
        entry: vec![
            CfgEntry { path: p("/a"), recursive: true, script: p("/s1"), events: 0x100 },
            CfgEntry { path: p("/b"), recursive: false, script: p("/s2"), events: 0x200 },
        ],
        cli_config_path: None,
    };
    let requests = plan_fill(&cfg, vec![Some(vec![p("/a/x/y"), p("/a/x")]), None]);
    let got: Vec<(Vec<u8>, u32, Vec<u8>)> =
        requests.into_iter().map(|r| (r.target, r.mask, r.script)).collect();
    assert_eq!(
        got,
        vec![
            (p("/a"), 0x0200_0100, p("/s1")),
            (p("/a/x/y"), 0x0200_0100, p("/s1")),
            (p("/a/x"), 0x0200_0100, p("/s1")),
            (p("/b"), 0x0200_0200, p("/s2")),
        ]
    );
    assert_eq!(plan_fill(&cfg, vec![]).len(), 2);
}
