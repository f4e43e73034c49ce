//! The decisions of the daemon: what each event, signal and failure leads
//! to. The caller performs the system calls and hands their outcomes in.

use vstd::prelude::*;

use nix::sys::inotify::WatchDescriptor;

use crate::config::{Cfg, CfgEntry};
use crate::sys::{classify_signal, in_dont_follow, in_ignored, in_q_overflow, signal_kind_of, SignalKind};
use crate::watch::{requests_view, InotifyState, WatchEntry, WatchRequest};
use crate::{INOTIFY_EPOLL_TOKEN, SIGNAL_EPOLL_TOKEN};

verus! {

/// The bits of `IN_IGNORED`: the kernel dropped the watch.
pub open spec fn ignored_bits() -> u32 {
    0x8000u32
}

/// The bits of `IN_Q_OVERFLOW`: the event queue overflowed.
pub open spec fn overflow_bits() -> u32 {
    0x4000u32
}

/// The bits of `IN_DONT_FOLLOW`: a symbolic link is watched itself, not
/// what it points to.
pub open spec fn dont_follow_bits() -> u32 {
    0x0200_0000u32
}

/// Whether the event mask `mask` holds every bit of `flag`, as
/// `AddWatchFlags::contains` decides it.
pub open spec fn has_flag(mask: u32, flag: u32) -> bool {
    mask & flag == flag
}

/// What to do for one inotify event.
pub enum EventPlan {
    /// The kernel dropped the watch (`IN_IGNORED`): report it, run nothing.
    Ignored,
    /// Run `script`, the script of the watch. With `overflow`, report first
    /// that the event queue overflowed and events may have been lost.
    Run { script: Vec<u8>, overflow: bool },
    /// No watch has the event's number: report it, run nothing.
    NoScript { overflow: bool },
}

/// `plan` is what an event with watch number `key` and mask `mask` leads
/// to, given the scripts of the active watches.
pub open spec fn plans_event(scripts: Map<i32, Seq<u8>>, key: i32, mask: u32, plan: EventPlan) -> bool {
    if has_flag(mask, ignored_bits()) {
        plan is Ignored
    } else if scripts.contains_key(key) {
        plan matches EventPlan::Run { script, overflow }
            && script@ == scripts[key] && overflow == has_flag(mask, overflow_bits())
    } else {
        plan matches EventPlan::NoScript { overflow } && overflow == has_flag(mask, overflow_bits())
    }
}

/// Decides what one inotify event leads to: an event that reports a dropped
/// watch runs nothing; any other runs the script of its watch, if there is
/// a watch with its number.
pub fn plan_event(state: &InotifyState, key: i32, mask: u32) -> (plan: EventPlan)
    ensures
        plans_event(state.scripts(), key, mask, plan),
{
    let ignored = in_ignored();
    if mask & ignored == ignored {
        return EventPlan::Ignored;
    }
    let overflow_flag = in_q_overflow();
    let overflow = mask & overflow_flag == overflow_flag;
    match state.script_for(key) {
        Some(script) => EventPlan::Run { script: script.clone(), overflow },
        None => EventPlan::NoScript { overflow },
    }
}

/// Decides, in order, what each event of a batch read from the inotify
/// instance leads to. Each event is given as its watch number and mask.
pub fn plan_inotify_events(state: &InotifyState, events: &Vec<(i32, u32)>) -> (plans: Vec<EventPlan>)
    ensures
        plans@.len() == events@.len(),
        forall|i: int| 0 <= i < events@.len()
            ==> plans_event(state.scripts(), events@[i].0, events@[i].1, #[trigger] plans@[i]),
{
    let mut plans: Vec<EventPlan> = Vec::new();
    let n = events.len();
    let mut i: usize = 0;
    while i < n
        invariant
            n == events@.len(),
            i <= n,
            plans@.len() == i,
            forall|j: int| 0 <= j < i
                ==> plans_event(state.scripts(), events@[j].0, events@[j].1, #[trigger] plans@[j]),
        decreases n - i,
    {
        let (key, mask) = events[i];
        plans.push(plan_event(state, key, mask));
        i = i + 1;
    }
    plans
}

/// How a failed system call failed, sorted by the error numbers that matter
/// to the daemon.
#[derive(Clone, Copy, Debug, PartialEq, Eq, Structural)]
pub enum ErrnoKind {
    /// `EAGAIN`: nothing to read right now.
    Again,
    /// `EINTR`: interrupted by a signal.
    Interrupted,
    /// `ECHILD`: no child process to wait for.
    NoChild,
    /// Any other error.
    Other,
}

/// What a loop of reads does next.
#[derive(Clone, Copy, Debug, PartialEq, Eq, Structural)]
pub enum LoopStep {
    /// Leave the loop.
    Stop,
    /// Try the same call again.
    Retry,
    /// Give up: report the error and end the process.
    Fatal,
}

/// After reading the inotify instance failed: nothing more to read ends the
/// loop, an interruption retries, anything else is fatal.
pub fn inotify_read_step(failure: ErrnoKind) -> (step: LoopStep)
    ensures
        step == match failure {
            ErrnoKind::Again => LoopStep::Stop,
            ErrnoKind::Interrupted => LoopStep::Retry,
            _ => LoopStep::Fatal,
        },
{
    match failure {
        ErrnoKind::Again => LoopStep::Stop,
        ErrnoKind::Interrupted => LoopStep::Retry,
        _ => LoopStep::Fatal,
    }
}

/// After waiting on the epoll instance failed: an interruption waits again,
/// anything else is fatal.
pub fn epoll_wait_step(failure: ErrnoKind) -> (step: LoopStep)
    ensures
        step == (if failure == ErrnoKind::Interrupted { LoopStep::Retry } else { LoopStep::Fatal }),
{
    match failure {
        ErrnoKind::Interrupted => LoopStep::Retry,
        _ => LoopStep::Fatal,
    }
}

/// The descriptor that an epoll event reports as ready.
#[derive(Clone, Copy, Debug, PartialEq, Eq, Structural)]
pub enum EpollSource {
    Inotify,
    Signal,
}

/// Which descriptor an epoll event with data `token` is about; `None` for a
/// token under which nothing was registered.
pub fn dispatch_token(token: u64) -> (source: Option<EpollSource>)
    ensures
        source == (if token == INOTIFY_EPOLL_TOKEN {
            Some(EpollSource::Inotify)
        } else if token == SIGNAL_EPOLL_TOKEN {
            Some(EpollSource::Signal)
        } else {
            None::<EpollSource>
        }),
{
    if token == INOTIFY_EPOLL_TOKEN {
        Some(EpollSource::Inotify)
    } else if token == SIGNAL_EPOLL_TOKEN {
        Some(EpollSource::Signal)
    } else {
        None
    }
}

/// What a signal read from the signal descriptor leads to.
#[derive(Clone, Copy, Debug, PartialEq, Eq, Structural)]
pub enum SignalAction {
    /// `SIGHUP`: read the configuration again and rebuild the watches.
    ReloadConfig,
    /// `SIGCHLD`: collect the scripts that have finished.
    ReapChildren,
    /// Any other signal, which is never unblocked: a fault.
    Unexpected,
    /// A number that is no signal: a fault.
    Unknown,
}

/// The action for a signal of a given kind.
pub open spec fn action_for(kind: SignalKind) -> SignalAction {
    match kind {
        SignalKind::Hangup => SignalAction::ReloadConfig,
        SignalKind::ChildExited => SignalAction::ReapChildren,
        SignalKind::Unexpected => SignalAction::Unexpected,
        SignalKind::Unknown => SignalAction::Unknown,
    }
}

/// Decides what the signal numbered `signo` leads to.
pub fn signal_action(signo: u32) -> (action: SignalAction)
    ensures
        action == action_for(signal_kind_of(signo)),
        signo == 1 ==> action == SignalAction::ReloadConfig,
{
    match classify_signal(signo) {
        SignalKind::Hangup => SignalAction::ReloadConfig,
        SignalKind::ChildExited => SignalAction::ReapChildren,
        SignalKind::Unexpected => SignalAction::Unexpected,
        SignalKind::Unknown => SignalAction::Unknown,
    }
}

/// Law: a signal is handled without fault exactly when it is `SIGHUP` or
/// `SIGCHLD`; any other signal, or a number that is no signal, is a fault
/// (the signal descriptor must be set up for those two signals only).
pub proof fn law_only_hangup_and_child_exit_are_handled(signo: u32)
    ensures
        (action_for(signal_kind_of(signo)) == SignalAction::ReloadConfig
            || action_for(signal_kind_of(signo)) == SignalAction::ReapChildren)
            <==> (signal_kind_of(signo) == SignalKind::Hangup || signal_kind_of(signo) == SignalKind::ChildExited),
{
}

/// What one read of the signal descriptor gave back.
#[derive(Clone, Copy, Debug, PartialEq, Eq, Structural)]
pub enum SignalRead {
    /// A pending signal, by number.
    Signal(u32),
    /// No signal pending.
    Empty,
    /// The read failed.
    Failed,
}

/// What the loop that drains the signal descriptor does next.
#[derive(Clone, Copy, Debug, PartialEq, Eq, Structural)]
pub enum SignalStep {
    /// Carry the action out, then read again.
    Handle(SignalAction),
    /// Nothing is pending: leave the loop.
    Stop,
    /// Report the failed read and read again.
    ReportAndRetry,
}

/// Decides what one read of the signal descriptor leads to: a signal is
/// handled, an empty descriptor ends the loop, a failed read is reported
/// and the loop reads again.
pub fn signal_read_step(read: SignalRead) -> (step: SignalStep)
    ensures
        step == match read {
            SignalRead::Signal(signo) => SignalStep::Handle(action_for(signal_kind_of(signo))),
            SignalRead::Empty => SignalStep::Stop,
            SignalRead::Failed => SignalStep::ReportAndRetry,
        },
        read == SignalRead::Signal(1) ==> step == SignalStep::Handle(SignalAction::ReloadConfig),
{
    match read {
        SignalRead::Signal(signo) => SignalStep::Handle(signal_action(signo)),
        SignalRead::Empty => SignalStep::Stop,
        SignalRead::Failed => SignalStep::ReportAndRetry,
    }
}

/// What one non-blocking wait for any child process gave back.
#[derive(Clone, Copy, Debug, PartialEq, Eq, Structural)]
pub enum ReapOutcome {
    /// Children exist but none has finished.
    StillAlive,
    /// A child changed state and was collected.
    Collected,
    /// The wait failed.
    Failed(ErrnoKind),
}

/// Whether to wait again after a wait for children: the loop ends when the
/// remaining children are all still running or there are none left; any
/// other outcome waits again.
pub fn reap_again(outcome: ReapOutcome) -> (again: bool)
    ensures
        again == !(outcome == ReapOutcome::StillAlive || outcome == ReapOutcome::Failed(ErrnoKind::NoChild)),
{
    match outcome {
        ReapOutcome::StillAlive => false,
        ReapOutcome::Failed(ErrnoKind::NoChild) => false,
        _ => true,
    }
}

/// Whether the directories below an entry's path are watched as well: only
/// for a recursive entry whose path is a directory (following links) and is
/// not itself a symbolic link.
pub fn wants_recursive_walk(entry: &CfgEntry, is_dir: bool, is_symlink: bool) -> (walk: bool)
    ensures
        walk == (entry.recursive && is_dir && !is_symlink),
{
    entry.recursive && is_dir && !is_symlink
}

/// The mask each watch of an entry is added with: the entry's events, and
/// symbolic links are never followed.
pub fn watch_mask(entry: &CfgEntry) -> (mask: u32)
    ensures
        mask == entry.events | dont_follow_bits(),
{
    entry.events | in_dont_follow()
}

/// The objects watched for an entry: its path, then every directory found
/// below it (none when the walk was not made or its root could not be
/// read).
pub fn watch_targets(entry: &CfgEntry, below: Option<Vec<Vec<u8>>>) -> (targets: Vec<Vec<u8>>)
    ensures
        targets.deep_view() == seq![entry.path@] + match below {
            Some(dirs) => dirs.deep_view(),
            None => Seq::empty(),
        },
{
    let mut targets: Vec<Vec<u8>> = Vec::new();
    let root = entry.path.clone();
    assert(root.deep_view() =~= entry.path@);
    targets.push(root);
    let ghost first = targets.deep_view();
    assert(first =~= seq![entry.path@]);
    match below {
        Some(dirs) => {
            let n = dirs.len();
            let mut i: usize = 0;
            while i < n
                invariant
                    n == dirs@.len(),
                    i <= n,
                    targets.deep_view() =~= first + dirs.deep_view().take(i as int),
                decreases n - i,
            {
                let d = dirs[i].clone();
                assert(d.deep_view() =~= dirs@[i as int].deep_view());
                let ghost mid = targets.deep_view();
                let ghost pushed = targets@.push(d);
                targets.push(d);
                assert(targets@ == pushed);
                assert(targets.deep_view()[mid.len() as int] == dirs.deep_view()[i as int]);
                assert(targets.deep_view() =~= mid.push(dirs.deep_view()[i as int]));
                i = i + 1;
            }
            assert(dirs.deep_view().take(n as int) =~= dirs.deep_view());
        },
        None => {},
    }
    targets
}

/// The directories found below entry `i`, from the walks made for the
/// entries: none when no walk was made for it or its root could not be
/// read.
pub open spec fn below_at(below: Seq<Option<Vec<Vec<u8>>>>, i: int) -> Seq<Seq<u8>> {
    if 0 <= i < below.len() {
        match below[i] {
            Some(dirs) => dirs.deep_view(),
            None => Seq::empty(),
        }
    } else {
        Seq::empty()
    }
}

/// The watches to add for one entry, in order: its path, then each
/// directory found below it, each with the entry's mask (its events, links
/// never followed) and its script.
pub open spec fn entry_requests(entry: CfgEntry, below: Seq<Seq<u8>>) -> Seq<(Seq<u8>, u32, Seq<u8>)> {
    (seq![entry.path@] + below).map_values(|t: Seq<u8>| (t, entry.events | dont_follow_bits(), entry.script@))
}

/// The watches to add for a whole configuration: those of each entry, in
/// the order of the entries.
pub open spec fn fill_requests(entries: Seq<CfgEntry>, below: Seq<Option<Vec<Vec<u8>>>>) -> Seq<(Seq<u8>, u32, Seq<u8>)>
    decreases entries.len(),
{
    if entries.len() == 0 {
        Seq::empty()
    } else {
        fill_requests(entries.drop_last(), below) + entry_requests(entries.last(), below_at(below, entries.len() - 1))
    }
}

/// Law: planning the watches of a configuration watches every entry's path
/// and every directory found below entry `i` (`below[i]`), each with that
/// entry's events together with `IN_DONT_FOLLOW` (0x0200_0000) and that
/// entry's script.
pub proof fn law_fill_plans_every_object(entries: Seq<CfgEntry>, below: Seq<Option<Vec<Vec<u8>>>>, i: int, k: int)
    requires
        0 <= i < entries.len(),
    ensures
        fill_requests(entries, below).contains(
            (entries[i].path@, entries[i].events | 0x0200_0000u32, entries[i].script@),
        ),
        (i < below.len() && below[i] is Some && 0 <= k < below[i]->Some_0@.len()) ==> fill_requests(entries, below).contains(
            (below[i]->Some_0@[k]@, entries[i].events | 0x0200_0000u32, entries[i].script@),
        ),
    decreases entries.len(),
{
    let n = entries.len() as int;
    let pre = entries.drop_last();
    let a = fill_requests(pre, below);
    let bl = below_at(below, n - 1);
    let er = entry_requests(entries.last(), bl);
    let fr = fill_requests(entries, below);
    assert(fr == a + er);
    let path_req = (entries[i].path@, entries[i].events | 0x0200_0000u32, entries[i].script@);
    if i < n - 1 {
        law_fill_plans_every_object(pre, below, i, k);
        assert(pre[i] == entries[i]);
        let j = choose|j: int| 0 <= j < a.len() && a[j] == path_req;
        assert(fr[j] == path_req);
        if i < below.len() && below[i] is Some && 0 <= k < below[i]->Some_0@.len() {
            let dir_req = (below[i]->Some_0@[k]@, entries[i].events | 0x0200_0000u32, entries[i].script@);
            let j2 = choose|j: int| 0 <= j < a.len() && a[j] == dir_req;
            assert(fr[j2] == dir_req);
        }
    } else {
        assert(entries.last() == entries[i]);
        assert(er[0] == path_req);
        assert(fr[a.len() as int] == path_req);
        if i < below.len() && below[i] is Some && 0 <= k < below[i]->Some_0@.len() {
            let dirs = below[i]->Some_0;
            assert(bl == dirs.deep_view());
            assert(dirs.deep_view()[k] == dirs@[k]@);
            let dir_req = (dirs@[k]@, entries[i].events | 0x0200_0000u32, entries[i].script@);
            assert(er[k + 1] == dir_req);
            assert(fr[a.len() + k + 1] == dir_req);
        }
    }
}

/// Law: watches are planned entry by entry, in order. A configuration with
/// no entry plans nothing, and adding one more entry `e` at the end keeps
/// the plan of the others and adds, after it, the watch of `e`'s path and
/// then one watch per directory found below `e` (its walk, when it has one
/// that could be read), in the order of the walk, all with `e`'s events
/// together with `IN_DONT_FOLLOW` and `e`'s script.
pub proof fn law_fill_appends_each_entry(entries: Seq<CfgEntry>, e: CfgEntry, below: Seq<Option<Vec<Vec<u8>>>>)
    ensures
        fill_requests(Seq::<CfgEntry>::empty(), below) == Seq::<(Seq<u8>, u32, Seq<u8>)>::empty(),
        fill_requests(entries.push(e), below) == fill_requests(entries, below)
            + seq![(e.path@, e.events | 0x0200_0000u32, e.script@)]
            + (if entries.len() < below.len() && below[entries.len() as int] is Some {
                below[entries.len() as int]->Some_0.deep_view()
            } else {
                Seq::<Seq<u8>>::empty()
            }).map_values(|d: Seq<u8>| (d, e.events | 0x0200_0000u32, e.script@)),
{
    let all = entries.push(e);
    assert(all.drop_last() == entries);
    let dirs = if entries.len() < below.len() && below[entries.len() as int] is Some {
        below[entries.len() as int]->Some_0.deep_view()
    } else {
        Seq::<Seq<u8>>::empty()
    };
    assert(below_at(below, entries.len() as int) == dirs);
    let f = |d: Seq<u8>| (d, e.events | 0x0200_0000u32, e.script@);
    assert(entry_requests(e, dirs) =~= seq![(e.path@, e.events | 0x0200_0000u32, e.script@)] + dirs.map_values(f));
    assert(fill_requests(all, below) =~= fill_requests(entries, below)
        + seq![(e.path@, e.events | 0x0200_0000u32, e.script@)] + dirs.map_values(f));
}

/// Law: every watch planned for a configuration belongs to one of its
/// entries: it carries that entry's events with `IN_DONT_FOLLOW` and that
/// entry's script, and watches the entry's path or a directory found below
/// it.
pub proof fn law_fill_plans_nothing_else(entries: Seq<CfgEntry>, below: Seq<Option<Vec<Vec<u8>>>>, r: (Seq<u8>, u32, Seq<u8>))
    requires
        fill_requests(entries, below).contains(r),
    ensures
        exists|i: int| #![trigger entries[i]]
            0 <= i < entries.len() && r.1 == entries[i].events | 0x0200_0000u32 && r.2 == entries[i].script@
                && (r.0 == entries[i].path@ || (i < below.len() && below[i] is Some
                    && below[i]->Some_0.deep_view().contains(r.0))),
    decreases entries.len(),
{
    let n = entries.len() as int;
    let pre = entries.drop_last();
    let a = fill_requests(pre, below);
    let bl = below_at(below, n - 1);
    let er = entry_requests(entries.last(), bl);
    let fr = fill_requests(entries, below);
    assert(fr == a + er);
    let j = choose|j: int| 0 <= j < fr.len() && fr[j] == r;
    if j < a.len() {
        assert(a[j] == r);
        law_fill_plans_nothing_else(pre, below, r);
        let i = choose|i: int| #![trigger pre[i]]
            0 <= i < pre.len() && r.1 == pre[i].events | 0x0200_0000u32 && r.2 == pre[i].script@
                && (r.0 == pre[i].path@ || (i < below.len() && below[i] is Some
                    && below[i]->Some_0.deep_view().contains(r.0)));
        assert(pre[i] == entries[i]);
    } else {
        let idx = j - a.len();
        let i = n - 1;
        assert(entries.last() == entries[i]);
        assert(er[idx] == r);
        if idx > 0 {
            assert(bl[idx - 1] == r.0);
            assert(i < below.len() && below[i] is Some);
            assert(below[i]->Some_0.deep_view().contains(r.0));
        }
        assert(entries[i] == entries[i]);
    }
}

/// Plans the watches of a whole configuration: for each entry in turn, its
/// path and then every directory found below it (`below[i]`, the walk made
/// for entry `i`, if one was made and its root could be read), each with
/// the entry's events and `IN_DONT_FOLLOW`, and the entry's script. The
/// watches are then added in this order.
pub fn plan_fill(cfg: &Cfg, below: Vec<Option<Vec<Vec<u8>>>>) -> (requests: Vec<WatchRequest>)
    ensures
        requests_view(requests@) == fill_requests(cfg.entry@, below@),
        forall|i: int| 0 <= i < cfg.entry@.len() ==> requests_view(requests@).contains(
            ((#[trigger] cfg.entry@[i]).path@, cfg.entry@[i].events | 0x0200_0000u32, cfg.entry@[i].script@),
        ),
        forall|i: int, k: int| 0 <= i < cfg.entry@.len() && 0 <= i < below@.len() && (#[trigger] below@[i]) is Some
            && 0 <= k < below@[i]->Some_0@.len() ==> requests_view(requests@).contains(
            ((#[trigger] below@[i]->Some_0@[k])@, cfg.entry@[i].events | 0x0200_0000u32, cfg.entry@[i].script@),
        ),
        forall|r: (Seq<u8>, u32, Seq<u8>)| #[trigger] requests_view(requests@).contains(r) ==> exists|i: int|
            #![trigger cfg.entry@[i]]
            0 <= i < cfg.entry@.len() && r.1 == cfg.entry@[i].events | 0x0200_0000u32 && r.2 == cfg.entry@[i].script@
                && (r.0 == cfg.entry@[i].path@ || (i < below@.len() && below@[i] is Some
                    && below@[i]->Some_0.deep_view().contains(r.0))),
{
    let ghost orig = below@;
    let mut rest = below;
    let mut requests: Vec<WatchRequest> = Vec::new();
    let n = cfg.entry.len();
    let mut i: usize = 0;
    assert(cfg.entry@.take(0) =~= Seq::<CfgEntry>::empty());
    assert(requests_view(requests@) =~= Seq::<(Seq<u8>, u32, Seq<u8>)>::empty());
    while i < n
        invariant
            n == cfg.entry@.len(),
            i <= n,
            rest@.len() == (if i <= orig.len() { orig.len() - i } else { 0 }),
            forall|k: int| 0 <= k < rest@.len() ==> #[trigger] rest@[k] == orig[k + i],
            requests_view(requests@) == fill_requests(cfg.entry@.take(i as int), orig),
        decreases n - i,
    {
        let entry = &cfg.entry[i];
        let found = if rest.len() > 0 {
            rest.remove(0)
        } else {
            None
        };
        let ghost bl = below_at(orig, i as int);
        assert(match found {
            Some(d) => d.deep_view(),
            None => Seq::<Seq<u8>>::empty(),
        } == bl);
        let targets = watch_targets(entry, found);
        let mask = watch_mask(entry);
        let ghost base = requests_view(requests@);
        let ghost want = entry_requests(*entry, bl);
        assert(targets.deep_view() == seq![entry.path@] + bl);
        let m = targets.len();
        let mut j: usize = 0;
        assert(want.take(0) =~= Seq::<(Seq<u8>, u32, Seq<u8>)>::empty());
        assert(base + want.take(0) =~= base);
        while j < m
            invariant
                m == targets@.len(),
                targets.deep_view() == seq![entry.path@] + bl,
                want == entry_requests(*entry, bl),
                want.len() == m,
                mask == entry.events | dont_follow_bits(),
                j <= m,
                requests_view(requests@) == base + want.take(j as int),
            decreases m - j,
        {
            let target = targets[j].clone();
            assert(target@ =~= targets.deep_view()[j as int]);
            let script = entry.script.clone();
            assert(script@ =~= entry.script@);
            let ghost before = requests_view(requests@);
            let r = WatchRequest { target, mask, script };
            requests.push(r);
            assert(requests_view(requests@) =~= before.push((target@, mask, script@)));
            assert(want[j as int] == (target@, mask, script@));
            assert(base + want.take(j + 1) =~= (base + want.take(j as int)).push(want[j as int]));
            j = j + 1;
        }
        assert(want.take(m as int) == want);
        assert(cfg.entry@.take(i + 1).drop_last() == cfg.entry@.take(i as int));
        assert(cfg.entry@.take(i + 1).last() == cfg.entry@[i as int]);
        assert(fill_requests(cfg.entry@.take(i + 1), orig) == fill_requests(cfg.entry@.take(i as int), orig) + want);
        i = i + 1;
    }
    assert(cfg.entry@.take(n as int) == cfg.entry@);
    proof {
        assert forall|i: int| 0 <= i < cfg.entry@.len() implies requests_view(requests@).contains(
            ((#[trigger] cfg.entry@[i]).path@, cfg.entry@[i].events | 0x0200_0000u32, cfg.entry@[i].script@),
        ) by {
            law_fill_plans_every_object(cfg.entry@, orig, i, 0);
        }
        assert forall|i: int, k: int| 0 <= i < cfg.entry@.len() && 0 <= i < orig.len() && (#[trigger] orig[i]) is Some
            && 0 <= k < orig[i]->Some_0@.len() implies requests_view(requests@).contains(
            ((#[trigger] orig[i]->Some_0@[k])@, cfg.entry@[i].events | 0x0200_0000u32, cfg.entry@[i].script@),
        ) by {
            law_fill_plans_every_object(cfg.entry@, orig, i, k);
        }
        assert forall|r: (Seq<u8>, u32, Seq<u8>)| #[trigger] requests_view(requests@).contains(r) implies exists|i: int|
            #![trigger cfg.entry@[i]]
            0 <= i < cfg.entry@.len() && r.1 == cfg.entry@[i].events | 0x0200_0000u32 && r.2 == cfg.entry@[i].script@
                && (r.0 == cfg.entry@[i].path@ || (i < orig.len() && orig[i] is Some
                    && orig[i]->Some_0.deep_view().contains(r.0))) by {
            law_fill_plans_nothing_else(cfg.entry@, orig, r);
        }
    }
    requests
}

/// Handles a configuration reload: the newly read configuration replaces
/// the current one, unless reading it failed (`None`), in which case the
/// current one stays; either way every watch is forgotten, and the
/// descriptors to remove from the inotify instance are given back, so that
/// the watches can be rebuilt from the configuration now in force.
pub fn reload_cfg(state: &mut InotifyState, cfg: &mut Cfg, loaded: Option<Cfg>) -> (removed: Vec<(i32, WatchDescriptor)>)
    ensures
        *final(cfg) == match loaded {
            Some(c) => c,
            None => *old(cfg),
        },
        final(state).inotify_fd == old(state).inotify_fd,
        final(state).wd_to_script@ == Map::<i32, crate::watch::WatchEntry>::empty(),
        removed@.len() == old(state).wd_to_script@.len(),
        removed@.map_values(|p: (i32, WatchDescriptor)| p.0).to_set() == old(state).wd_to_script@.dom(),
        forall|i: int| 0 <= i < removed@.len() ==> {
            &&& old(state).wd_to_script@.contains_key(#[trigger] removed@[i].0)
            &&& old(state).wd_to_script@[removed@[i].0].wd == removed@[i].1
        },
{
    match loaded {
        Some(c) => {
            *cfg = c;
        },
        None => {},
    }
    state.del_watches()
}

/// Law: after a watch is recorded under a number, an event with that
/// number that does not report a dropped watch runs the script just
/// recorded; the watches under other numbers are untouched.
pub proof fn law_recorded_watch_runs_its_script(
    before: InotifyState,
    after: InotifyState,
    key: i32,
    wd: WatchDescriptor,
    script: Vec<u8>,
    mask: u32,
    plan: EventPlan,
)
    requires
        after.wd_to_script@ == before.wd_to_script@.insert(key, WatchEntry { wd, script }),
        !has_flag(mask, ignored_bits()),
        plans_event(after.scripts(), key, mask, plan),
    ensures
        plan matches EventPlan::Run { script: s, overflow } && s@ == script@
            && overflow == has_flag(mask, overflow_bits()),
        forall|other: i32| other != key ==> (#[trigger] after.wd_to_script@.contains_key(other)
            == before.wd_to_script@.contains_key(other))
            && (before.wd_to_script@.contains_key(other) ==> after.scripts()[other] == before.scripts()[other]),
{
    assert(after.scripts().contains_key(key));
}

/// Law: an event that reports a dropped watch never runs a script.
pub proof fn law_dropped_watch_runs_nothing(scripts: Map<i32, Seq<u8>>, key: i32, mask: u32, plan: EventPlan)
    requires
        has_flag(mask, ignored_bits()),
        plans_event(scripts, key, mask, plan),
    ensures
        plan is Ignored,
{
}

} // verus!
