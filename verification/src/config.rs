//! The configuration: what to watch, how, and which script to run.

use vstd::prelude::*;
use vstd::string::StringExecFns;
use vstd::string::StringSliceAdditionalSpecFns;

use crate::sys::{inotify_flag_from_name, inotify_flag_table};

verus! {

/// One watched object of a validated configuration.
pub struct CfgEntry {
    /// Absolute path of the watched object.
    pub path: Vec<u8>,
    /// Whether every directory below `path` is watched as well.
    pub recursive: bool,
    /// Absolute path of the script run on every event.
    pub script: Vec<u8>,
    /// The inotify event mask that is watched for.
    pub events: u32,
}

/// A validated configuration.
pub struct Cfg {
    /// The watched objects, in the order the configuration lists them.
    pub entry: Vec<CfgEntry>,
    /// The configuration path given on the command line, if any; a reload
    /// reads the configuration from the same place again.
    pub cli_config_path: Option<Vec<u8>>,
}

/// One `[[watch]]` table of a configuration file as written, together with
/// whether the two paths it names existed when it was read.
pub struct RawCfgEntry {
    pub path: Vec<u8>,
    pub recursive: bool,
    pub script: Vec<u8>,
    /// Event names such as `create`, matched without regard to case.
    pub events: Vec<String>,
    pub path_exists: bool,
    pub script_exists: bool,
}

/// Why a configuration entry is refused.
pub enum ConfigError {
    /// A path (watched object or script) is not absolute.
    NotAbsolute(Vec<u8>),
    /// The watched object does not exist.
    WatchedMissing(Vec<u8>),
    /// The script does not exist.
    ScriptMissing(Vec<u8>),
    /// An event name that names no inotify event.
    UnknownEvent(String),
}

/// The mathematical value of a [`ConfigError`].
pub enum ConfigErrorView {
    NotAbsolute(Seq<u8>),
    WatchedMissing(Seq<u8>),
    ScriptMissing(Seq<u8>),
    UnknownEvent(Seq<char>),
}

impl View for ConfigError {
    type V = ConfigErrorView;

    open spec fn view(&self) -> ConfigErrorView {
        match self {
            ConfigError::NotAbsolute(p) => ConfigErrorView::NotAbsolute(p@),
            ConfigError::WatchedMissing(p) => ConfigErrorView::WatchedMissing(p@),
            ConfigError::ScriptMissing(p) => ConfigErrorView::ScriptMissing(p@),
            ConfigError::UnknownEvent(n) => ConfigErrorView::UnknownEvent(n@),
        }
    }
}

/// The byte `/`.
pub open spec fn slash() -> u8 {
    47u8
}

/// A Unix path is absolute when it starts with the root `/`.
pub open spec fn spec_is_absolute(path: Seq<u8>) -> bool {
    path.len() > 0 && path[0] == slash()
}

/// Whether `path` is absolute, as `std::path::Path::is_absolute` decides it
/// on Unix: the path starts with `/`.
pub fn is_absolute(path: &Vec<u8>) -> (absolute: bool)
    ensures
        absolute == spec_is_absolute(path@),
        absolute == (path@.len() > 0 && path@[0] == 47u8),
{
    path.len() > 0 && path[0] == 47u8
}

/// Law: whether a path is absolute is decided by its first byte alone: a
/// path is absolute exactly when it starts with `/`, and adding bytes at its
/// end (a trailing `/`, more components) never changes whether a non-empty
/// path is absolute.
pub proof fn law_absolute_is_decided_by_the_first_byte(path: Seq<u8>, more: Seq<u8>)
    ensures
        spec_is_absolute(path) <==> (path.len() > 0 && path[0] == 47u8),
        path.len() > 0 ==> (spec_is_absolute(path + more) == spec_is_absolute(path)),
        !spec_is_absolute(Seq::<u8>::empty()),
{
    if path.len() > 0 {
        assert((path + more)[0] == path[0]);
    }
}

/// Why a watched path is refused, if it is.
pub open spec fn watched_path_error(path: Seq<u8>, exists: bool) -> Option<ConfigErrorView> {
    if !spec_is_absolute(path) {
        Some(ConfigErrorView::NotAbsolute(path))
    } else if !exists {
        Some(ConfigErrorView::WatchedMissing(path))
    } else {
        None
    }
}

/// Why a script path is refused, if it is.
pub open spec fn script_path_error(path: Seq<u8>, exists: bool) -> Option<ConfigErrorView> {
    if !spec_is_absolute(path) {
        Some(ConfigErrorView::NotAbsolute(path))
    } else if !exists {
        Some(ConfigErrorView::ScriptMissing(path))
    } else {
        None
    }
}

/// Accepts the path of a watched object when it is absolute and exists.
pub fn check_path(path: Vec<u8>, exists: bool) -> (checked: Result<Vec<u8>, ConfigError>)
    ensures
        match checked {
            Ok(p) => p@ == path@ && watched_path_error(path@, exists) is None,
            Err(e) => watched_path_error(path@, exists) == Some(e@),
        },
        (checked is Ok) <==> (path@.len() > 0 && path@[0] == 47u8 && exists),
{
    if !is_absolute(&path) {
        return Err(ConfigError::NotAbsolute(path));
    }
    if !exists {
        return Err(ConfigError::WatchedMissing(path));
    }
    Ok(path)
}

/// Accepts the path of a script when it is absolute and exists.
pub fn check_script(path: Vec<u8>, exists: bool) -> (checked: Result<Vec<u8>, ConfigError>)
    ensures
        match checked {
            Ok(p) => p@ == path@ && script_path_error(path@, exists) is None,
            Err(e) => script_path_error(path@, exists) == Some(e@),
        },
        (checked is Ok) <==> (path@.len() > 0 && path@[0] == 47u8 && exists),
{
    if !is_absolute(&path) {
        return Err(ConfigError::NotAbsolute(path));
    }
    if !exists {
        return Err(ConfigError::ScriptMissing(path));
    }
    Ok(path)
}

/// What `str::to_uppercase` makes of `s`.
pub uninterp spec fn upper_case(s: Seq<char>) -> Seq<char>;

/// Every character of `s` is ASCII.
pub open spec fn all_ascii(s: Seq<char>) -> bool {
    forall|i: int| 0 <= i < s.len() ==> (#[trigger] s[i] as u32) < 128
}

/// `s` with each ASCII lower-case letter `a` to `z` made the upper-case
/// letter `A` to `Z`, every other character kept.
pub open spec fn ascii_upper(s: Seq<char>) -> Seq<char> {
    s.map_values(|c: char| if 'a' <= c && c <= 'z' { ((c as u32) - 32) as char } else { c })
}

/// Upper-cases `s` with `str::to_uppercase` (Unicode upper-casing). The
/// contract names the result, and states what it is on ASCII text: the
/// letters `a` to `z` become `A` to `Z`, every other ASCII character stays.
#[verifier::external_body]
fn to_upper(s: &str) -> (upper: String)
    ensures
        upper@ == upper_case(s@),
        all_ascii(s@) ==> upper@ == ascii_upper(s@),
{
    s.to_uppercase()
}

/// The name of the inotify flag for the upper-cased event name `upper`:
/// `IN_` followed by it.
pub fn flag_name(upper: &str) -> (key: String)
    ensures
        key@ == seq!['I', 'N', '_'] + upper@,
{
    proof {
        reveal_strlit("IN_");
    }
    let key = String::from_str("IN_").concat(upper);
    assert(key@ =~= seq!['I', 'N', '_'] + upper@);
    key
}

/// The name under which the inotify flag for the event name `name` is
/// looked up: `IN_` followed by the upper-cased name.
pub open spec fn flag_key(name: Seq<char>) -> Seq<char> {
    seq!['I', 'N', '_'] + upper_case(name)
}

/// The bits of the inotify event named `name` (such as `create`), if any.
pub open spec fn event_flag(name: Seq<char>) -> Option<u32> {
    inotify_flag_table(flag_key(name))
}

/// Reads a list of event names, given the flag each one stands for (`None`
/// for an unknown name): the union of all the flags, or the first name
/// that stands for none.
pub open spec fn flags_outcome(names: Seq<Seq<char>>, flags: Seq<Option<u32>>) -> Result<u32, Seq<char>>
    recommends
        names.len() == flags.len(),
    decreases flags.len(),
{
    if flags.len() == 0 {
        Ok(0u32)
    } else {
        match flags_outcome(names.drop_last(), flags.drop_last()) {
            Err(name) => Err(name),
            Ok(mask) => match flags.last() {
                Some(bits) => Ok(mask | bits),
                None => Err(names.last()),
            },
        }
    }
}

/// The views of a list of strings.
pub open spec fn strings_view(names: Seq<String>) -> Seq<Seq<char>> {
    names.map_values(|n: String| n@)
}

/// Reads a list of event names: the union of their flags, or the first
/// name that names no event.
pub open spec fn events_outcome(names: Seq<String>) -> Result<u32, Seq<char>> {
    flags_outcome(strings_view(names), strings_view(names).map_values(|n: Seq<char>| event_flag(n)))
}

/// Once a prefix of the names holds an unknown one, every longer prefix
/// gives the same error.
proof fn lemma_outcome_error_stays(names: Seq<Seq<char>>, flags: Seq<Option<u32>>, i: int, j: int)
    requires
        names.len() == flags.len(),
        0 <= i <= j <= flags.len(),
        flags_outcome(names.take(i), flags.take(i)) is Err,
    ensures
        flags_outcome(names.take(j), flags.take(j)) == flags_outcome(names.take(i), flags.take(i)),
    decreases j - i,
{
    if j > i {
        lemma_outcome_error_stays(names, flags, i, j - 1);
        assert(names.take(j).drop_last() == names.take(j - 1));
        assert(flags.take(j).drop_last() == flags.take(j - 1));
    }
}

/// Combines the flags looked up for a list of event names, in order: the
/// union of all the flags, or `UnknownEvent` with the first name whose
/// lookup gave nothing.
pub fn combine_event_flags(names: &Vec<String>, flags: &Vec<Option<u32>>) -> (mask: Result<u32, ConfigError>)
    requires
        names.len() == flags.len(),
    ensures
        match mask {
            Ok(m) => flags_outcome(strings_view(names@), flags@) == Ok::<u32, Seq<char>>(m),
            Err(e) => flags_outcome(strings_view(names@), flags@) matches Err(n)
                && e@ == ConfigErrorView::UnknownEvent(n),
        },
{
    let ghost nv = strings_view(names@);
    let n = flags.len();
    let mut acc: u32 = 0;
    let mut i: usize = 0;
    assert(nv.take(0) =~= Seq::<Seq<char>>::empty());
    assert(flags@.take(0) =~= Seq::<Option<u32>>::empty());
    while i < n
        invariant
            n == flags@.len(),
            n == names@.len(),
            nv == strings_view(names@),
            i <= n,
            flags_outcome(nv.take(i as int), flags@.take(i as int)) == Ok::<u32, Seq<char>>(acc),
        decreases n - i,
    {
        assert(nv.take(i + 1).drop_last() == nv.take(i as int));
        assert(flags@.take(i + 1).drop_last() == flags@.take(i as int));
        match flags[i] {
            Some(bits) => {
                acc = acc | bits;
            },
            None => {
                let name = names[i].clone();
                proof {
                    assert(nv.take(i + 1).last() == names@[i as int]@);
                    lemma_outcome_error_stays(nv, flags@, i + 1, n as int);
                    assert(nv.take(n as int) == nv);
                    assert(flags@.take(n as int) == flags@);
                }
                return Err(ConfigError::UnknownEvent(name));
            },
        }
        i = i + 1;
    }
    assert(nv.take(n as int) == nv);
    assert(flags@.take(n as int) == flags@);
    Ok(acc)
}

/// Reads the event names of a configuration entry into an inotify event
/// mask: each name is upper-cased, prefixed with `IN_` and looked up among
/// the flags of `nix`; the result is the union of the flags, or
/// `UnknownEvent` with the first name that names no event.
pub fn parse_events(names: &Vec<String>) -> (mask: Result<u32, ConfigError>)
    ensures
        match mask {
            Ok(m) => events_outcome(names@) == Ok::<u32, Seq<char>>(m),
            Err(e) => events_outcome(names@) matches Err(n) && e@ == ConfigErrorView::UnknownEvent(n),
        },
        (forall|i: int| 0 <= i < names@.len() ==> all_ascii(#[trigger] names@[i]@)) ==> match mask {
            Ok(m) => ascii_events_outcome(names@) == Ok::<u32, Seq<char>>(m),
            Err(e) => ascii_events_outcome(names@) matches Err(n) && e@ == ConfigErrorView::UnknownEvent(n),
        },
{
    let ghost nv = strings_view(names@);
    let mut flags: Vec<Option<u32>> = Vec::new();
    let n = names.len();
    let mut i: usize = 0;
    while i < n
        invariant
            n == names@.len(),
            nv == strings_view(names@),
            i <= n,
            flags@.len() == i,
            forall|j: int| 0 <= j < i ==> #[trigger] flags@[j] == event_flag(nv[j]),
            forall|j: int| 0 <= j < i && all_ascii(nv[j]) ==> #[trigger] flags@[j] == ascii_event_flag(nv[j]),
        decreases n - i,
    {
        let upper = to_upper(names[i].as_str());
        let key = flag_name(upper.as_str());
        assert(key@ =~= flag_key(names@[i as int]@));
        assert(nv[i as int] == names@[i as int]@);
        flags.push(inotify_flag_from_name(key.as_str()));
        i = i + 1;
    }
    assert(flags@ =~= nv.map_values(|n: Seq<char>| event_flag(n)));
    proof {
        if forall|i: int| 0 <= i < names@.len() ==> all_ascii(#[trigger] names@[i]@) {
            assert forall|j: int| 0 <= j < n implies all_ascii(#[trigger] nv[j]) by {
                assert(nv[j] == names@[j]@);
            }
            assert(flags@ =~= nv.map_values(|n: Seq<char>| ascii_event_flag(n)));
        }
    }
    combine_event_flags(names, &flags)
}

/// The bits of the inotify event named `name`, for an ASCII name: the flag
/// named `IN_` followed by the name with `a` to `z` upper-cased.
pub open spec fn ascii_event_flag(name: Seq<char>) -> Option<u32> {
    inotify_flag_table(seq!['I', 'N', '_'] + ascii_upper(name))
}

/// Reads a list of ASCII event names: the union of their flags, or the
/// first name that names no event.
pub open spec fn ascii_events_outcome(names: Seq<String>) -> Result<u32, Seq<char>> {
    flags_outcome(strings_view(names), strings_view(names).map_values(|n: Seq<char>| ascii_event_flag(n)))
}

/// Why a configuration entry is refused, `None` when it is accepted. The
/// fields are checked in the order of their keys (`events`, `path`,
/// `script`), the order in which a TOML table hands them over: its event
/// names, then its watched path, then its script.
#[verifier::opaque]
pub open spec fn entry_error(raw: RawCfgEntry) -> Option<ConfigErrorView> {
    match events_outcome(raw.events@) {
        Err(name) => Some(ConfigErrorView::UnknownEvent(name)),
        Ok(_) => match watched_path_error(raw.path@, raw.path_exists) {
            Some(e) => Some(e),
            None => script_path_error(raw.script@, raw.script_exists),
        },
    }
}

/// `entry` is what the accepted configuration entry `raw` becomes.
#[verifier::opaque]
pub open spec fn entry_from(entry: CfgEntry, raw: RawCfgEntry) -> bool {
    &&& entry.path@ == raw.path@
    &&& entry.recursive == raw.recursive
    &&& entry.script@ == raw.script@
    &&& events_outcome(raw.events@) == Ok::<u32, Seq<char>>(entry.events)
}

/// Law: an entry is accepted exactly when every event name names an inotify
/// event, the watched path is absolute (starts with `/`) and exists, and
/// the script is absolute and exists; a refusal names the offending name or
/// path, which really is unknown, relative or missing. The event names are
/// checked first (the first unknown one is reported), then the watched
/// path, then the script.
pub proof fn law_entry_accepted_exactly_when_valid(raw: RawCfgEntry)
    ensures
        (entry_error(raw) is None) <==> {
            &&& forall|i: int| 0 <= i < raw.events@.len() ==> (#[trigger] event_flag(raw.events@[i]@)) is Some
            &&& raw.path@.len() > 0 && raw.path@[0] == 47u8 && raw.path_exists
            &&& raw.script@.len() > 0 && raw.script@[0] == 47u8 && raw.script_exists
        },
        entry_error(raw) matches Some(ConfigErrorView::UnknownEvent(name)) ==> exists|i: int|
            0 <= i < raw.events@.len() && raw.events@[i]@ == name && (#[trigger] event_flag(raw.events@[i]@)) is None
                && forall|j: int| 0 <= j < i ==> (#[trigger] event_flag(raw.events@[j]@)) is Some,
        (exists|i: int| 0 <= i < raw.events@.len() && (#[trigger] event_flag(raw.events@[i]@)) is None)
            ==> entry_error(raw) matches Some(ConfigErrorView::UnknownEvent(_)),
        (forall|i: int| 0 <= i < raw.events@.len() ==> (#[trigger] event_flag(raw.events@[i]@)) is Some)
            && !(raw.path@.len() > 0 && raw.path@[0] == 47u8) ==> entry_error(raw) == Some(ConfigErrorView::NotAbsolute(raw.path@)),
        (forall|i: int| 0 <= i < raw.events@.len() ==> (#[trigger] event_flag(raw.events@[i]@)) is Some)
            && raw.path@.len() > 0 && raw.path@[0] == 47u8 && !raw.path_exists
            ==> entry_error(raw) == Some(ConfigErrorView::WatchedMissing(raw.path@)),
        (forall|i: int| 0 <= i < raw.events@.len() ==> (#[trigger] event_flag(raw.events@[i]@)) is Some)
            && raw.path@.len() > 0 && raw.path@[0] == 47u8 && raw.path_exists
            && !(raw.script@.len() > 0 && raw.script@[0] == 47u8) ==> entry_error(raw) == Some(ConfigErrorView::NotAbsolute(raw.script@)),
        (forall|i: int| 0 <= i < raw.events@.len() ==> (#[trigger] event_flag(raw.events@[i]@)) is Some)
            && raw.path@.len() > 0 && raw.path@[0] == 47u8 && raw.path_exists
            && raw.script@.len() > 0 && raw.script@[0] == 47u8 && !raw.script_exists
            ==> entry_error(raw) == Some(ConfigErrorView::ScriptMissing(raw.script@)),
        entry_error(raw) matches Some(ConfigErrorView::NotAbsolute(p)) ==>
            (p == raw.path@ || p == raw.script@) && !(p.len() > 0 && p[0] == 47u8),
        entry_error(raw) matches Some(ConfigErrorView::WatchedMissing(p)) ==> p == raw.path@ && !raw.path_exists,
        entry_error(raw) matches Some(ConfigErrorView::ScriptMissing(p)) ==> p == raw.script@ && !raw.script_exists,
{
    reveal(entry_error);
    law_event_names(raw.events@);
}

/// Law: an accepted entry keeps what was written: its path, its recursive
/// flag and its script as given, and as mask the union of the flags of all
/// its event names: every named event's bits are set, and no other bit.
pub proof fn law_accepted_entry_keeps_what_was_written(entry: CfgEntry, raw: RawCfgEntry)
    requires
        entry_from(entry, raw),
    ensures
        entry.path@ == raw.path@,
        entry.recursive == raw.recursive,
        entry.script@ == raw.script@,
        forall|i: int| 0 <= i < raw.events@.len() ==> (#[trigger] event_flag(raw.events@[i]@)) is Some
            && entry.events & event_flag(raw.events@[i]@)->0 == event_flag(raw.events@[i]@)->0,
        forall|b: u32| b < 32 && #[trigger] has_bit(entry.events, b) ==> exists|i: int|
            0 <= i < raw.events@.len() && (#[trigger] event_flag(raw.events@[i]@)) is Some
                && has_bit(event_flag(raw.events@[i]@)->0, b),
{
    reveal(entry_from);
    law_event_names(raw.events@);
    assert forall|b: u32| b < 32 && #[trigger] has_bit(entry.events, b) implies exists|i: int|
        0 <= i < raw.events@.len() && (#[trigger] event_flag(raw.events@[i]@)) is Some
            && has_bit(event_flag(raw.events@[i]@)->0, b) by {
        law_event_mask_bits(raw.events@, b);
    }
}

impl CfgEntry {
    /// Validates one configuration entry: every event name must name an
    /// inotify event, the watched path must be absolute and exist, and the
    /// script too, checked in that order (the order of their keys).
    pub fn from_raw(raw: RawCfgEntry) -> (entry: Result<CfgEntry, ConfigError>)
        ensures
            match entry {
                Ok(e) => entry_error(raw) is None && entry_from(e, raw),
                Err(e) => entry_error(raw) == Some(e@),
            },
            (entry is Ok) <==> {
                &&& events_outcome(raw.events@) is Ok
                &&& raw.path@.len() > 0 && raw.path@[0] == 47u8 && raw.path_exists
                &&& raw.script@.len() > 0 && raw.script@[0] == 47u8 && raw.script_exists
            },
            entry matches Ok(e) ==> {
                &&& e.path@ == raw.path@
                &&& e.recursive == raw.recursive
                &&& e.script@ == raw.script@
                &&& events_outcome(raw.events@) == Ok::<u32, Seq<char>>(e.events)
            },
    {
        reveal(entry_error);
        reveal(entry_from);
        let RawCfgEntry { path, recursive, script, events, path_exists, script_exists } = raw;
        let events = match parse_events(&events) {
            Ok(m) => m,
            Err(e) => return Err(e),
        };
        let path = match check_path(path, path_exists) {
            Ok(p) => p,
            Err(e) => return Err(e),
        };
        let script = match check_script(script, script_exists) {
            Ok(p) => p,
            Err(e) => return Err(e),
        };
        Ok(CfgEntry { path, recursive, script, events })
    }
}

impl Cfg {
    /// Builds the configuration from its entries as written: every entry is
    /// validated in order, and the first refused one refuses the whole
    /// configuration. `cli_config_path` is kept for later reloads.
    pub fn init(cli_config_path: Option<Vec<u8>>, raw: Vec<RawCfgEntry>) -> (cfg: Result<Cfg, ConfigError>)
        ensures
            (cfg is Ok) <==> (forall|i: int| 0 <= i < raw@.len() ==> entry_error(#[trigger] raw@[i]) is None),
            match cfg {
                Ok(c) => {
                    &&& c.cli_config_path == cli_config_path
                    &&& c.entry@.len() == raw@.len()
                    &&& forall|i: int| 0 <= i < raw@.len() ==> entry_from(#[trigger] c.entry@[i], raw@[i])
                },
                Err(e) => exists|i: int|
                    0 <= i < raw@.len() && entry_error(#[trigger] raw@[i]) == Some(e@)
                        && forall|j: int| 0 <= j < i ==> entry_error(#[trigger] raw@[j]) is None,
            },
    {
        let ghost raws = raw@;
        let mut entries: Vec<CfgEntry> = Vec::new();
        let mut rest = raw;
        let n = rest.len();
        let mut k: usize = 0;
        while k < n
            invariant
                n == raws.len(),
                raws == raw@,
                k <= n,
                rest@.len() == n - k,
                forall|j: int| 0 <= j < n - k ==> #[trigger] rest@[j] == raws[j + k],
                entries@.len() == k,
                forall|j: int| 0 <= j < k ==> entry_error(#[trigger] raws[j]) is None,
                forall|j: int| 0 <= j < k ==> entry_from(#[trigger] entries@[j], raws[j]),
            decreases n - k,
        {
            let r = rest.remove(0);
            assert(r == raws[k as int]);
            match CfgEntry::from_raw(r) {
                Ok(e) => entries.push(e),
                Err(e) => {
                    assert(entry_error(raws[k as int]) == Some(e@));
                    assert(!(entry_error(raws[k as int]) is None));
                    return Err(e);
                },
            }
            k = k + 1;
        }
        Ok(Cfg { entry: entries, cli_config_path })
    }
}

/// The bytes of an ASCII text.
pub open spec fn ascii_bytes(text: Seq<char>) -> Seq<u8> {
    text.map_values(|c: char| c as u8)
}

/// The bytes of an ASCII string.
fn ascii_vec(text: &str) -> (bytes: Vec<u8>)
    requires
        text.is_ascii(),
    ensures
        bytes@ == ascii_bytes(text@),
{
    broadcast use vstd::string::is_ascii_spec_bytes;
    let raw = text.as_bytes();
    let mut bytes: Vec<u8> = Vec::new();
    let n = raw.len();
    let mut i: usize = 0;
    while i < n
        invariant
            n == raw@.len(),
            raw@ == text.spec_bytes(),
            text.spec_bytes() =~= Seq::new(text@.len(), |j: int| text@[j] as u8),
            i <= n,
            bytes@ =~= raw@.take(i as int),
        decreases n - i,
    {
        bytes.push(raw[i]);
        i = i + 1;
    }
    assert(bytes@ =~= ascii_bytes(text@));
    bytes
}

/// Where a configuration is looked for below the home directory.
pub open spec fn home_config_suffix() -> Seq<u8> {
    ascii_bytes(".config/fcheckd/config.toml"@)
}

/// Where the configuration is looked for when neither the command line nor
/// the home directory gives a place.
pub open spec fn default_config_path() -> Seq<u8> {
    ascii_bytes("/etc/fcheckd/config.toml"@)
}

/// `rel` appended to `base` as `std::path::PathBuf::join` does it on Unix:
/// an absolute `rel` replaces `base`; otherwise a `/` separates the two
/// unless `base` is empty or already ends with one.
pub open spec fn join_path(base: Seq<u8>, rel: Seq<u8>) -> Seq<u8> {
    if spec_is_absolute(rel) {
        rel
    } else if base.len() == 0 || base.last() == slash() {
        base + rel
    } else {
        base.push(slash()) + rel
    }
}

/// Appends `rel` to `base` as a path, see [`join_path`].
pub fn join(base: &Vec<u8>, rel: &Vec<u8>) -> (joined: Vec<u8>)
    ensures
        joined@ == join_path(base@, rel@),
{
    if is_absolute(rel) {
        return rel.clone();
    }
    let mut joined = base.clone();
    if base.len() > 0 && base[base.len() - 1] != 47u8 {
        joined.push(47u8);
    }
    let n = rel.len();
    let mut i: usize = 0;
    let ghost start = joined@;
    while i < n
        invariant
            n == rel@.len(),
            i <= n,
            joined@ =~= start + rel@.take(i as int),
        decreases n - i,
    {
        joined.push(rel[i]);
        i = i + 1;
    }
    assert(rel@.take(n as int) == rel@);
    joined
}

/// The configuration file below the home directory `home`, if the home
/// directory is known.
pub fn home_config_path(home: Option<Vec<u8>>) -> (path: Option<Vec<u8>>)
    ensures
        match home {
            Some(h) => path matches Some(p) && p@ == join_path(h@, home_config_suffix()),
            None => path is None,
        },
{
    match home {
        Some(h) => {
            proof {
                reveal_strlit(".config/fcheckd/config.toml");
            }
            let suffix = ascii_vec(".config/fcheckd/config.toml");
            Some(join(&h, &suffix))
        },
        None => None,
    }
}

/// The configuration file to read: the one given on the command line; else
/// the one below the home directory, if that is known; else
/// `/etc/fcheckd/config.toml`.
pub fn config_path_in_use(cli_config_path: &Option<Vec<u8>>, home: Option<Vec<u8>>) -> (path: Vec<u8>)
    ensures
        path@ == match cli_config_path {
            Some(p) => p@,
            None => match home {
                Some(h) => join_path(h@, home_config_suffix()),
                None => default_config_path(),
            },
        },
{
    match cli_config_path {
        Some(p) => p.clone(),
        None => match home_config_path(home) {
            Some(p) => p,
            None => {
                proof {
                    reveal_strlit("/etc/fcheckd/config.toml");
                }
                ascii_vec("/etc/fcheckd/config.toml")
            },
        },
    }
}

proof fn lemma_or_keeps_bits(a: u32, b: u32, g: u32)
    ensures
        a & g == g ==> (a | b) & g == g,
        (a | b) & b == b,
{
    assert(a & g == g ==> (a | b) & g == g) by (bit_vector);
    assert((a | b) & b == b) by (bit_vector);
}

proof fn lemma_flags_outcome(names: Seq<Seq<char>>, flags: Seq<Option<u32>>)
    requires
        names.len() == flags.len(),
    ensures
        (flags_outcome(names, flags) is Ok) <==> (forall|i: int| 0 <= i < flags.len() ==> (#[trigger] flags[i]) is Some),
        flags_outcome(names, flags) matches Ok(mask) ==> forall|i: int| 0 <= i < flags.len()
            ==> mask & (#[trigger] flags[i])->0 == flags[i]->0,
        flags_outcome(names, flags) matches Err(name) ==> exists|i: int| 0 <= i < flags.len()
            && (#[trigger] flags[i]) is None && names[i] == name
            && forall|j: int| 0 <= j < i ==> (#[trigger] flags[j]) is Some,
    decreases flags.len(),
{
    if flags.len() > 0 {
        let ni = names.drop_last();
        let fi = flags.drop_last();
        let last = flags.len() - 1;
        lemma_flags_outcome(ni, fi);
        assert forall|i: int| 0 <= i < last implies flags[i] == #[trigger] fi[i] by {}
        match flags_outcome(ni, fi) {
            Ok(m) => {
                match flags[last] {
                    Some(bits) => {
                        assert forall|i: int| 0 <= i < flags.len() implies (#[trigger] flags[i]) is Some by {
                            if i < last {
                                assert(fi[i] == flags[i]);
                            }
                        }
                        assert forall|i: int| 0 <= i < flags.len() implies (m | bits) & (#[trigger] flags[i])->0 == flags[i]->0 by {
                            if i < last {
                                assert(fi[i] == flags[i]);
                                lemma_or_keeps_bits(m, bits, flags[i]->0);
                            } else {
                                lemma_or_keeps_bits(m, bits, bits);
                            }
                        }
                    },
                    None => {
                        assert(names.last() == names[last]);
                        assert forall|j: int| 0 <= j < last implies (#[trigger] flags[j]) is Some by {
                            assert(fi[j] == flags[j]);
                        }
                    },
                }
            },
            Err(name) => {
                let i = choose|i: int| 0 <= i < fi.len() && (#[trigger] fi[i]) is None && ni[i] == name
                    && forall|j: int| 0 <= j < i ==> (#[trigger] fi[j]) is Some;
                assert(flags[i] == fi[i] && names[i] == ni[i]);
                assert forall|j: int| 0 <= j < i implies (#[trigger] flags[j]) is Some by {
                    assert(fi[j] == flags[j]);
                }
            },
        }
    }
}

/// Law: the event names of an entry are accepted exactly when every one of
/// them names an inotify event; the mask they give then holds the bits of
/// every named event. When they are refused, the name reported is the
/// first one that names no event.
pub proof fn law_event_names(names: Seq<String>)
    ensures
        (events_outcome(names) is Ok) <==> (forall|i: int| 0 <= i < names.len() ==> (#[trigger] event_flag(names[i]@)) is Some),
        events_outcome(names) matches Ok(mask) ==> forall|i: int| 0 <= i < names.len()
            ==> mask & (#[trigger] event_flag(names[i]@))->0 == event_flag(names[i]@)->0,
        events_outcome(names) matches Err(name) ==> exists|i: int| 0 <= i < names.len()
            && (#[trigger] event_flag(names[i]@)) is None && names[i]@ == name
            && forall|j: int| 0 <= j < i ==> (#[trigger] event_flag(names[j]@)) is Some,
{
    let nv = strings_view(names);
    let flags = nv.map_values(|n: Seq<char>| event_flag(n));
    lemma_flags_outcome(nv, flags);
    assert forall|i: int| 0 <= i < names.len() implies #[trigger] flags[i] == event_flag(names[i]@) by {
        assert(nv[i] == names[i]@);
    }
    if let Err(name) = events_outcome(names) {
        let i = choose|i: int| 0 <= i < flags.len() && (#[trigger] flags[i]) is None && nv[i] == name
            && forall|j: int| 0 <= j < i ==> (#[trigger] flags[j]) is Some;
        assert(flags[i] == event_flag(names[i]@));
        assert forall|j: int| 0 <= j < i implies (#[trigger] event_flag(names[j]@)) is Some by {
            assert(flags[j] == event_flag(names[j]@));
        }
    }
    if let Ok(mask) = events_outcome(names) {
        assert forall|i: int| 0 <= i < names.len() implies (#[trigger] event_flag(names[i]@)) is Some by {
            assert(flags[i] == event_flag(names[i]@));
        }
        assert forall|i: int| 0 <= i < names.len()
            implies mask & (#[trigger] event_flag(names[i]@))->0 == event_flag(names[i]@)->0 by {
            assert(flags[i] == event_flag(names[i]@));
        }
    } else {
        if forall|i: int| 0 <= i < names.len() ==> (#[trigger] event_flag(names[i]@)) is Some {
            assert forall|i: int| 0 <= i < flags.len() implies (#[trigger] flags[i]) is Some by {
                assert(flags[i] == event_flag(names[i]@));
            }
        }
    }
}

/// Bit `b` of `x` is set.
pub open spec fn has_bit(x: u32, b: u32) -> bool {
    (x >> b) & 1u32 == 1u32
}

proof fn lemma_bits_of_or(a: u32, c: u32, b: u32)
    requires
        b < 32,
    ensures
        has_bit(a | c, b) == (has_bit(a, b) || has_bit(c, b)),
        !has_bit(0u32, b),
{
    assert(((a | c) >> b) & 1u32 == 1u32 <==> ((a >> b) & 1u32 == 1u32 || (c >> b) & 1u32 == 1u32)) by (bit_vector)
        requires
            b < 32u32,
    ;
    assert((0u32 >> b) & 1u32 != 1u32) by (bit_vector);
}

proof fn lemma_same_bits_same_value(x: u32, y: u32)
    requires
        forall|b: u32| b < 32 ==> #[trigger] has_bit(x, b) == has_bit(y, b),
    ensures
        x == y,
{
    assert(has_bit(x, 0u32) == has_bit(y, 0u32));
    assert(has_bit(x, 1u32) == has_bit(y, 1u32));
    assert(has_bit(x, 2u32) == has_bit(y, 2u32));
    assert(has_bit(x, 3u32) == has_bit(y, 3u32));
    assert(has_bit(x, 4u32) == has_bit(y, 4u32));
    assert(has_bit(x, 5u32) == has_bit(y, 5u32));
    assert(has_bit(x, 6u32) == has_bit(y, 6u32));
    assert(has_bit(x, 7u32) == has_bit(y, 7u32));
    assert(has_bit(x, 8u32) == has_bit(y, 8u32));
    assert(has_bit(x, 9u32) == has_bit(y, 9u32));
    assert(has_bit(x, 10u32) == has_bit(y, 10u32));
    assert(has_bit(x, 11u32) == has_bit(y, 11u32));
    assert(has_bit(x, 12u32) == has_bit(y, 12u32));
    assert(has_bit(x, 13u32) == has_bit(y, 13u32));
    assert(has_bit(x, 14u32) == has_bit(y, 14u32));
    assert(has_bit(x, 15u32) == has_bit(y, 15u32));
    assert(has_bit(x, 16u32) == has_bit(y, 16u32));
    assert(has_bit(x, 17u32) == has_bit(y, 17u32));
    assert(has_bit(x, 18u32) == has_bit(y, 18u32));
    assert(has_bit(x, 19u32) == has_bit(y, 19u32));
    assert(has_bit(x, 20u32) == has_bit(y, 20u32));
    assert(has_bit(x, 21u32) == has_bit(y, 21u32));
    assert(has_bit(x, 22u32) == has_bit(y, 22u32));
    assert(has_bit(x, 23u32) == has_bit(y, 23u32));
    assert(has_bit(x, 24u32) == has_bit(y, 24u32));
    assert(has_bit(x, 25u32) == has_bit(y, 25u32));
    assert(has_bit(x, 26u32) == has_bit(y, 26u32));
    assert(has_bit(x, 27u32) == has_bit(y, 27u32));
    assert(has_bit(x, 28u32) == has_bit(y, 28u32));
    assert(has_bit(x, 29u32) == has_bit(y, 29u32));
    assert(has_bit(x, 30u32) == has_bit(y, 30u32));
    assert(has_bit(x, 31u32) == has_bit(y, 31u32));
    assert(x == y) by (bit_vector)
        requires
            ((x >> 0u32) & 1u32 == 1u32) == ((y >> 0u32) & 1u32 == 1u32),
            ((x >> 1u32) & 1u32 == 1u32) == ((y >> 1u32) & 1u32 == 1u32),
            ((x >> 2u32) & 1u32 == 1u32) == ((y >> 2u32) & 1u32 == 1u32),
            ((x >> 3u32) & 1u32 == 1u32) == ((y >> 3u32) & 1u32 == 1u32),
            ((x >> 4u32) & 1u32 == 1u32) == ((y >> 4u32) & 1u32 == 1u32),
            ((x >> 5u32) & 1u32 == 1u32) == ((y >> 5u32) & 1u32 == 1u32),
            ((x >> 6u32) & 1u32 == 1u32) == ((y >> 6u32) & 1u32 == 1u32),
            ((x >> 7u32) & 1u32 == 1u32) == ((y >> 7u32) & 1u32 == 1u32),
            ((x >> 8u32) & 1u32 == 1u32) == ((y >> 8u32) & 1u32 == 1u32),
            ((x >> 9u32) & 1u32 == 1u32) == ((y >> 9u32) & 1u32 == 1u32),
            ((x >> 10u32) & 1u32 == 1u32) == ((y >> 10u32) & 1u32 == 1u32),
            ((x >> 11u32) & 1u32 == 1u32) == ((y >> 11u32) & 1u32 == 1u32),
            ((x >> 12u32) & 1u32 == 1u32) == ((y >> 12u32) & 1u32 == 1u32),
            ((x >> 13u32) & 1u32 == 1u32) == ((y >> 13u32) & 1u32 == 1u32),
            ((x >> 14u32) & 1u32 == 1u32) == ((y >> 14u32) & 1u32 == 1u32),
            ((x >> 15u32) & 1u32 == 1u32) == ((y >> 15u32) & 1u32 == 1u32),
            ((x >> 16u32) & 1u32 == 1u32) == ((y >> 16u32) & 1u32 == 1u32),
            ((x >> 17u32) & 1u32 == 1u32) == ((y >> 17u32) & 1u32 == 1u32),
            ((x >> 18u32) & 1u32 == 1u32) == ((y >> 18u32) & 1u32 == 1u32),
            ((x >> 19u32) & 1u32 == 1u32) == ((y >> 19u32) & 1u32 == 1u32),
            ((x >> 20u32) & 1u32 == 1u32) == ((y >> 20u32) & 1u32 == 1u32),
            ((x >> 21u32) & 1u32 == 1u32) == ((y >> 21u32) & 1u32 == 1u32),
            ((x >> 22u32) & 1u32 == 1u32) == ((y >> 22u32) & 1u32 == 1u32),
            ((x >> 23u32) & 1u32 == 1u32) == ((y >> 23u32) & 1u32 == 1u32),
            ((x >> 24u32) & 1u32 == 1u32) == ((y >> 24u32) & 1u32 == 1u32),
            ((x >> 25u32) & 1u32 == 1u32) == ((y >> 25u32) & 1u32 == 1u32),
            ((x >> 26u32) & 1u32 == 1u32) == ((y >> 26u32) & 1u32 == 1u32),
            ((x >> 27u32) & 1u32 == 1u32) == ((y >> 27u32) & 1u32 == 1u32),
            ((x >> 28u32) & 1u32 == 1u32) == ((y >> 28u32) & 1u32 == 1u32),
            ((x >> 29u32) & 1u32 == 1u32) == ((y >> 29u32) & 1u32 == 1u32),
            ((x >> 30u32) & 1u32 == 1u32) == ((y >> 30u32) & 1u32 == 1u32),
            ((x >> 31u32) & 1u32 == 1u32) == ((y >> 31u32) & 1u32 == 1u32),
    ;
}

proof fn lemma_flags_outcome_bits(names: Seq<Seq<char>>, flags: Seq<Option<u32>>, b: u32)
    requires
        names.len() == flags.len(),
        b < 32,
    ensures
        flags_outcome(names, flags) matches Ok(mask) ==> (has_bit(mask, b) <==> exists|i: int|
            0 <= i < flags.len() && (#[trigger] flags[i]) is Some && has_bit(flags[i]->0, b)),
    decreases flags.len(),
{
    lemma_bits_of_or(0, 0, b);
    if flags.len() > 0 {
        let ni = names.drop_last();
        let fi = flags.drop_last();
        let last = flags.len() - 1;
        lemma_flags_outcome_bits(ni, fi, b);
        if let Ok(m) = flags_outcome(ni, fi) {
            if let Some(bits) = flags[last] {
                lemma_bits_of_or(m, bits, b);
                if has_bit(m | bits, b) {
                    if has_bit(m, b) {
                        let i = choose|i: int| 0 <= i < fi.len() && (#[trigger] fi[i]) is Some && has_bit(fi[i]->0, b);
                        assert(flags[i] == fi[i]);
                    } else {
                        assert(flags[last] is Some && has_bit(flags[last]->0, b));
                    }
                } else {
                    assert forall|i: int| 0 <= i < flags.len() && (#[trigger] flags[i]) is Some
                        implies !has_bit(flags[i]->0, b) by {
                        if i < last {
                            assert(flags[i] == fi[i]);
                        }
                    }
                }
            }
        }
    }
}

/// Law: when the event names of an entry are accepted, a bit of the mask is
/// set exactly when it is set in the flag of one of the names: the mask
/// holds every named event and nothing else.
pub proof fn law_event_mask_bits(names: Seq<String>, b: u32)
    requires
        b < 32,
    ensures
        events_outcome(names) matches Ok(mask) ==> (has_bit(mask, b) <==> exists|i: int|
            0 <= i < names.len() && (#[trigger] event_flag(names[i]@)) is Some
                && has_bit(event_flag(names[i]@)->0, b)),
{
    let nv = strings_view(names);
    let flags = nv.map_values(|n: Seq<char>| event_flag(n));
    lemma_flags_outcome_bits(nv, flags, b);
    assert forall|i: int| 0 <= i < names.len() implies #[trigger] flags[i] == event_flag(names[i]@) by {
        assert(nv[i] == names[i]@);
    }
    if let Ok(mask) = events_outcome(names) {
        if has_bit(mask, b) {
            let i = choose|i: int| 0 <= i < flags.len() && (#[trigger] flags[i]) is Some && has_bit(flags[i]->0, b);
            assert(flags[i] == event_flag(names[i]@));
        }
        if exists|i: int| 0 <= i < names.len() && (#[trigger] event_flag(names[i]@)) is Some
            && has_bit(event_flag(names[i]@)->0, b) {
            let i = choose|i: int| 0 <= i < names.len() && (#[trigger] event_flag(names[i]@)) is Some
                && has_bit(event_flag(names[i]@)->0, b);
            assert(flags[i] == event_flag(names[i]@));
        }
    }
}

/// Every name of `names1` upper-cases (as `str::to_uppercase` does) like
/// some name of `names2`.
pub open spec fn names_covered(names1: Seq<String>, names2: Seq<String>) -> bool {
    forall|i: int| 0 <= i < names1.len() ==> exists|j: int|
        0 <= j < names2.len() && flag_key(#[trigger] names1[i]@) == flag_key(#[trigger] names2[j]@)
}

/// Law: the mask of an entry depends only on which names it lists, up to
/// letter case: two lists whose names upper-case alike, in any order and
/// with any repetition, are both accepted with the same mask, or both
/// refused.
pub proof fn law_event_mask_ignores_order_repetition_and_case(names1: Seq<String>, names2: Seq<String>)
    requires
        names_covered(names1, names2),
        names_covered(names2, names1),
    ensures
        (events_outcome(names1) is Ok) == (events_outcome(names2) is Ok),
        events_outcome(names1) matches Ok(m1) ==> events_outcome(names2) matches Ok(m2) && m1 == m2,
{
    law_event_names(names1);
    law_event_names(names2);
    if forall|i: int| 0 <= i < names1.len() ==> (#[trigger] event_flag(names1[i]@)) is Some {
        assert forall|j: int| 0 <= j < names2.len() implies (#[trigger] event_flag(names2[j]@)) is Some by {
            let i = choose|i: int| 0 <= i < names1.len() && flag_key(#[trigger] names2[j]@) == flag_key(#[trigger] names1[i]@);
            assert(event_flag(names1[i]@) is Some);
        }
    }
    if forall|j: int| 0 <= j < names2.len() ==> (#[trigger] event_flag(names2[j]@)) is Some {
        assert forall|i: int| 0 <= i < names1.len() implies (#[trigger] event_flag(names1[i]@)) is Some by {
            let j = choose|j: int| 0 <= j < names2.len() && flag_key(#[trigger] names1[i]@) == flag_key(#[trigger] names2[j]@);
            assert(event_flag(names2[j]@) is Some);
        }
    }
    if let Ok(m1) = events_outcome(names1) {
        let m2 = events_outcome(names2)->Ok_0;
        assert forall|b: u32| b < 32 implies #[trigger] has_bit(m1, b) == has_bit(m2, b) by {
            law_event_mask_bits(names1, b);
            law_event_mask_bits(names2, b);
            if has_bit(m1, b) {
                let i = choose|i: int| 0 <= i < names1.len() && (#[trigger] event_flag(names1[i]@)) is Some
                    && has_bit(event_flag(names1[i]@)->0, b);
                let j = choose|j: int| 0 <= j < names2.len() && flag_key(#[trigger] names1[i]@) == flag_key(#[trigger] names2[j]@);
                assert(event_flag(names2[j]@) == event_flag(names1[i]@));
            }
            if has_bit(m2, b) {
                let j = choose|j: int| 0 <= j < names2.len() && (#[trigger] event_flag(names2[j]@)) is Some
                    && has_bit(event_flag(names2[j]@)->0, b);
                let i = choose|i: int| 0 <= i < names1.len() && flag_key(#[trigger] names2[j]@) == flag_key(#[trigger] names1[i]@);
                assert(event_flag(names2[j]@) == event_flag(names1[i]@));
            }
        }
        lemma_same_bits_same_value(m1, m2);
    }
}

} // verus!
