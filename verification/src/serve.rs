//! The decisions of `serve`: the URL of the built page, and which file
//! changes trigger a rebuild.
use vstd::prelude::*;
use crate::config::{
    config_outcome, normalized_path, watch_decision, Config, ConfigError, ConfigScan, ConfigServe, CONFIG_FILE,
};
use crate::config::plain_entry;
use crate::log::{LogEntry, LogLevel, Logger};
use crate::paths::{
    opt_view, path_absolute, path_eq, path_is_absolute, path_join, path_joined, path_parent, path_parent_of,
    path_strip_prefix, path_stripped, path_texts, path_texts_of, paths_equal,
};
use crate::text::{decimal, owned, push_decimal, str_eq};

verus! {

broadcast use vstd::string::group_string_axioms;

/// Each of `parts`, after a `/`.
pub open spec fn url_path(parts: Seq<Seq<char>>) -> Seq<char>
    decreases parts.len(),
{
    if parts.len() == 0 {
        Seq::empty()
    } else {
        url_path(parts.drop_last()) + "/"@ + parts.last()
    }
}

/// The URL of the built page `target_path` on the local server at `port`.
pub open spec fn target_url_spec(target_path: Seq<char>, port: u16) -> Seq<char> {
    "http://127.0.0.1:"@ + decimal(port as nat) + url_path(path_texts_of(target_path))
}

/// The URL under which the local server at `port` serves the built page;
/// none when no target path is configured.
pub fn target_url(target_path: Option<&str>, port: u16) -> (r: Option<String>)
    ensures
        match target_path {
            None => r is None,
            Some(t) => r matches Some(u) && u@ == target_url_spec(t@, port),
        },
{
    let target = match target_path {
        Some(t) => t,
        None => return None,
    };
    let mut url = owned("http://127.0.0.1:");
    push_decimal(&mut url, port as usize);
    let parts = path_texts(target);
    let ghost texts = parts@.map_values(|t: String| t@);
    let ghost head = url@;
    let mut i: usize = 0;
    while i < parts.len()
        invariant
            i <= parts@.len(),
            texts == parts@.map_values(|t: String| t@),
            texts == path_texts_of(target@),
            head == "http://127.0.0.1:"@ + decimal(port as nat),
            url@ == head + url_path(texts.take(i as int)),
        decreases parts.len() - i,
    {
        url.append("/");
        url.append(parts[i].as_str());
        proof {
            assert(texts.take(i + 1).drop_last() == texts.take(i as int));
            assert(texts.take(i + 1).last() == parts@[i as int]@);
        }
        i = i + 1;
    }
    assert(texts.take(texts.len() as int) == texts);
    Some(url)
}

/// A changed path relative to the project root: a relative path as it is,
/// an absolute one with the project root removed (none when it lies
/// outside).
pub open spec fn relative_event_path_spec(project_root: Seq<char>, path: Seq<char>) -> Option<Seq<char>> {
    if !path_absolute(path) {
        Some(path)
    } else {
        path_stripped(path, project_root)
    }
}

/// The changed `path`, relative to the project root.
pub fn relative_event_path(project_root: &str, path: &str) -> (r: Option<String>)
    ensures
        opt_view(r) == relative_event_path_spec(project_root@, path@),
{
    if !path_is_absolute(path) {
        return Some(owned(path));
    }
    path_strip_prefix(path, project_root)
}

/// The changed path is the configuration file.
pub fn is_config_path(relative_path: &str) -> (b: bool)
    ensures
        b == paths_equal(relative_path@, CONFIG_FILE@),
{
    path_eq(relative_path, CONFIG_FILE)
}

/// A relative path whose change triggers a rebuild.
pub open spec fn triggers_rebuild(serve: ConfigServe, path: Seq<char>) -> bool {
    normalized_path(path) matches Some(rel) && watch_decision(serve.watch@, rel)
}

/// The first of the paths of a file event, relative to the project root,
/// whose change triggers a rebuild; none for an event that only reads.
pub open spec fn matching_event_path_spec(serve: ConfigServe, project_root: Seq<char>, paths: Seq<Seq<char>>, k: int) -> Option<Seq<char>>
    decreases paths.len() - k,
{
    if k < 0 || k >= paths.len() {
        None
    } else {
        match relative_event_path_spec(project_root, paths[k]) {
            Some(rel) => if triggers_rebuild(serve, rel) {
                Some(rel)
            } else {
                matching_event_path_spec(serve, project_root, paths, k + 1)
            },
            None => matching_event_path_spec(serve, project_root, paths, k + 1),
        }
    }
}

/// The path of a file event that triggers a rebuild: the first of its
/// `paths` that does, relative to the project root; none when
/// `relevant` is false (the event only read files) or no path does.
pub fn matching_event_path(serve: &ConfigServe, project_root: &str, relevant: bool, paths: &Vec<String>) -> (r: Option<String>)
    ensures
        opt_view(r) == if relevant {
            matching_event_path_spec(*serve, project_root@, paths@.map_values(|p: String| p@), 0)
        } else {
            None
        },
{
    if !relevant {
        return None;
    }
    let ghost ps = paths@.map_values(|p: String| p@);
    let mut k: usize = 0;
    while k < paths.len()
        invariant
            relevant,
            k <= paths@.len(),
            ps == paths@.map_values(|p: String| p@),
            matching_event_path_spec(*serve, project_root@, ps, 0) == matching_event_path_spec(*serve, project_root@, ps, k as int),
        decreases paths.len() - k,
    {
        assert(ps[k as int] == paths@[k as int]@);
        match relative_event_path(project_root, paths[k].as_str()) {
            Some(rel) => {
                if serve.matches_relative_path(rel.as_str()) {
                    assert(triggers_rebuild(*serve, rel@));
                    return Some(rel);
                }
            },
            None => {},
        }
        k = k + 1;
    }
    None
}

/// The line in which `serve` reports its watch rules.
pub open spec fn watch_status_message(explicit_watch_count: nat) -> Seq<char> {
    if explicit_watch_count > 0 {
        "Watching "@ + decimal(explicit_watch_count) + " path pattern(s) for rebuilds."@
    } else {
        "No [serve].watch entries are configured. Watching "@ + CONFIG_FILE@ + " for config changes only."@
    }
}

/// What `serve` says about its watch rules.
pub fn watch_status(explicit_watch_count: usize) -> (s: String)
    ensures
        s@ == watch_status_message(explicit_watch_count as nat),
{
    if explicit_watch_count > 0 {
        let mut s = owned("Watching ");
        push_decimal(&mut s, explicit_watch_count);
        s.append(" path pattern(s) for rebuilds.");
        s
    } else {
        let mut s = owned("No [serve].watch entries are configured. Watching ");
        s.append(CONFIG_FILE);
        s.append(" for config changes only.");
        s
    }
}

/// What `serve` does once it has reloaded its configuration.  Where the
/// new configuration loaded, it replaces the old one, and `serve` prints
/// its watch rules if their number changed and the target URL if that
/// changed.  Where it failed, the previous configuration stays and `serve`
/// logs a warning.
#[derive(Clone, Debug, PartialEq, Eq)]
pub enum ReloadAction {
    Replace { watch_status: Option<String>, target_notice: Option<String> },
    KeepPrevious { warning: String, note: String },
}

/// The line that announces a new target URL.
pub open spec fn target_notice_message(url: Seq<char>) -> Seq<char> {
    "Updated target URL to "@ + url
}

/// The warning when a reload of the configuration failed.
pub open spec fn reload_failed_message(error: Seq<char>) -> Seq<char> {
    "Keeping previous serve configuration after reload failed: "@ + error
}

/// The note under that warning.
pub open spec fn reload_failed_note() -> Seq<char> {
    "Fix vue-script.toml and save again; the watcher will retry on the next config change."@
}

/// Decides what a reload of the configuration changes: `loaded` is the
/// number of `[serve].watch` entries and the target URL of the reloaded
/// configuration, or the error that loading it gave.
pub fn reload_outcome(previous_watch_count: usize, previous_url: &str, loaded: Result<(usize, String), String>) -> (r: ReloadAction)
    ensures
        match loaded {
            Ok((count, url)) => r matches ReloadAction::Replace { watch_status, target_notice } && ({
                &&& (count == previous_watch_count <==> watch_status is None)
                &&& (watch_status matches Some(s) ==> s@ == watch_status_message(count as nat))
                &&& (url@ == previous_url@ <==> target_notice is None)
                &&& (target_notice matches Some(n) ==> n@ == target_notice_message(url@))
            }),
            Err(e) => r matches ReloadAction::KeepPrevious { warning, note } && warning@ == reload_failed_message(e@)
                && note@ == reload_failed_note(),
        },
{
    match loaded {
        Ok((count, url)) => {
            let watch_status = if count != previous_watch_count {
                Some(watch_status(count))
            } else {
                None
            };
            let target_notice = if str_eq(url.as_str(), previous_url) {
                None
            } else {
                let mut n = owned("Updated target URL to ");
                n.append(url.as_str());
                Some(n)
            };
            ReloadAction::Replace { watch_status, target_notice }
        },
        Err(e) => {
            let mut warning = owned("Keeping previous serve configuration after reload failed: ");
            warning.append(e.as_str());
            ReloadAction::KeepPrevious {
                warning,
                note: owned("Fix vue-script.toml and save again; the watcher will retry on the next config change."),
            }
        },
    }
}

/// Whatever watch rules the configuration file holds, a change of the
/// configured target never triggers a rebuild, and a change of the
/// configuration file always does unless it is the target; both paths
/// taken in the normal form that `Path::components` gives them.
pub proof fn lemma_target_ignored_config_watched(
    sc: ConfigScan,
    new: Seq<crate::log::Diagnostic>,
    path: String,
    r: Result<Config, ConfigError>,
)
    requires
        config_outcome(sc, new, path, r),
        r is Ok,
    ensures
        r->Ok_0.target.path matches Some(t) ==> (normalized_path(t@) == Some(t@) ==> !triggers_rebuild(r->Ok_0.serve, t@)),
        normalized_path(CONFIG_FILE@) == Some(CONFIG_FILE@) && (r->Ok_0.target.path matches Some(t) ==> t@ != CONFIG_FILE@)
            ==> triggers_rebuild(r->Ok_0.serve, CONFIG_FILE@),
{
}

/// The port that `serve` uses unless another is given.
pub const DEFAULT_PORT: u16 = 8000;

/// Where the search for the configuration file stands after looking in a
/// directory.
#[derive(Clone, Debug, PartialEq, Eq)]
pub enum ConfigSearch {
    /// The configuration file, found.
    Found(String),
    /// The directory to look in next.
    Next(String),
    /// The search ran out of parent directories.
    NotFound,
}

/// The configuration file's path in directory `dir`.
pub fn config_candidate(dir: &str) -> (r: String)
    ensures
        r@ == path_joined(dir@, CONFIG_FILE@),
{
    path_join(dir, CONFIG_FILE)
}

/// One step of the search for the configuration file, from the working
/// directory up through its parents: `exists` tells whether the candidate
/// in `dir` exists.
pub fn config_search_step(dir: &str, exists: bool) -> (r: ConfigSearch)
    ensures
        exists ==> (r matches ConfigSearch::Found(p) && p@ == path_joined(dir@, CONFIG_FILE@)),
        !exists ==> match path_parent_of(dir@) {
            Some(q) => (r matches ConfigSearch::Next(n) && n@ == q),
            None => r is NotFound,
        },
{
    if exists {
        return ConfigSearch::Found(config_candidate(dir));
    }
    match path_parent(dir) {
        Some(parent) => ConfigSearch::Next(parent),
        None => ConfigSearch::NotFound,
    }
}

/// The message when no directory from `current_dir` up holds the
/// configuration file.
pub open spec fn config_not_found_message(current_dir: Seq<char>) -> Seq<char> {
    "Could not find "@ + CONFIG_FILE@ + " in "@ + current_dir + " or any parent directory."@
}

/// Reports that the search from `current_dir` found no configuration file.
pub fn log_config_not_found(log: &mut Logger, current_dir: &str)
    ensures
        final(log).entries().len() == old(log).entries().len() + 1,
        final(log).entries().drop_last() == old(log).entries(),
        plain_entry(
            final(log).entries().last(),
            LogLevel::Error,
            config_not_found_message(current_dir@),
            "Create vue-script.toml in the project root or run the command from inside the project."@,
        ),
        final(log).spec_format() == old(log).spec_format(),
{
    let mut message = owned("Could not find ");
    message.append(CONFIG_FILE);
    message.append(" in ");
    message.append(current_dir);
    message.append(" or any parent directory.");
    log.log(
        None,
        LogEntry {
            level: LogLevel::Error,
            span: None,
            message,
            note: Some("Create vue-script.toml in the project root or run the command from inside the project."),
        },
    );
}

/// What the watcher of `serve` is doing: waiting for a change, or letting
/// a change settle before it rebuilds (with the last path that changed).
#[derive(Clone, Debug, PartialEq, Eq)]
pub enum WatchState {
    Idle,
    Settling(String),
}

/// What the watcher saw: a file event, with the path that triggers a
/// rebuild if any (see [`matching_event_path`]); a quiet period (no event
/// in the polling interval while idle, or for the whole settling time); an
/// error of the watcher; or its end.
#[derive(Clone, Debug, PartialEq, Eq)]
pub enum WatchEvent {
    Changed(Option<String>),
    Quiet,
    WatcherFailed(String),
    Disconnected,
}

/// What to do next: keep waiting; (re)start the settling time; rebuild
/// after a change of `path`, reloading the configuration first where the
/// configuration file changed; warn; or stop serving with a message.
#[derive(Clone, Debug, PartialEq, Eq)]
pub enum WatchAction {
    Wait,
    Settle,
    Rebuild { path: String, reload_config: bool },
    Warn(String),
    Stop(String),
}

/// The message about an error of the file watcher.
pub open spec fn watcher_error_message(error: Seq<char>) -> Seq<char> {
    "File watcher reported an error: "@ + error
}

/// The message when the file watcher goes away.
pub open spec fn disconnected_message() -> Seq<char> {
    "File watcher disconnected unexpectedly"@
}

/// The rebuild loop of `serve`: a change that triggers a rebuild starts the
/// settling time, a later one restarts it with its path, and when it has
/// passed quietly the page is rebuilt, after a reload of the configuration
/// where the configuration file changed.  A watcher error is a warning
/// while idle and ends serving while settling; a lost watcher ends it.
pub fn watch_step(state: WatchState, event: WatchEvent) -> (r: (WatchState, WatchAction))
    ensures
        match state {
            WatchState::Idle => match event {
                WatchEvent::Changed(None) => r.0 is Idle && r.1 is Wait,
                WatchEvent::Changed(Some(p)) => (r.0 matches WatchState::Settling(q) && q@ == p@) && r.1 is Settle,
                WatchEvent::Quiet => r.0 is Idle && r.1 is Wait,
                WatchEvent::WatcherFailed(e) => r.0 is Idle && (r.1 matches WatchAction::Warn(m) && m@
                    == watcher_error_message(e@)),
                WatchEvent::Disconnected => r.0 is Idle && (r.1 matches WatchAction::Stop(m) && m@
                    == disconnected_message()),
            },
            WatchState::Settling(p) => match event {
                WatchEvent::Changed(None) => (r.0 matches WatchState::Settling(q) && q@ == p@) && r.1 is Wait,
                WatchEvent::Changed(Some(n)) => (r.0 matches WatchState::Settling(q) && q@ == n@) && r.1 is Settle,
                WatchEvent::Quiet => r.0 is Idle && (r.1 matches WatchAction::Rebuild { path, reload_config }
                    && path@ == p@ && reload_config == paths_equal(p@, CONFIG_FILE@)),
                WatchEvent::WatcherFailed(e) => r.0 is Idle && (r.1 matches WatchAction::Stop(m) && m@
                    == watcher_error_message(e@)),
                WatchEvent::Disconnected => r.0 is Idle && (r.1 matches WatchAction::Stop(m) && m@
                    == disconnected_message()),
            },
        },
{
    match event {
        WatchEvent::Disconnected => (WatchState::Idle, WatchAction::Stop(owned("File watcher disconnected unexpectedly"))),
        WatchEvent::WatcherFailed(e) => {
            let mut m = owned("File watcher reported an error: ");
            m.append(e.as_str());
            match state {
                WatchState::Idle => (WatchState::Idle, WatchAction::Warn(m)),
                WatchState::Settling(_) => (WatchState::Idle, WatchAction::Stop(m)),
            }
        },
        WatchEvent::Changed(Some(n)) => (WatchState::Settling(n), WatchAction::Settle),
        WatchEvent::Changed(None) => (state, WatchAction::Wait),
        WatchEvent::Quiet => match state {
            WatchState::Idle => (WatchState::Idle, WatchAction::Wait),
            WatchState::Settling(p) => {
                let reload_config = is_config_path(p.as_str());
                (WatchState::Idle, WatchAction::Rebuild { path: p, reload_config })
            },
        },
    }
}

} // verus!
