use vue_script::config::parse_contents;
use vue_script::log::Logger;
use vue_script::serve::{
    config_candidate, config_search_step, is_config_path, log_config_not_found, matching_event_path, relative_event_path,
    reload_outcome, target_url, watch_status, watch_step, ConfigSearch, ReloadAction, WatchAction, WatchEvent, WatchState,
    DEFAULT_PORT,
};

#[test]
fn the_target_url_follows_the_target_path() {
    assert_eq!(target_url(Some("target/index.html"), 8000).as_deref(), Some("http://127.0.0.1:8000/target/index.html"));
    assert_eq!(target_url(Some("./a/../b.html"), 8123).as_deref(), Some("http://127.0.0.1:8123/./a/../b.html"));
    assert_eq!(target_url(None, 8000), None);
}

#[test]
fn event_paths_are_taken_relative_to_the_project_root() {
    assert_eq!(relative_event_path("/work/project", "/work/project/app/main.vue").as_deref(), Some("app/main.vue"));
    assert_eq!(relative_event_path("/work/project", "app/main.vue").as_deref(), Some("app/main.vue"));
    assert_eq!(relative_event_path("/work/project", "/elsewhere/x.vue"), None);
    assert!(is_config_path("vue-script.toml"));
    assert!(!is_config_path("app/vue-script.toml"));
}

#[test]
fn only_watched_changes_trigger_a_rebuild() {
    let mut log = Logger::new();
    let config = parse_contents(
        &mut log,
        "vue-script.toml".to_string(),
        "[app]\nmain = \"app/main.vue\"\n[target]\npath = \"target/index.html\"\n[serve]\nwatch = \"app/**/*\"\n",
    )
    .expect("config should parse");
    let root = "/work/project";
    let paths = vec!["/work/project/target/index.html".to_string(), "/work/project/app/main.vue".to_string()];
    assert_eq!(matching_event_path(&config.serve, root, true, &paths).as_deref(), Some("app/main.vue"));
    assert_eq!(matching_event_path(&config.serve, root, false, &paths), None);
    let ignored = vec!["/work/project/target/index.html".to_string(), "/other/app/main.vue".to_string()];
    assert_eq!(matching_event_path(&config.serve, root, true, &ignored), None);
    let config_change = vec!["/work/project/vue-script.toml".to_string()];
    assert_eq!(matching_event_path(&config.serve, root, true, &config_change).as_deref(), Some("vue-script.toml"));
}

#[test]
fn the_watch_status_counts_the_configured_patterns() {
    assert_eq!(watch_status(2), "Watching 2 path pattern(s) for rebuilds.");
    assert_eq!(watch_status(0), "No [serve].watch entries are configured. Watching vue-script.toml for config changes only.");
}

#[test]
fn the_watcher_rebuilds_once_a_change_has_settled() {
    let (state, action) = watch_step(WatchState::Idle, WatchEvent::Changed(Some("app/main.vue".to_string())));
    assert_eq!(state, WatchState::Settling("app/main.vue".to_string()));
    assert_eq!(action, WatchAction::Settle);
    let (state, action) = watch_step(state, WatchEvent::Changed(None));
    assert_eq!(state, WatchState::Settling("app/main.vue".to_string()));
    assert_eq!(action, WatchAction::Wait);
    let (state, action) = watch_step(state, WatchEvent::Changed(Some("vue-script.toml".to_string())));
    assert_eq!(action, WatchAction::Settle);
    let (state, action) = watch_step(state, WatchEvent::Quiet);
    assert_eq!(state, WatchState::Idle);
    assert_eq!(action, WatchAction::Rebuild { path: "vue-script.toml".to_string(), reload_config: true });
    let (_, action) = watch_step(WatchState::Settling("a.vue".to_string()), WatchEvent::Quiet);
    assert_eq!(action, WatchAction::Rebuild { path: "a.vue".to_string(), reload_config: false });
    assert_eq!(watch_step(WatchState::Idle, WatchEvent::Quiet), (WatchState::Idle, WatchAction::Wait));
    assert_eq!(
        watch_step(WatchState::Idle, WatchEvent::WatcherFailed("oops".to_string())).1,
        WatchAction::Warn("File watcher reported an error: oops".to_string())
    );
    assert_eq!(
        watch_step(WatchState::Settling("a.vue".to_string()), WatchEvent::WatcherFailed("oops".to_string())).1,
        WatchAction::Stop("File watcher reported an error: oops".to_string())
    );
    assert_eq!(
        watch_step(WatchState::Idle, WatchEvent::Disconnected).1,
        WatchAction::Stop("File watcher disconnected unexpectedly".to_string())
    );
}

#[test]
fn the_configuration_is_searched_for_upwards() {
    assert_eq!(config_candidate("/work/project"), "/work/project/vue-script.toml");
    assert_eq!(config_search_step("/work/project", true), ConfigSearch::Found("/work/project/vue-script.toml".to_string()));
    assert_eq!(config_search_step("/work/project", false), ConfigSearch::Next("/work".to_string()));
    assert_eq!(config_search_step("/", false), ConfigSearch::NotFound);
    let mut log = Logger::new();
    log_config_not_found(&mut log, "/work/project/app");
    assert_eq!(
        log.diagnostics()[0].message,
        "Could not find vue-script.toml in /work/project/app or any parent directory."
    );
    assert_eq!(log.error_count(), 1);
    assert_eq!(DEFAULT_PORT, 8000);
}

#[test]
fn reload_prints_only_what_changed() {
    let same = reload_outcome(2, "http://127.0.0.1:8000/app/index.html", Ok((2, "http://127.0.0.1:8000/app/index.html".to_string())));
    assert_eq!(same, ReloadAction::Replace { watch_status: None, target_notice: None });

    let changed = reload_outcome(2, "http://127.0.0.1:8000/app/index.html", Ok((0, "http://127.0.0.1:8000/out/page.html".to_string())));
    assert_eq!(
        changed,
        ReloadAction::Replace {
            watch_status: Some("No [serve].watch entries are configured. Watching vue-script.toml for config changes only.".to_string()),
            target_notice: Some("Updated target URL to http://127.0.0.1:8000/out/page.html".to_string()),
        }
    );

    let more = reload_outcome(1, "u", Ok((3, "u".to_string())));
    assert_eq!(
        more,
        ReloadAction::Replace { watch_status: Some("Watching 3 path pattern(s) for rebuilds.".to_string()), target_notice: None }
    );
}

#[test]
fn failed_reload_keeps_the_previous_configuration() {
    let kept = reload_outcome(2, "u", Err("No target output path is configured".to_string()));
    assert_eq!(
        kept,
        ReloadAction::KeepPrevious {
            warning: "Keeping previous serve configuration after reload failed: No target output path is configured".to_string(),
            note: "Fix vue-script.toml and save again; the watcher will retry on the next config change.".to_string(),
        }
    );
}
