use thurbox_kernel::surfaces::{
    button_cell, missing_agents, output_generation, screen_text, visible_text, CONTENT_LINE_CAP, should_evict, want_a_live_shell, AgentCheck, ShellPane,
    attach_step, candidate_pane, discovery_interval, due_now, grid_top, lost_pane, mirror_backoff, mouse_report,
    note_waiting, pty_cell, shell_surface, split_surface, survey_backoff, surveyed_since, waiting_backends,
    AttachStep, MouseEncoding,
    ATTACH_RETRY_INTERVAL_MS, DISCOVERY_INTERVAL_MS, MIRROR_INTERVAL_MS, MIRROR_RETRY_INTERVAL_MS,
    REMOTE_DISCOVERY_INTERVAL_MS,
};

#[test]
fn a_remote_backend_is_surveyed_on_its_own_cadence() {
    assert_eq!(discovery_interval("local-tmux"), DISCOVERY_INTERVAL_MS);
    assert_eq!(discovery_interval("ssh:devbox"), REMOTE_DISCOVERY_INTERVAL_MS);
    assert_eq!(discovery_interval("wsl:ubuntu"), REMOTE_DISCOVERY_INTERVAL_MS);
    assert!(
        REMOTE_DISCOVERY_INTERVAL_MS > DISCOVERY_INTERVAL_MS,
        "a listing that travels over ssh costs more than a local one"
    );
}

#[test]
fn a_survey_that_learned_nothing_backs_off_to_the_attach_retry() {
    let wait = survey_backoff("ssh:devbox", false, false);
    assert!(wait > REMOTE_DISCOVERY_INTERVAL_MS, "a fruitless survey must wait longer than an ordinary one");
    assert_eq!(wait, ATTACH_RETRY_INTERVAL_MS);
}

#[test]
fn a_survey_that_found_windows_keeps_the_ordinary_cadence() {
    assert!(survey_backoff("ssh:devbox", true, true) <= REMOTE_DISCOVERY_INTERVAL_MS);
}

#[test]
fn a_mirror_pass_that_could_not_run_backs_its_host_off() {
    assert!(mirror_backoff(false) > MIRROR_INTERVAL_MS);
    assert_eq!(mirror_backoff(false), MIRROR_RETRY_INTERVAL_MS);
}

#[test]
fn a_mirror_pass_that_ran_keeps_the_ordinary_cadence() {
    assert!(mirror_backoff(true) <= MIRROR_INTERVAL_MS);
}

#[test]
fn a_restart_surveys_afresh_rather_than_waiting_out_a_backoff() {
    let mut schedule = vec![("local-tmux".to_string(), 1_000 + ATTACH_RETRY_INTERVAL_MS)];
    assert!(!due_now(&schedule, "local-tmux", 1_000));
    schedule.clear();
    assert!(due_now(&schedule, "local-tmux", 1_000), "a restart must not wait out a backoff");
}

#[test]
fn a_shell_surface_names_its_session() {
    assert_eq!(shell_surface("abc"), "abc#shell");
    assert_eq!(split_surface("abc#shell"), ("abc".to_string(), true));
    assert_eq!(split_surface("abc"), ("abc".to_string(), false));
    assert_eq!(split_surface("#shell"), (String::new(), true));
}

#[test]
fn a_grid_taller_than_its_rect_shows_its_bottom_rows() {
    assert_eq!(grid_top(40, 10), 30);
    assert_eq!(grid_top(10, 40), 0);
}

#[test]
fn a_mouse_event_is_encoded_the_way_the_pane_asked_for_it() {
    assert_eq!(mouse_report(MouseEncoding::Sgr, 64, 12, 3, true).expect("sgr"), b"\x1b[<64;12;3M".to_vec());
    assert_eq!(mouse_report(MouseEncoding::Sgr, 65, 12, 3, true).expect("sgr"), b"\x1b[<65;12;3M".to_vec());
    assert_eq!(mouse_report(MouseEncoding::Sgr, 0, 12, 3, false).expect("sgr"), b"\x1b[<0;12;3m".to_vec());
    assert_eq!(mouse_report(MouseEncoding::Default, 64, 12, 3, true).expect("default"), vec![0x1b, b'[', b'M', 96, 44, 35]);
    assert_eq!(mouse_report(MouseEncoding::Default, 0, 12, 3, false).expect("default"), vec![0x1b, b'[', b'M', 35, 44, 35]);
    assert_eq!(mouse_report(MouseEncoding::Default, 64, 224, 3, true), None);
    assert!(mouse_report(MouseEncoding::Default, 64, 223, 223, true).is_some());
    assert_eq!(mouse_report(MouseEncoding::Utf8, 64, 12, 3, true), None);
    assert_eq!(mouse_report(MouseEncoding::Sgr, 65, 300, 1000, true), Some(b"\x1b[<65;300;1000M".to_vec()));
}

#[test]
fn a_point_maps_to_its_pty_cell() {
    assert_eq!(pty_cell(10, 5, 10, 5, 0), (1, 1));
    assert_eq!(pty_cell(12, 7, 10, 5, 30), (3, 33));
}

#[test]
fn a_pane_id_the_survey_confirms_is_kept() {
    assert_eq!(candidate_pane(Some("%1".into()), false, Some("%9".into())), (Some("%1".to_string()), false));
    assert_eq!(candidate_pane(Some("%1".into()), true, Some("%9".into())), (Some("%9".to_string()), true));
    assert_eq!(candidate_pane(None, false, None), (None, true));
}

#[test]
fn an_unsurveyed_backend_contradicts_nothing() {
    assert!(!surveyed_since(0, Some(0)));
    assert!(!surveyed_since(3, None));
    assert!(surveyed_since(4, Some(3)));
}

#[test]
fn an_attach_with_no_pane_is_recorded_rather_than_retried() {
    assert_eq!(attach_step(false, None, None, 0, true, false), AttachStep::Fail);
    let failure = Some((None, 0));
    assert_eq!(attach_step(false, None, failure.clone(), 5_000, true, false), AttachStep::Hold);
    assert_eq!(attach_step(false, None, failure, ATTACH_RETRY_INTERVAL_MS, true, false), AttachStep::Fail);
    assert_eq!(
        attach_step(false, Some("%2".into()), Some((None, 0)), 5_000, true, false),
        AttachStep::Start("%2".into()),
        "a different candidate is worth trying at once"
    );
    assert_eq!(attach_step(true, Some("%2".into()), None, 0, true, false), AttachStep::Hold);
    assert_eq!(attach_step(false, Some("%2".into()), None, 0, false, true), AttachStep::Hold);
}

#[test]
fn a_pane_id_a_restarted_server_invalidated_is_dropped_rather_than_retried() {
    assert_eq!(lost_pane(&Some("%3".into()), "%1", false, false, true), Some("session has no pane yet".to_string()));
    assert_eq!(lost_pane(&Some("%3".into()), "%1", false, false, false), None);
    assert_eq!(lost_pane(&Some("%3".into()), "%1", false, true, false), Some("host unreachable".to_string()));
    assert_eq!(lost_pane(&Some(String::new()), "%1", false, true, true), None);
    assert_eq!(lost_pane(&None, "%1", true, false, false), Some("session has no pane yet".to_string()));
}

fn pair(a: &str, b: &str) -> (String, String) {
    (a.to_string(), b.to_string())
}

fn stamp(a: &str, n: u64) -> (String, u64) {
    (a.to_string(), n)
}

fn stamp_of(v: &[(String, u64)], id: &str) -> Option<u64> {
    v.iter().find(|e| e.0 == id).map(|e| e.1)
}

#[test]
fn a_waiting_row_keeps_its_first_stamp_and_a_new_one_takes_the_current_count() {
    let mut waiting = vec![stamp("gone", 1), stamp("a", 2)];
    let unresolved = vec![pair("a", "local-tmux"), pair("b", "ssh:devbox"), pair("c", "wsl:ubuntu")];
    let surveys = vec![stamp("ssh:devbox", 5), stamp("local-tmux", 9)];
    note_waiting(&mut waiting, &unresolved, &surveys);
    assert_eq!(stamp_of(&waiting, "a"), Some(2));
    assert_eq!(stamp_of(&waiting, "b"), Some(5));
    assert_eq!(stamp_of(&waiting, "c"), Some(0), "a backend never listed has a count of none");
    assert_eq!(stamp_of(&waiting, "gone"), None, "a row no longer waiting forgets its stamp");
    assert_eq!(waiting.len(), 3);
}

#[test]
fn each_backend_with_a_waiting_row_is_listed_once_in_order() {
    let unresolved = vec![pair("a", "ssh:z"), pair("b", "local-tmux"), pair("c", "ssh:z")];
    assert_eq!(waiting_backends(&unresolved), vec!["local-tmux".to_string(), "ssh:z".to_string()]);
    assert!(waiting_backends(&Vec::new()).is_empty());
}

fn check(id: &str) -> AgentCheck {
    AgentCheck {
        id: id.to_string(),
        busy: false,
        stopped: false,
        surveyed: true,
        pane: None,
        placed: false,
        absent: true,
    }
}

#[test]
fn only_a_row_a_fresh_listing_says_is_gone_is_relaunched() {
    let gone = check("gone");
    let stopped = AgentCheck { stopped: true, ..check("stopped") };
    let unsurveyed = AgentCheck { surveyed: false, ..check("new") };
    let attached = AgentCheck { busy: true, ..check("attached") };
    let ambiguous = AgentCheck { absent: false, ..check("ambiguous") };
    let live_pane = AgentCheck { pane: Some("%3".to_string()), placed: true, ..check("live") };
    let phantom = AgentCheck { pane: Some("%9".to_string()), placed: false, ..check("phantom") };
    let empty_pane = AgentCheck { pane: Some(String::new()), placed: true, ..check("empty") };
    let rows = vec![gone, stopped, unsurveyed, attached, ambiguous, live_pane, phantom, empty_pane];
    assert_eq!(missing_agents(&rows), vec!["gone".to_string(), "phantom".to_string(), "empty".to_string()]);
}

#[test]
fn a_missing_shell_is_asked_for_once_per_pane() {
    let mut asked = None;
    assert!(want_a_live_shell(&ShellPane::Absent, &mut asked));
    assert_eq!(asked.as_deref(), Some(""));
    assert!(!want_a_live_shell(&ShellPane::Absent, &mut asked), "asked for already");
    assert!(want_a_live_shell(&ShellPane::Exited("%4".to_string()), &mut asked));
    assert!(!want_a_live_shell(&ShellPane::Exited("%4".to_string()), &mut asked));
    assert!(!want_a_live_shell(&ShellPane::Running, &mut asked));
    assert_eq!(asked, None, "a running shell forgets what was asked");
    assert!(want_a_live_shell(&ShellPane::Exited("%4".to_string()), &mut asked), "a later end is asked about again");
}

#[test]
fn a_drag_off_the_pane_lands_on_its_edge() {
    // A rect from (10, 5), 20 by 8, showing grid row 3 at its top.
    assert_eq!(button_cell(12, 6, 10, 5, 20, 8, 3), (3, 5));
    assert_eq!(button_cell(2, 1, 10, 5, 20, 8, 3), (1, 4));
    assert_eq!(button_cell(200, 100, 10, 5, 20, 8, 3), (20, 11));
}

#[test]
fn only_a_grid_long_off_screen_is_dropped() {
    assert!(!should_evict(None, true, false, None), "no limit keeps every grid");
    assert!(should_evict(Some(60_000), true, false, None), "never shown");
    assert!(should_evict(Some(60_000), true, false, Some(60_000)));
    assert!(!should_evict(Some(60_000), true, false, Some(59_999)));
    assert!(!should_evict(Some(60_000), true, true, None), "painted in the last frame");
    assert!(!should_evict(Some(60_000), false, false, None), "nothing held to give back");
}

#[test]
fn any_pane_printing_moves_the_output_signature() {
    let sessions = vec![(3, Some(4)), (10, None)];
    assert_eq!(output_generation(&sessions, &vec![5]), 22);
    assert_eq!(output_generation(&vec![(u64::MAX, Some(2))], &Vec::new()), 1, "the sum wraps");
    assert_eq!(output_generation(&Vec::new(), &Vec::new()), 0);
}

#[test]
fn a_screen_reads_as_its_rows_trimmed() {
    let rows = vec!["ab  ".to_string(), String::new(), " x\t".to_string()];
    assert_eq!(visible_text(true, &rows), Some("ab\n\n x\n".to_string()));
    assert_eq!(visible_text(false, &rows), None, "a dropped grid has nothing to copy");
}

#[test]
fn a_plugin_is_handed_the_last_lines_of_a_screen() {
    assert_eq!(screen_text("a\r\nb\n\nc"), "a\nb\n\nc");
    assert_eq!(screen_text("x\n"), "x");
    assert_eq!(screen_text(""), "");
    let long: String = (0..CONTENT_LINE_CAP + 2).map(|n| format!("{n}\n")).collect();
    let text = screen_text(&long);
    assert_eq!(text.lines().count(), CONTENT_LINE_CAP);
    assert!(text.starts_with("2\n"));
    assert!(text.ends_with(&format!("{}", CONTENT_LINE_CAP + 1)));
}
