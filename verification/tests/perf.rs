use std::time::Duration;

use thurbox_kernel::perf::{
    micros, plugin_hints, plugin_report, tree_size, Counters, DurationHistogram, Hint, Node, PluginMeta,
    PluginReport, PluginTable, Run, RunTiming, SlowOp, SlowOps, Snapshot, Timings, SLOW_OPS_CAP,
    SLOW_OP_RING_MS, SLOW_OP_WARN_MS,
};

#[test]
fn counters_start_at_zero_and_count_up() {
    let mut counters = Counters::default();
    assert_eq!(counters.read(), Snapshot::default());
    Counters::bump(&mut counters.frames);
    Counters::bump(&mut counters.frames);
    assert_eq!(counters.read().frames, 2);
}

#[test]
fn an_empty_histogram_reports_zero_rather_than_a_bucket_bound() {
    let h = DurationHistogram::default();
    assert_eq!(h.percentile_us(50), 0);
    assert_eq!(h.percentile_us(95), 0);
    assert_eq!(h.max_us(), 0);
    assert_eq!(h.total(), 0);
    assert_eq!(h.sum_us(), 0);
}

#[test]
fn a_percentile_never_reads_above_the_max_beside_it() {
    let mut h = DurationHistogram::default();
    h.record(Duration::from_micros(300));
    assert_eq!(h.max_us(), 300);
    assert!(h.percentile_us(95) <= h.max_us());
    assert!(h.percentile_us(50) <= h.max_us());
}

#[test]
fn an_overflow_sample_is_counted_and_reported_as_the_max() {
    let mut h = DurationHistogram::default();
    h.record(Duration::from_secs(3));
    assert_eq!(h.total(), 1);
    assert_eq!(h.max_us(), 3_000_000);
    assert_eq!(h.percentile_us(95), 3_000_000);
}

#[test]
fn the_slow_op_ring_keeps_the_newest_and_reads_newest_first() {
    let mut ops = SlowOps::default();
    for i in 0..(SLOW_OPS_CAP as u64 + 4) {
        ops.push(SlowOp {
            name: "op",
            ms: i,
            plugin: None,
        });
    }
    let seen: Vec<u64> = ops.iter_recent().into_iter().map(|op| op.ms).collect();
    assert_eq!(seen.len(), SLOW_OPS_CAP);
    assert_eq!(seen[0], SLOW_OPS_CAP as u64 + 3);
    assert!(!seen.contains(&0));
}

#[test]
fn only_ops_over_the_ring_threshold_are_kept_and_only_slow_ones_warn() {
    let mut t = Timings::default();
    assert!(!t.record_op("fast", Duration::from_micros(200), None));
    assert!(t.slow_ops.is_empty(), "a fast op is not worth a ring slot");

    assert!(!t.record_op("middling", Duration::from_millis(SLOW_OP_RING_MS), None));
    assert!(!t.slow_ops.is_empty());

    assert!(
        t.record_op("stall", Duration::from_millis(SLOW_OP_WARN_MS), None),
        "an op over the warn threshold asks the caller to log it"
    );
}

#[test]
fn a_window_reset_clears_timings_but_not_the_counters() {
    let mut t = Timings::default();
    t.frame.record(Duration::from_millis(5));
    t.tick.record(Duration::from_millis(1));
    t.republish.record(Duration::from_millis(2));
    t.record_op("op", Duration::from_millis(50), None);
    t.reset_window();
    assert_eq!(t.frame.total(), 0);
    assert_eq!(t.tick.total(), 0);
    assert_eq!(t.republish.total(), 0);
    assert!(t.slow_ops.is_empty());
}

#[test]
fn a_window_is_the_difference_between_two_readings() {
    let mut counters = Counters::default();
    Counters::bump(&mut counters.frames);
    let before = counters.read();
    Counters::bump(&mut counters.frames);
    Counters::bump(&mut counters.skipped);
    let window = counters.read().since(&before);
    assert_eq!(window.frames, 1);
    assert_eq!(window.skipped, 1);
    assert_eq!(window.iterations, 0);
}

fn meta<'a>(name: &'a str, pure: bool, floats: bool) -> PluginMeta<'a> {
    PluginMeta {
        name,
        path: name,
        pure,
        floats,
    }
}

#[test]
fn a_hint_needs_enough_frames_to_mean_anything() {
    // Three impure renders in three frames is every frame, and says nothing.
    let mut table = PluginTable::default();
    for _ in 0..3 {
        table.note_frame(Duration::from_millis(1));
        table.stats_mut("a").renders += 1;
    }
    let report = plugin_report(&table, &[meta("a", false, false)], &Vec::new());
    assert!(report.rows[0].hints.is_empty(), "{:?}", report.rows[0]);
}

#[test]
fn an_unmeasured_plugin_still_gets_a_row_and_ranks_last() {
    let mut table = PluginTable::default();
    table.stats_mut("busy").render.record(Duration::from_millis(4));
    let report = plugin_report(&table, &[meta("idle", true, false), meta("busy", true, false)], &Vec::new());
    let names: Vec<&str> = report.rows.iter().map(|r| r.name.as_str()).collect();
    assert_eq!(names, ["busy", "idle"]);
    assert_eq!(report.rows[1].total_us, 0);
}

#[test]
fn plugins_alike_in_time_rank_by_renders_then_name() {
    let mut table = PluginTable::default();
    table.stats_mut("b").renders = 2;
    table.stats_mut("c").renders = 5;
    let report = plugin_report(
        &table,
        &[meta("b", true, false), meta("a", true, false), meta("c", true, false)],
        &Vec::new(),
    );
    let names: Vec<&str> = report.rows.iter().map(|r| r.name.as_str()).collect();
    assert_eq!(names, ["c", "b", "a"]);
}

#[test]
fn a_report_row_carries_its_runs_and_its_share_of_frame_time() {
    let mut table = PluginTable::default();
    table.note_frame(Duration::from_millis(2));
    table.stats_mut("p").render.record(Duration::from_millis(1));
    table.stats_mut("q").render.record(Duration::from_millis(5));
    let timing = RunTiming { started: 2, finished: 1, total_us: 70, max_us: 70 };
    let report = plugin_report(
        &table,
        &[meta("p", true, false), meta("q", true, false)],
        &vec![("p".to_string(), timing)],
    );
    assert_eq!(report.frames, 1);
    assert_eq!(report.rows[0].name, "q");
    assert_eq!(report.rows[0].frame_share(report.frame_total_us), (2000, 2000));
    assert_eq!(report.rows[1].frame_share(report.frame_total_us), (1000, 2000));
    assert_eq!(report.rows[1].runs, timing);
    assert_eq!(report.rows[0].runs, RunTiming::default());
    assert_eq!(report.rows[0].frame_share(0), (0, 1));
}

#[test]
fn the_summary_names_the_costly_panes_and_their_hints() {
    let mut table = PluginTable::default();
    for _ in 0..10 {
        table.note_frame(Duration::from_millis(1));
        let stats = table.stats_mut("a");
        stats.renders += 1;
        stats.render.record(Duration::from_micros(100));
    }
    table.stats_mut("b").render.record(Duration::from_micros(30));
    table.stats_mut("b").reused = 3;
    let report = plugin_report(
        &table,
        &[meta("a", false, false), meta("b", true, false), meta("c", true, false)],
        &Vec::new(),
    );
    assert_eq!(report.summary(5), "a:1000us:10r/0c:not_pure b:30us:0r/3c");
    assert_eq!(report.summary(1), "a:1000us:10r/0c:not_pure");
    assert_eq!(PluginReport::default().summary(3), "");
}

#[test]
fn tree_size_counts_nodes_and_runs_through_boxes() {
    let text = |runs: usize| Node::Text {
        lines: vec![vec![Run { text: "x".to_string() }; runs]],
    };
    let tree = Node::Box {
        children: vec![text(2), text(3)],
    };
    assert_eq!(tree_size(&tree), (3, 5));
}

#[test]
fn a_wrapping_counter_starts_again_at_zero() {
    let mut n = u64::MAX;
    Counters::bump(&mut n);
    assert_eq!(n, 0);
}

#[test]
fn a_duration_reads_as_whole_microseconds() {
    assert_eq!(micros(Duration::from_nanos(2_999)), 2);
    assert_eq!(micros(Duration::from_secs(1)), 1_000_000);
}

#[test]
fn an_impure_plugin_rendering_every_frame_is_named() {
    let mut table = PluginTable::default();
    for _ in 0..10 {
        table.note_frame(Duration::from_millis(1));
        table.stats_mut("a").renders += 1;
    }
    let stats = table.get("a").expect("noted");
    let hints = plugin_hints(&meta("a", false, false), stats, 10);
    assert_eq!(hints, vec![Hint::NotPure]);
}
