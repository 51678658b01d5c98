use thurbox_kernel::query::{fold_line, Query};
use thurbox_kernel::results::{history_of, run, run_if_fits, snippet, History, HistoryLine, Request, Source, SNIPPET_CHARS};
use thurbox_kernel::search::tight_subsequence;
use thurbox_kernel::search_store::{SearchStore, Serve, RESCAN_INTERVAL_MS};

fn q(text: &str) -> Query {
    Query::parse(text).expect("parses").expect("has terms")
}

#[test]
fn a_word_matches_as_a_substring_and_ranks_above_a_subsequence() {
    let exact = q("config").match_line("load config file").unwrap();
    let fuzzy = q("cnfg").match_line("load config file").unwrap();
    assert!(exact.exact && !fuzzy.exact);
    assert!(exact.score > fuzzy.score);
    assert_eq!(exact.ranges, vec![(5, 11)]);
}

#[test]
fn the_tightest_subsequence_wins_wherever_it_is() {
    assert!(q("cnfg").match_line("c.......... config").is_some());
    assert_eq!(
        tight_subsequence(&"cxxxxxxxx cfg".chars().collect::<Vec<_>>(), &['c', 'f', 'g']),
        Some(vec![10, 11, 12])
    );
}

#[test]
fn a_subsequence_spread_across_a_line_is_not_a_match() {
    assert!(q("cfg").match_line("cat foo | grep bar").is_none());
    assert!(q("cfg").match_line("config").is_some());
}

#[test]
fn every_word_must_match_in_any_order() {
    let query = q("deploy failed");
    assert!(query.match_line("failed to deploy").is_some());
    assert!(query.match_line("deploy ok").is_none());
}

#[test]
fn the_whole_query_as_typed_ranks_first() {
    let query = q("deploy failed");
    let together = query.match_line("the deploy failed again").unwrap();
    let apart = query.match_line("failed: could not deploy").unwrap();
    assert!(together.score > apart.score);
}

#[test]
fn case_is_ignored_until_the_query_has_a_capital() {
    assert!(q("error").match_line("ERROR: boom").is_some());
    assert!(q("Error").match_line("ERROR: boom").is_none());
    assert!(q("Error").match_line("Error: boom").is_some());
}

#[test]
fn a_quoted_phrase_must_appear_verbatim() {
    let query = q("\"run the tests\"");
    assert!(query.match_line("please run the tests now").is_some());
    assert!(query.match_line("the tests run").is_none());
    assert!(query.match_line("run thetests").is_none());
}

#[test]
fn a_slashed_term_is_a_regex() {
    let query = q("/fn \\w+_test/");
    let hit = query.match_line("  fn parse_test() {").unwrap();
    assert_eq!(hit.ranges, vec![(2, 15)]);
    assert!(Query::parse("/(unclosed/").is_err());
}

#[test]
fn a_standalone_word_outranks_one_inside_another() {
    let query = q("err");
    let alone = query.match_line("err: bad").unwrap();
    let inside = query.match_line("stderr bad").unwrap();
    assert!(alone.score > inside.score);
}

#[test]
fn an_empty_query_has_no_terms() {
    assert!(Query::parse("   ").unwrap().is_none());
    assert!(Query::parse("\"\"").unwrap().is_none());
}

fn history(lines: &[&str], scrollback: usize, rows: usize) -> History {
    History {
        lines: lines
            .iter()
            .enumerate()
            .map(|(row, text)| HistoryLine {
                text: text.to_string(),
                folded: fold_line(text),
                row,
            })
            .collect(),
        scrollback,
        rows,
        size: (rows as u16, 40),
    }
}

#[test]
fn a_hit_knows_how_to_get_back_to_it() {
    // A hundred lines and the empty one under the cursor, on a ten-row screen.
    let h = history(&["needle"], 91, 10);
    assert_eq!(h.scroll_to(0), 91);
    assert_eq!(h.row_on_screen(0), 0, "scrolled there, the line is the top row");
    assert!(h.back(0) >= 99);
}

#[test]
fn a_line_on_screen_needs_no_scrolling() {
    let h = history(&["needle", "next"], 0, 10);
    assert_eq!(h.scroll_to(0), 0);
    assert_eq!(h.row_on_screen(0), 0);
}

#[test]
fn a_long_line_is_windowed_around_its_hit() {
    let line = "x".repeat(300) + " needle " + &"y".repeat(300);
    let matched = q("needle").match_line(&line).unwrap();
    let (text, ranges) = snippet(&line, &matched.ranges);
    assert!(text.starts_with('…') && text.ends_with('…'));
    assert!(text.chars().count() <= SNIPPET_CHARS + 2);
    let (s, e) = ranges[0];
    let shown: String = text.chars().skip(s).take(e - s).collect();
    assert_eq!(shown, "needle");
}

fn source(session: &str, stamp: u64) -> Source {
    Source {
        session: session.into(),
        shell: false,
        stamp,
    }
}

#[test]
fn exact_hits_rank_first_then_the_session_that_printed_last() {
    let sources = vec![source("old", 1), source("new", 2), source("fuzzy", 3)];
    let histories = vec![
        history(&["deploy here", ""], 0, 10),
        history(&["deploy there", ""], 0, 10),
        history(&["dploy", "deplooy", ""], 0, 10),
    ];
    let answer = run(
        Request {
            query: "deploy".into(),
            sessions: None,
        },
        &sources,
        &histories,
    );
    let order: Vec<&str> = answer.hits.iter().map(|h| h.session.as_str()).collect();
    assert_eq!(order[..2], ["new", "old"]);
    assert_eq!(answer.sessions, 3);
}

#[test]
fn the_store_runs_a_request_once_and_reports_only_a_changed_answer() {
    let sources = vec![source("s", 1)];
    let histories = vec![history(&["needle", ""], 0, 10)];
    let request = Request {
        query: "needle".into(),
        sessions: None,
    };
    let mut store = SearchStore::new();
    let mut asked = 0;
    let mut serve = |store: &mut SearchStore, generation: u64, now: u64| match store.serve(Some(request.clone()), generation, now) {
        Serve::Dispatch(r) => {
            asked += 1;
            Some(run(r, &sources, &histories))
        }
        _ => None,
    };
    let first = serve(&mut store, 1, 0).expect("the first request runs");
    assert!(store.poll(first), "the first answer is news");
    assert_eq!(store.answer().map(|a| a.hits.len()), Some(1));

    assert!(serve(&mut store, 1, 10).is_none());
    assert!(!store.running());

    let again = serve(&mut store, 2, RESCAN_INTERVAL_MS + 10).expect("printed since, and the interval passed");
    assert!(!store.poll(again), "an identical answer is not a change");
    assert_eq!(asked, 2);

    assert!(matches!(store.serve(None, 1, 0), Serve::Released(true)));
    assert!(store.answer().is_none());
}

fn screen(rows: u16, cols: u16, input: &str) -> vt100::Parser {
    let mut parser = vt100::Parser::new(std::num::NonZeroU16::new(rows).unwrap(), std::num::NonZeroU16::new(cols).unwrap(), 1000);
    parser.process(input.as_bytes());
    parser
}

#[test]
fn history_reads_the_scrollback_not_just_the_screen() {
    let mut text = String::from("needle here\r\n");
    for n in 0..50 {
        text.push_str(&format!("line {n}\r\n"));
    }
    let mut parser = screen(10, 40, &text);
    parser.screen_mut().set_scrollback(3);
    let history = History::read(parser.screen_mut());
    assert_eq!(history.lines[0].text, "needle here");
    assert_eq!(history.lines[0].row, 0);
    assert_eq!((history.scrollback, history.rows), (42, 10));
    assert_eq!(parser.screen().scrollback(), 3);
}

#[test]
fn a_wrapped_line_is_read_as_one() {
    let long = "a".repeat(30) + "NEEDLE" + &"b".repeat(10);
    let parser_text = format!("{long}\r\n");
    let mut parser = screen(5, 20, &parser_text);
    let history = History::read(parser.screen_mut());
    assert_eq!(history.lines[0].text, long);
}

#[test]
fn wrapped_rows_are_joined_and_folded() {
    let history = History::from_rows(
        vec![("ab".to_string(), true), ("CD".to_string(), false), ("Ef".to_string(), false)],
        1,
        2,
        (2, 2),
    );
    assert_eq!(history.lines.len(), 2);
    assert_eq!(history.lines[0].text, "abCD");
    assert_eq!(history.lines[0].folded, "abcd");
    assert_eq!(history.lines[0].row, 0);
    assert_eq!(history.lines[1].row, 2);
}

#[test]
fn an_unchanged_terminal_is_read_once() {
    let mut parser = screen(5, 20, "needle\r\n");
    let first = history_of(7, None, parser.screen_mut());
    assert_eq!(first.lines[0].text, "needle");
    // More printed since: the stamp moved, so the terminal is read again.
    parser.process(b"haystack\r\n");
    let held = History::from_rows(Vec::new(), 0, 5, (5, 20));
    let reread = history_of(8, Some((7, held)), parser.screen_mut());
    assert_eq!(reread.lines[1].text, "haystack");
    // Nothing printed since the stamp it was read at: the held history is
    // reused as it is, whatever the screen now shows.
    let held = History::from_rows(Vec::new(), 0, 5, (5, 20));
    let reused = history_of(8, Some((8, held)), parser.screen_mut());
    assert!(reused.lines.is_empty());
    // A resize changes what the rows hold without anything printed.
    let held = History::from_rows(Vec::new(), 0, 5, (6, 20));
    let resized = history_of(8, Some((8, held)), parser.screen_mut());
    assert_eq!(resized.lines[0].text, "needle");
}

#[test]
fn a_search_too_large_to_count_through_is_not_run() {
    let sources: Vec<Source> = Vec::new();
    let histories: Vec<History> = Vec::new();
    let request = Request { query: "x".repeat(9_000_001), sessions: None };
    assert!(run_if_fits(request, &sources, &histories).is_none());
    let request = Request { query: "needle".to_string(), sessions: None };
    let answer = run_if_fits(request.clone(), &sources, &histories).expect("fits");
    assert_eq!(answer.request, request);
}
