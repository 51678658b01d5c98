use thurbox_kernel::repos::{
    browse_entries, parse_branches, Branches, flatten, offer_interface_dir, promote, row, split_want, Bookmark, BookmarkRow, BrowseEntry, Listed, Listing,
    RepoStore, Wants, LISTING_TTL_MS,
};

#[test]
fn nothing_is_known_before_it_is_asked_for() {
    let store = RepoStore::new();
    assert!(store.bookmarks("").is_none());
    assert!(store.listing("", "/tmp").is_none());
    assert!(store.branches("", "/tmp").is_none());
}

#[test]
fn requesting_a_listing_returns_at_once_and_reads_pending() {
    let mut store = RepoStore::new();
    let started = std::time::Instant::now();
    store.request_listing("", "/definitely/not/here", 0);
    assert!(started.elapsed() < std::time::Duration::from_millis(200));
    assert_eq!(store.listing("", "/definitely/not/here"), Some(&Listing::Pending));
}

#[test]
fn pending_is_distinct_from_an_empty_directory() {
    assert_ne!(Listing::Pending, Listing::Ready(Vec::new()));
}

#[test]
fn a_second_request_does_not_relist() {
    let mut store = RepoStore::new();
    store.request_listing("", "/tmp", 0);
    store.set_listing_for_test("", "/tmp", Listing::Ready(Vec::new()), 0);
    assert!(!store.request_listing("", "/tmp", 0));
    assert_eq!(store.listing("", "/tmp"), Some(&Listing::Ready(Vec::new())));
}

fn held(listing: Listing, age: u64) -> (Listed, u64) {
    let now = 1_000_000;
    (Listed { at: now - age, listing }, now)
}

#[test]
fn a_settled_listing_is_read_again_once_it_is_old() {
    let (fresh, now) = held(Listing::Ready(Vec::new()), 0);
    assert!(!fresh.stale(now));
    let (old, now) = held(Listing::Ready(Vec::new()), LISTING_TTL_MS);
    assert!(old.stale(now));
    let (failed, now) = held(Listing::Failed("gone".into()), LISTING_TTL_MS);
    assert!(failed.stale(now));
}

#[test]
fn a_pending_listing_is_never_asked_for_twice() {
    let (pending, now) = held(Listing::Pending, LISTING_TTL_MS * 10);
    assert!(!pending.stale(now));
}

#[test]
fn an_old_listing_is_replaced_by_a_fresh_request() {
    let mut store = RepoStore::new();
    store.set_listing_for_test("", "/tmp", Listing::Ready(Vec::new()), 0);
    store.request_listing("", "/tmp", 0);
    assert_eq!(store.listing("", "/tmp"), Some(&Listing::Ready(Vec::new())), "a fresh answer is reused");

    store.request_listing("", "/tmp", LISTING_TTL_MS);
    assert_eq!(store.listing("", "/tmp"), Some(&Listing::Pending), "a stale one is asked about again");
}

#[test]
fn listings_are_keyed_by_host_as_well_as_directory() {
    let mut store = RepoStore::new();
    store.set_listing_for_test("", "/srv", Listing::Ready(Vec::new()), 0);
    store.set_listing_for_test(
        "ssh:box",
        "/srv",
        Listing::Ready(vec![BrowseEntry {
            name: "repo".to_string(),
            is_git: true,
        }]),
        0,
    );
    assert_eq!(store.listing("", "/srv"), Some(&Listing::Ready(Vec::new())));
    assert!(matches!(
        store.listing("ssh:box", "/srv"),
        Some(Listing::Ready(entries)) if entries.len() == 1
    ));
}

#[test]
fn a_bookmark_request_is_not_repeated_while_in_flight() {
    let mut store = RepoStore::new();
    assert!(store.request_bookmarks("", 0));
    assert!(store.in_flight());
    assert!(!store.request_bookmarks("", 0));
}

#[test]
fn invalidating_bookmarks_drops_what_was_read() {
    let mut store = RepoStore::new();
    store.set_bookmarks_for_test("", vec![row("/src/thing", None, false, Some(true))], 0);
    store.invalidate_bookmarks();
    assert!(store.bookmarks("").is_none());
}

fn saved(path: &str, is_parent: bool, parent: Option<&str>) -> Bookmark {
    Bookmark {
        repo_path: path.to_string(),
        label: None,
        last_used_at: 0,
        use_count: 1,
        is_parent,
        is_git: Some(true),
        parent_path: parent.map(|p| p.to_string()),
    }
}

fn shape(rows: &[BookmarkRow]) -> Vec<(&str, Option<&str>, bool)> {
    rows.iter()
        .map(|row| (row.path.as_str(), row.parent.as_deref(), row.is_parent))
        .collect()
}

#[test]
fn a_standalone_bookmark_is_one_row() {
    let rows = flatten(&vec![saved("/src/thing", false, None)], &Vec::new());
    assert_eq!(shape(&rows), [("/src/thing", None, false)]);
}

#[test]
fn a_folder_leads_its_members() {
    let rows = flatten(
        &vec![
            saved("/src", true, None),
            saved("/src/one", false, Some("/src")),
            saved("/src/two", false, Some("/src")),
        ],
        &Vec::new(),
    );
    assert_eq!(
        shape(&rows),
        [
            ("/src", None, true),
            ("/src/one", Some("/src"), false),
            ("/src/two", Some("/src"), false),
        ]
    );
}

#[test]
fn a_repository_a_folder_covers_is_not_listed_twice() {
    let rows = flatten(
        &vec![
            saved("/src/one", false, None),
            saved("/src", true, None),
            saved("/src/one", false, Some("/src")),
        ],
        &Vec::new(),
    );
    assert_eq!(
        shape(&rows),
        [("/src", None, true), ("/src/one", Some("/src"), false)],
        "the standalone row gives way to the one under the folder"
    );
}

#[test]
fn a_member_whose_folder_is_gone_stands_alone() {
    let rows = flatten(&vec![saved("/src/one", false, Some("/src"))], &Vec::new());
    assert_eq!(shape(&rows), [("/src/one", None, false)]);
}

#[test]
fn a_duplicate_path_is_emitted_once() {
    let rows = flatten(&vec![saved("/src/one", false, None), saved("/src/one", false, None)], &Vec::new());
    assert_eq!(shape(&rows), [("/src/one", None, false)]);
}

#[test]
fn a_folder_row_is_never_offered_as_a_repository() {
    let rows = flatten(&vec![saved("/src", true, None)], &Vec::new());
    assert_eq!(rows.len(), 1);
    assert!(rows[0].is_parent);
    assert_eq!(rows[0].is_git, None, "and its git-ness is not claimed either way");
}

#[test]
fn a_row_leads_with_its_final_component() {
    let built = row("/home/me/src/thurbox", None, false, Some(true));
    assert_eq!(built.name, "thurbox");
    assert_eq!(built.path, "/home/me/src/thurbox");
}

#[test]
fn the_remote_default_branch_leads_the_local_one() {
    let ordered = promote(vec!["feat/x".into(), "main".into(), "old".into()], Some("main"), Some("origin/main"));
    assert_eq!(ordered, ["origin/main", "main", "feat/x", "old"]);
}

#[test]
fn a_remote_branch_already_listed_is_not_listed_twice() {
    let ordered = promote(vec!["origin/main".into(), "main".into()], Some("main"), Some("origin/main"));
    assert_eq!(ordered, ["main", "origin/main"]);
}

#[test]
fn with_no_defaults_the_order_is_left_alone() {
    let ordered = promote(vec!["a".into(), "b".into()], None, None);
    assert_eq!(ordered, ["a", "b"]);
}

#[test]
fn a_want_carries_a_host_and_a_path() {
    let wants = Wants::new(Some(String::new()), Some("\0/srv/repos".into()), Some("ssh:box\0/srv/thing".into()));
    assert_eq!(wants.bookmarks.as_deref(), Some(""));
    assert_eq!(wants.browse, Some((String::new(), "/srv/repos".into())));
    assert_eq!(wants.branches, Some(("ssh:box".into(), "/srv/thing".into())));
}

#[test]
fn a_malformed_or_empty_want_asks_for_nothing() {
    let wants = Wants::new(None, Some("/srv/repos".into()), Some("ssh:box\0".into()));
    assert_eq!(wants.bookmarks, None);
    assert_eq!(wants.browse, None);
    assert_eq!(wants.branches, None);
}

#[test]
fn an_empty_host_key_is_local() {
    assert_eq!(split_want("\0/srv"), Some((String::new(), "/srv".to_string())));
}

#[test]
fn the_interface_directory_is_offered_first() {
    let mut rows = Vec::new();
    offer_interface_dir(&mut rows, "/home/me/.config/thurbox/ui", false);
    assert_eq!(rows.len(), 1, "{rows:?}");
    assert_eq!(rows[0].path, "/home/me/.config/thurbox/ui");
    assert!(!rows[0].is_parent, "it is a repository row, not a folder");
    assert_eq!(rows[0].is_git, Some(false));
    let label = rows[0].label.as_deref().expect("the offered row is named");
    assert!(label.contains("interface"), "the name says what it is: {label}");
}

#[test]
fn a_bookmark_keeps_the_label_it_was_saved_with() {
    let mut saved = saved("/src/thurbox", false, None);
    saved.label = Some("the orchestrator".into());
    let rows = flatten(&vec![saved], &Vec::new());
    assert_eq!(rows.len(), 1, "{rows:?}");
    assert_eq!(rows[0].label.as_deref(), Some("the orchestrator"));

    let plain = flatten(&vec![saved_plain("/src/other")], &Vec::new());
    assert_eq!(plain[0].label, None);
}

fn saved_plain(path: &str) -> Bookmark {
    saved(path, false, None)
}

#[test]
fn a_bookmark_of_your_own_keeps_its_place() {
    let ui = "/home/me/.config/thurbox/ui";
    let mut rows = vec![row(ui, Some("projects".into()), false, Some(true))];
    offer_interface_dir(&mut rows, ui, false);
    assert_eq!(rows.len(), 1);
    assert_eq!(rows[0].parent.as_deref(), Some("projects"));
}

#[test]
fn branches_are_trimmed_and_head_pointers_dropped() {
    let listed = "  main\nfeature/x\n\norigin/HEAD\norigin/main\n";
    match parse_branches(listed, Some("feature/x\n"), Some("origin/main\n")) {
        Branches::Ready(names) => {
            assert_eq!(names, vec!["feature/x".to_string(), "main".to_string(), "origin/main".to_string()]);
        }
        other => panic!("expected branches, got {other:?}"),
    }
    match parse_branches(listed, None, Some(" origin/dev\n")) {
        Branches::Ready(names) => {
            assert_eq!(
                names,
                vec!["origin/dev".to_string(), "main".to_string(), "feature/x".to_string(), "origin/main".to_string()]
            );
        }
        other => panic!("expected branches, got {other:?}"),
    }
}

#[test]
fn a_listing_with_no_branch_is_a_failure() {
    match parse_branches("\n  \norigin/HEAD\n", None, None) {
        Branches::Failed(m) => assert_eq!(m, "No branches found in repository"),
        other => panic!("expected a failure, got {other:?}"),
    }
}

#[test]
fn branches_without_defaults_keep_their_listed_order() {
    match parse_branches("b\na\n", None, None) {
        Branches::Ready(names) => assert_eq!(names, vec!["b".to_string(), "a".to_string()]),
        other => panic!("expected branches, got {other:?}"),
    }
}

#[test]
fn browsing_hides_dot_directories_and_sorts_by_name() {
    let read = vec![
        ("zeta".to_string(), false),
        (".git".to_string(), false),
        ("alpha".to_string(), true),
        (".cache".to_string(), true),
        ("Mid".to_string(), false),
    ];
    let shown = browse_entries(&read);
    assert_eq!(
        shown,
        vec![
            BrowseEntry { name: "Mid".to_string(), is_git: false },
            BrowseEntry { name: "alpha".to_string(), is_git: true },
            BrowseEntry { name: "zeta".to_string(), is_git: false },
        ]
    );
}
