use thurbox_kernel::paints::{
    drawn_label_cells, drawn_link_paints, hyperlink_paints, link_paints, DrawnFrame, Rect, VisibleRun,
};
use unicode_width::UnicodeWidthChar;

fn rect(x: u16, y: u16, width: u16, height: u16) -> Rect {
    Rect { x, y, width, height }
}

/// A frame `width` by `height` of blanks, with each row's text written from
/// its left edge: a wide glyph takes its cell and leaves a blank beside it.
fn buffer_with(width: u16, height: u16, rows: &[&str]) -> DrawnFrame<u8> {
    let mut cells: Vec<Vec<(String, u8)>> = (0..height)
        .map(|_| (0..width).map(|_| (" ".to_string(), 0u8)).collect())
        .collect();
    for (y, text) in rows.iter().enumerate() {
        let mut x = 0usize;
        for ch in text.chars() {
            if x >= width as usize {
                break;
            }
            let w = UnicodeWidthChar::width(ch).unwrap_or(1).max(1);
            cells[y][x] = (ch.to_string(), 1);
            for k in 1..w {
                if x + k < width as usize {
                    cells[y][x + k] = (" ".to_string(), 0);
                }
            }
            x += w;
        }
    }
    DrawnFrame { left: 0, top: 0, rows: cells }
}

fn printed(cells: &[(String, u8)]) -> String {
    cells.iter().map(|(symbol, _)| symbol.as_str()).collect()
}

#[test]
fn a_nodes_drawn_cells_are_the_link_and_its_padding_is_not() {
    let buf = buffer_with(30, 1, &["  https://example.test/a   "]);
    let paints = drawn_link_paints(&buf, rect(0, 0, 30, 1), "https://example.test/a");

    assert_eq!(paints.len(), 1);
    let paint = &paints[0];
    assert_eq!((paint.x, paint.y), (2, 0));
    assert_eq!(paint.url, "https://example.test/a");
    assert_eq!(printed(&paint.cells), "https://example.test/a");
}

#[test]
fn interior_blanks_stay_inside_the_label() {
    let buf = buffer_with(20, 1, &[" Open MR !123 "]);
    let paints = drawn_link_paints(&buf, rect(0, 0, 20, 1), "https://example.test/1");

    assert_eq!(paints.len(), 1);
    assert_eq!(paints[0].x, 1);
    assert_eq!(printed(&paints[0].cells), "Open MR !123");
}

#[test]
fn a_blank_row_yields_no_link() {
    let buf = buffer_with(20, 2, &["   ", "  x"]);
    let paints = drawn_link_paints(&buf, rect(0, 0, 20, 2), "https://example.test");
    assert_eq!(paints.len(), 1);
    assert_eq!((paints[0].x, paints[0].y), (2, 1));

    assert!(drawn_link_paints(&buf, rect(0, 0, 20, 0), "u").is_empty());
    assert!(drawn_link_paints(&buf, rect(0, 5, 20, 1), "u").is_empty());
}

#[test]
fn a_wide_glyph_does_not_re_print_the_filler_beside_it() {
    let buf = buffer_with(20, 1, &["docs 漢字 x"]);
    let paints = drawn_link_paints(&buf, rect(0, 0, 20, 1), "https://example.test/w");

    assert_eq!(paints.len(), 1);
    assert_eq!(paints[0].x, 0);
    assert_eq!(printed(&paints[0].cells), "docs 漢字 x");
    assert_eq!(paints[0].cells.len(), "docs 漢字 x".chars().count());
}

#[test]
fn every_drawn_row_of_a_node_carries_the_same_url() {
    let buf = buffer_with(20, 2, &["  first", "  second"]);
    let paints = drawn_link_paints(&buf, rect(0, 0, 20, 2), "https://example.test");

    assert_eq!(paints.len(), 2);
    assert!(paints.iter().all(|p| p.url == "https://example.test"));
    assert_eq!(paints[0].y, 0);
    assert_eq!(paints[1].y, 1);
}

#[test]
fn a_checked_walk_paints_the_same_rows() {
    let buf = buffer_with(10, 1, &[" ok "]);
    let paints = link_paints(&buf, rect(0, 0, 10, 1), "u").expect("every cell steps");
    assert_eq!(paints, drawn_link_paints(&buf, rect(0, 0, 10, 1), "u"));
    assert_eq!(printed(&paints[0].cells), "ok");
}

#[test]
fn a_label_is_matched_against_the_frame_and_clipped_at_the_edge() {
    let buf = buffer_with(10, 1, &["see docs here"]);
    let inner = rect(0, 0, 10, 1);
    let cells = drawn_label_cells(&buf, inner, 4, 0, "docs").expect("shown");
    assert_eq!(printed(&cells), "docs");
    // Clipped by the right edge: linked as far as it is visible.
    let clipped = drawn_label_cells(&buf, inner, 9, 0, "here").expect("partly shown");
    assert_eq!(printed(&clipped), "h");
    // A glyph that does not match: the frame moved on, so no run at all.
    assert_eq!(drawn_label_cells(&buf, inner, 4, 0, "dogs"), None);
    // Wholly past the edge: nothing shows.
    assert_eq!(drawn_label_cells(&buf, rect(0, 0, 2, 1), 4, 0, "docs"), None);
}

#[test]
fn visible_runs_become_paints_only_where_the_frame_shows_them() {
    let buf = buffer_with(20, 2, &["", "  open https://x.test"]);
    let inner = rect(0, 0, 20, 2);
    let runs = vec![
        VisibleRun { row: 1, col: 2, url: "https://x.test/o".to_string(), label: "open".to_string() },
        VisibleRun { row: 0, col: 0, url: "https://gone".to_string(), label: "gone".to_string() },
        VisibleRun { row: 5, col: 0, url: "https://below".to_string(), label: "x".to_string() },
    ];
    let paints = hyperlink_paints(&buf, inner, &runs);
    assert_eq!(paints.len(), 1);
    assert_eq!((paints[0].x, paints[0].y), (2, 1));
    assert_eq!(paints[0].url, "https://x.test/o");
    assert_eq!(printed(&paints[0].cells), "open");
    assert!(hyperlink_paints(&buf, rect(0, 0, 0, 2), &runs).is_empty());
}
