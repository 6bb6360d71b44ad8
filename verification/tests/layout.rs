use oneocr::coords::{coordinate_bits, coordinate_key};
use oneocr::interval::{bands, find_interval, merge_interval, post_merge, stable_sort_by_key, Interval};
use oneocr::layout::{Extent, LineLayout, PageLayout, WordLayout};
use oneocr::spaced::{collect_words, group_into_visual_rows, render_spaced, SpacedWord};
use oneocr::table::{detect_tables, to_table_text};

fn k(x: f32) -> u32 {
    coordinate_key(x.to_bits())
}

fn iv(a: f32, b: f32) -> Interval {
    (k(a), k(b))
}

fn make_extent(x1: f32, y1: f32, x2: f32, y2: f32) -> Option<Extent> {
    // Axis-aligned rectangle: TL(x1,y1) TR(x2,y1) BR(x2,y2) BL(x1,y2)
    Some(Extent {
        left: k(x1),
        right: k(x2),
        top: k(y1),
        bottom: k(y2),
        x_mid: k((x1 + x2) / 2.0),
        y_mid: k((y1 + y2) / 2.0),
    })
}

fn make_word(text: &str, x1: f32, y1: f32, x2: f32, y2: f32) -> WordLayout {
    WordLayout { text: text.to_string(), extent: make_extent(x1, y1, x2, y2) }
}

fn make_line(text: &str, words: Vec<WordLayout>, x1: f32, y1: f32, x2: f32, y2: f32) -> LineLayout {
    LineLayout { text: text.to_string(), extent: make_extent(x1, y1, x2, y2), words }
}

fn make_result(lines: Vec<LineLayout>) -> PageLayout {
    let text = lines.iter().map(|l| l.text.as_str()).collect::<Vec<_>>().join("\n");
    PageLayout { text, lines }
}

// -- merge_interval -------------------------------------------------------

#[test]
fn merge_interval_adds_new() {
    let mut bounds = Vec::new();
    merge_interval(&mut bounds, k(10.0), k(20.0));
    assert_eq!(bounds, vec![iv(10.0, 20.0)]);
}

#[test]
fn merge_interval_no_overlap() {
    let mut bounds = vec![iv(10.0, 20.0)];
    merge_interval(&mut bounds, k(30.0), k(40.0));
    assert_eq!(bounds.len(), 2);
}

#[test]
fn merge_interval_with_overlap() {
    let mut bounds = vec![iv(10.0, 25.0)];
    merge_interval(&mut bounds, k(20.0), k(35.0));
    assert_eq!(bounds, vec![iv(10.0, 35.0)]);
}

#[test]
fn merge_interval_contained() {
    let mut bounds = vec![iv(10.0, 40.0)];
    merge_interval(&mut bounds, k(15.0), k(25.0));
    assert_eq!(bounds, vec![iv(10.0, 40.0)]);
}

// -- post_merge -----------------------------------------------------------

#[test]
fn post_merge_overlapping() {
    let mut bounds = vec![iv(10.0, 25.0), iv(20.0, 35.0), iv(50.0, 60.0)];
    post_merge(&mut bounds);
    assert_eq!(bounds, vec![iv(10.0, 35.0), iv(50.0, 60.0)]);
}

#[test]
fn post_merge_no_overlap() {
    let mut bounds = vec![iv(10.0, 20.0), iv(30.0, 40.0)];
    post_merge(&mut bounds);
    assert_eq!(bounds, vec![iv(10.0, 20.0), iv(30.0, 40.0)]);
}

#[test]
fn post_merge_chain() {
    // Three intervals that chain-merge into one
    let mut bounds = vec![iv(10.0, 25.0), iv(20.0, 35.0), iv(30.0, 50.0)];
    post_merge(&mut bounds);
    assert_eq!(bounds, vec![iv(10.0, 50.0)]);
}

#[test]
fn post_merge_empty() {
    let mut bounds: Vec<Interval> = Vec::new();
    post_merge(&mut bounds);
    assert!(bounds.is_empty());
}

// -- find_interval --------------------------------------------------------

#[test]
fn find_interval_inside() {
    let bounds = vec![iv(10.0, 20.0), iv(30.0, 40.0)];
    assert_eq!(find_interval(&bounds, k(15.0)), Some(0));
    assert_eq!(find_interval(&bounds, k(35.0)), Some(1));
}

#[test]
fn find_interval_at_boundary() {
    let bounds = vec![iv(10.0, 20.0)];
    assert_eq!(find_interval(&bounds, k(10.0)), Some(0));
    assert_eq!(find_interval(&bounds, k(20.0)), Some(0));
}

#[test]
fn find_interval_outside() {
    let bounds = vec![iv(10.0, 20.0), iv(30.0, 40.0)];
    assert_eq!(find_interval(&bounds, k(5.0)), None);
    assert_eq!(find_interval(&bounds, k(25.0)), None);
    assert_eq!(find_interval(&bounds, k(45.0)), None);
}

// -- detect_tables --------------------------------------------------------

#[test]
fn table_empty_result() {
    let result = make_result(vec![]);
    assert!(detect_tables(&result).is_empty());
}

#[test]
fn table_single_line_no_table() {
    let result = make_result(vec![make_line(
        "just one line",
        vec![
            make_word("just", 10.0, 10.0, 50.0, 30.0),
            make_word("one", 60.0, 10.0, 90.0, 30.0),
            make_word("line", 100.0, 10.0, 140.0, 30.0),
        ],
        10.0,
        10.0,
        140.0,
        30.0,
    )]);
    // Single row can't form a table (needs >= 2x2)
    assert!(detect_tables(&result).is_empty());
}

#[test]
fn table_2x2_grid() {
    // 4 lines arranged in a 2x2 grid
    let result = make_result(vec![
        make_line("A", vec![make_word("A", 10.0, 10.0, 50.0, 30.0)], 10.0, 10.0, 50.0, 30.0),
        make_line("B", vec![make_word("B", 200.0, 10.0, 240.0, 30.0)], 200.0, 10.0, 240.0, 30.0),
        make_line("C", vec![make_word("C", 10.0, 100.0, 50.0, 120.0)], 10.0, 100.0, 50.0, 120.0),
        make_line("D", vec![make_word("D", 200.0, 100.0, 240.0, 120.0)], 200.0, 100.0, 240.0, 120.0),
    ]);
    let tables = detect_tables(&result);
    assert_eq!(tables.len(), 1);
    let t = &tables[0];
    assert_eq!(t.rows, 2);
    assert_eq!(t.columns, 2);
    assert_eq!(t.cells[0][0], "A");
    assert_eq!(t.cells[0][1], "B");
    assert_eq!(t.cells[1][0], "C");
    assert_eq!(t.cells[1][1], "D");
}

// -- to_table_text --------------------------------------------------------

#[test]
fn table_text_markdown_format() {
    let result = make_result(vec![
        make_line("Name", vec![make_word("Name", 10.0, 10.0, 60.0, 30.0)], 10.0, 10.0, 60.0, 30.0),
        make_line("Age", vec![make_word("Age", 200.0, 10.0, 240.0, 30.0)], 200.0, 10.0, 240.0, 30.0),
        make_line("Alice", vec![make_word("Alice", 10.0, 100.0, 60.0, 120.0)], 10.0, 100.0, 60.0, 120.0),
        make_line("30", vec![make_word("30", 200.0, 100.0, 230.0, 120.0)], 200.0, 100.0, 230.0, 120.0),
    ]);
    let out = to_table_text(&result);
    assert!(out.contains("| Name"));
    assert!(out.contains("| Age"));
    assert!(out.contains("| Alice"));
    assert!(out.contains("| 30"));
    assert!(out.contains("---")); // separator
}

#[test]
fn table_text_no_table_falls_back() {
    let result = make_result(vec![make_line(
        "no table",
        vec![make_word("no", 10.0, 10.0, 30.0, 30.0), make_word("table", 40.0, 10.0, 80.0, 30.0)],
        10.0,
        10.0,
        80.0,
        30.0,
    )]);
    assert_eq!(to_table_text(&result), "no table");
}

// -- Further cases --------------------------------------------------------

#[test]
fn table_text_exact_layout() {
    let result = make_result(vec![
        make_line("Name", vec![make_word("Name", 10.0, 10.0, 60.0, 30.0)], 10.0, 10.0, 60.0, 30.0),
        make_line("Age", vec![make_word("Age", 200.0, 10.0, 240.0, 30.0)], 200.0, 10.0, 240.0, 30.0),
        make_line("Alice", vec![make_word("Alice", 10.0, 100.0, 60.0, 120.0)], 10.0, 100.0, 60.0, 120.0),
        make_line("30", vec![make_word("30", 200.0, 100.0, 230.0, 120.0)], 200.0, 100.0, 230.0, 120.0),
    ]);
    assert_eq!(
        to_table_text(&result),
        "| Name  | Age |\n| ----- | --- |\n| Alice | 30  |"
    );
}

#[test]
fn table_cells_join_lines_in_reading_order() {
    // Two lines share the top-left cell; columns split at x = 100.
    let result = make_result(vec![
        make_line("Top", vec![make_word("Top", 10.0, 10.0, 50.0, 20.0)], 10.0, 10.0, 50.0, 20.0),
        make_line("Left", vec![make_word("Left", 10.0, 15.0, 60.0, 30.0)], 10.0, 15.0, 60.0, 30.0),
        make_line("R", vec![make_word("R", 200.0, 10.0, 240.0, 30.0)], 200.0, 10.0, 240.0, 30.0),
        make_line("C", vec![make_word("C", 10.0, 100.0, 50.0, 120.0)], 10.0, 100.0, 50.0, 120.0),
        make_line("D", vec![make_word("D", 200.0, 100.0, 240.0, 120.0)], 200.0, 100.0, 240.0, 120.0),
    ]);
    let tables = detect_tables(&result);
    assert_eq!(tables.len(), 1);
    assert_eq!(tables[0].cells[0][0], "Top Left");
    assert_eq!(tables[0].cells[0][1], "R");
    assert_eq!(tables[0].cells[1][1], "D");
}

#[test]
fn table_from_line_boxes_without_word_boxes() {
    // Lines form a 2x2 grid; only the lines have boxes, no word has one.
    let mut lines = vec![
        make_line("A", vec![], 10.0, 10.0, 50.0, 30.0),
        make_line("B", vec![], 200.0, 10.0, 240.0, 30.0),
        make_line("C", vec![], 10.0, 100.0, 50.0, 120.0),
        make_line("D", vec![], 200.0, 100.0, 240.0, 120.0),
    ];
    lines[0].words.push(WordLayout { text: "A".to_string(), extent: None });
    let result = make_result(lines);
    let tables = detect_tables(&result);
    assert_eq!(tables.len(), 1);
    assert_eq!(tables[0].rows, 2);
    assert_eq!(tables[0].columns, 2);
    assert_eq!(tables[0].cells, vec![vec!["A".to_string(), "B".to_string()], vec!["C".to_string(), "D".to_string()]]);
    assert_eq!(to_table_text(&result), "| A   | B   |\n| --- | --- |\n| C   | D   |");
}

#[test]
fn bands_merge_sort_and_coalesce() {
    // [30,40] lands first; [10,20] second; [15,35] overlaps the first band
    // only, and after sorting the neighbours overlap and merge.
    let extents = vec![iv(30.0, 40.0), iv(10.0, 20.0), iv(15.0, 35.0)];
    assert_eq!(bands(&extents), vec![iv(10.0, 40.0)]);
    let extents = vec![iv(50.0, 60.0), iv(10.0, 20.0), iv(30.0, 40.0)];
    assert_eq!(bands(&extents), vec![iv(10.0, 20.0), iv(30.0, 40.0), iv(50.0, 60.0)]);
}

#[test]
fn stable_sort_keeps_ties_in_order() {
    let mut items = vec![(3u32, 'a'), (1, 'b'), (3, 'c'), (2, 'd'), (1, 'e')];
    stable_sort_by_key(&mut items);
    assert_eq!(items, vec![(1, 'b'), (1, 'e'), (2, 'd'), (3, 'a'), (3, 'c')]);
}

#[test]
fn coordinate_keys_follow_number_order() {
    let values = [-1.0e30f32, -2.5, -1.0, -0.0, 0.0, 1.0e-40, 0.5, 1.0, 3.0e38, f32::INFINITY];
    for w in values.windows(2) {
        assert!(k(w[0]) <= k(w[1]), "{} vs {}", w[0], w[1]);
    }
    assert!(k(f32::NEG_INFINITY) < k(-1.0e30));
    assert_eq!(k(-0.0), k(0.0));
    for v in values {
        let back = f32::from_bits(coordinate_bits(k(v)));
        assert_eq!(back, v);
    }
}

#[test]
fn visual_rows_group_and_order_words() {
    let result = make_result(vec![
        make_line(
            "World Hello",
            vec![make_word("World", 70.0, 0.0, 120.0, 20.0), make_word("Hello", 0.0, 0.0, 50.0, 20.0)],
            0.0,
            0.0,
            120.0,
            20.0,
        ),
        make_line("Bottom", vec![make_word("Bottom", 10.0, 30.0, 70.0, 50.0)], 10.0, 30.0, 70.0, 50.0),
    ]);
    let words = collect_words(&result);
    assert_eq!(words.len(), 3);
    assert_eq!(group_into_visual_rows(&words), vec![vec![1, 0], vec![2]]);
}

#[test]
fn spaced_rendering_joins_rows() {
    let rows = vec![
        vec![
            SpacedWord { spaces: 2, text: "ab".to_string() },
            SpacedWord { spaces: 1, text: "c".to_string() },
        ],
        vec![SpacedWord { spaces: 0, text: "d".to_string() }],
    ];
    assert_eq!(render_spaced(&rows), "  ab c\nd");
    assert_eq!(render_spaced(&Vec::new()), "");
}
