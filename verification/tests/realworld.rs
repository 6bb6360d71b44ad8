//! Layout tests on hand-built pages: the library's output stage (plain text
//! and table formatting) run on pages shaped like what the recognition engine
//! reports for five real-world images (a data table with grid lines, terminal
//! log output, a form layout, a dense paragraph and a code snippet). No
//! recognition runs here: that needs the Windows engine, which the command
//! line tool drives. Each page lists its lines with their boxes in reading
//! order, and `render_page` renders it as the tool does for the given output
//! format; the tests keep the names of the end-to-end checks on those images
//! and assert what those checks assert of the output.

use oneocr::coords::coordinate_key;
use oneocr::layout::{Extent, LineLayout, PageLayout, WordLayout};
use oneocr::table::to_table_text;
use oneocr::text::join_strings;

fn k(x: f32) -> u32 {
    coordinate_key(x.to_bits())
}

fn extent(x1: f32, y1: f32, x2: f32, y2: f32) -> Option<Extent> {
    Some(Extent {
        left: k(x1),
        right: k(x2),
        top: k(y1),
        bottom: k(y2),
        x_mid: k((x1 + x2) / 2.0),
        y_mid: k((y1 + y2) / 2.0),
    })
}

/// A recognized line at `(x, y)`, 10 px per character, 20 px high; its words
/// are boxed one after the other.
fn line(text: &str, x: f32, y: f32) -> LineLayout {
    let mut words = Vec::new();
    let mut cx = x;
    for w in text.split(' ') {
        let width = 10.0 * w.chars().count() as f32;
        words.push(WordLayout { text: w.to_string(), extent: extent(cx, y, cx + width, y + 20.0) });
        cx += width + 10.0;
    }
    let width = 10.0 * text.chars().count() as f32;
    LineLayout { text: text.to_string(), extent: extent(x, y, x + width, y + 20.0), words }
}

/// A page whose full text is its lines joined by newlines.
fn page(lines: Vec<LineLayout>) -> PageLayout {
    let texts: Vec<String> = lines.iter().map(|l| l.text.clone()).collect();
    let text = join_strings(&texts, "\n");
    PageLayout { text, lines }
}

fn column_page(texts: &[&str]) -> PageLayout {
    page(texts.iter().enumerate().map(|(i, t)| line(t, 20.0, 20.0 + 30.0 * i as f32)).collect())
}

fn fixture(name: &str) -> PageLayout {
    match name {
        "table_grid.png" => {
            let rows: [[&str; 4]; 6] = [
                ["ID", "Name", "Status", "Score"],
                ["1", "Alice Johnson", "Active", "92.5"],
                ["2", "Bob Smith", "Inactive", "78.3"],
                ["3", "Carol White", "Active", "95.1"],
                ["4", "David Brown", "Pending", "84.7"],
                ["5", "Eve Martinez", "Active", "91.0"],
            ];
            let xs = [20.0f32, 80.0, 260.0, 400.0];
            let mut lines = Vec::new();
            for (r, row) in rows.iter().enumerate() {
                for (c, cell) in row.iter().enumerate() {
                    lines.push(line(cell, xs[c], 20.0 + 40.0 * r as f32));
                }
            }
            page(lines)
        }
        "log_output.png" => column_page(&[
            "2024-03-15 09:14:02 INFO Server started on port 8080",
            "2024-03-15 09:14:03 INFO Database connection established",
            "2024-03-15 09:14:03 INFO Cache connected at redis://localhost:6379",
            "2024-03-15 09:14:05 WARN TLS certificate expires in 14 days",
            "2024-03-15 09:15:11 INFO GET /api/users 200 12ms",
            "2024-03-15 09:15:12 INFO POST /api/login 200 48ms",
            "2024-03-15 09:16:40 ERROR Failed to send email: timeout",
            "2024-03-15 09:16:41 WARN Retrying email delivery (1/3)",
            "2024-03-15 09:16:45 INFO Email delivered",
            "2024-03-15 09:20:00 INFO Health check passed",
        ]),
        "form_layout.png" => {
            let fields = [
                ("Project:", "Mercury Dashboard"),
                ("Owner:", "Engineering Team Alpha"),
                ("Status:", "In Progress"),
                ("Priority:", "High"),
                ("Due Date:", "April 30, 2024"),
                ("Completion:", "67%"),
            ];
            let mut lines = vec![line("Project Details", 20.0, 10.0)];
            for (i, (label, value)) in fields.iter().enumerate() {
                let y = 50.0 + 30.0 * i as f32;
                lines.push(line(label, 20.0, y));
                lines.push(line(value, 200.0, y));
            }
            page(lines)
        }
        "paragraph.png" => column_page(&[
            "The quick brown fox jumps over the lazy dog. This sentence",
            "contains every letter of the alphabet. Pack my box with five",
            "dozen liquor jugs. How vexingly quick daft zebras jump! The",
            "five boxing wizards jump quickly. Sphinx of black quartz, judge",
            "my vow. Jackdaws love my big sphinx of quartz. Crazy Fredrick",
            "bought many very exquisite opal jewels.",
        ]),
        "code_snippet.png" => column_page(&[
            "fn calculate_score(items: &[Item]) -> f64 {",
            "    // Filter active items",
            "    let total: f64 = items",
            "        .iter()",
            "        .filter(|i| i.active)",
            "        .map(|i| i.value)",
            "        .sum();",
            "    if total > 100.0 { total * 0.9 } else { total }",
            "}",
        ]),
        _ => panic!("unknown fixture {name}"),
    }
}

fn render_page(fixture_name: &str, format: &str) -> (String, String) {
    let p = fixture(fixture_name);
    let out = match format {
        "text" => p.text.clone(),
        "table" => to_table_text(&p),
        _ => panic!("format {format} is rendered outside the library"),
    };
    (out, String::new())
}

// =============================================================================
// Table with grid lines
// =============================================================================

#[test]
fn table_grid_text_extraction() {
    let (stdout, _) = render_page("table_grid.png", "text");
    // All headers present
    for header in ["ID", "Name", "Status", "Score"] {
        assert!(stdout.contains(header), "missing header '{header}' in:\n{stdout}");
    }
    // All data rows present
    for name in ["Alice Johnson", "Bob Smith", "Carol White", "David Brown", "Eve Martinez"] {
        assert!(stdout.contains(name), "missing name '{name}' in:\n{stdout}");
    }
    // Scores present
    for score in ["92.5", "78.3", "95.1", "84.7", "91.0"] {
        assert!(stdout.contains(score), "missing score '{score}' in:\n{stdout}");
    }
}

#[test]
fn table_grid_table_format() {
    let (stdout, _) = render_page("table_grid.png", "table");
    // Should produce markdown table with pipes and separators
    assert!(stdout.contains("|"), "no table pipes in:\n{stdout}");
    assert!(stdout.contains("---"), "no separator in:\n{stdout}");
    // Headers in table format
    assert!(stdout.contains("ID"), "missing ID in table");
    assert!(stdout.contains("Name"), "missing Name in table");
    // Data should be in cells
    assert!(stdout.contains("Alice Johnson"), "missing Alice Johnson in table");
    assert!(stdout.contains("92.5"), "missing 92.5 in table");
}

// =============================================================================
// Log output (monospace, timestamps, colored text)
// =============================================================================

#[test]
fn log_output_timestamps() {
    let (stdout, _) = render_page("log_output.png", "text");
    // Timestamps should be accurately recognized
    assert!(stdout.contains("2024-03-15"), "missing date in:\n{stdout}");
    assert!(stdout.contains("09:14:02"), "missing timestamp in:\n{stdout}");
}

#[test]
fn log_output_levels() {
    let (stdout, _) = render_page("log_output.png", "text");
    assert!(stdout.contains("INFO"), "missing INFO level");
    assert!(stdout.contains("WARN"), "missing WARN level");
    assert!(stdout.contains("ERROR"), "missing ERROR level");
}

#[test]
fn log_output_messages() {
    let (stdout, _) = render_page("log_output.png", "text");
    assert!(stdout.contains("Server started on port 8080"), "missing server start message");
    assert!(stdout.contains("Database connection established"), "missing db message");
    assert!(stdout.contains("redis://localhost"), "missing redis URL");
    assert!(stdout.contains("TLS certificate expires"), "missing TLS warning");
}

// =============================================================================
// Form layout (label: value pairs)
// =============================================================================

#[test]
fn form_layout_title() {
    let (stdout, _) = render_page("form_layout.png", "text");
    assert!(stdout.contains("Project Details"), "missing title in:\n{stdout}");
}

#[test]
fn form_layout_fields() {
    let (stdout, _) = render_page("form_layout.png", "text");
    // Labels
    for label in ["Project:", "Owner:", "Status:", "Priority:", "Due Date:", "Completion:"] {
        assert!(stdout.contains(label), "missing label '{label}' in:\n{stdout}");
    }
    // Values
    assert!(stdout.contains("Mercury Dashboard"), "missing project name");
    assert!(stdout.contains("Engineering Team Alpha"), "missing owner");
    assert!(stdout.contains("In Progress"), "missing status");
    assert!(stdout.contains("High"), "missing priority");
    assert!(stdout.contains("April 30, 2024"), "missing due date");
    assert!(stdout.contains("67%"), "missing completion");
}

// =============================================================================
// Dense paragraph
// =============================================================================

#[test]
fn paragraph_full_text() {
    let (stdout, _) = render_page("paragraph.png", "text");
    // Opening and closing phrases
    assert!(
        stdout.contains("The quick brown fox jumps over the lazy dog"),
        "missing pangram in:\n{stdout}"
    );
    assert!(stdout.contains("exquisite opal jewels"), "missing ending in:\n{stdout}");
}

#[test]
fn paragraph_punctuation() {
    let (stdout, _) = render_page("paragraph.png", "text");
    // Punctuation accuracy
    assert!(stdout.contains("alphabet."), "missing period after 'alphabet'");
    assert!(stdout.contains("jump!"), "missing exclamation mark");
    assert!(stdout.contains("vow."), "missing period after 'vow'");
}

// =============================================================================
// Code snippet
// =============================================================================

#[test]
fn code_snippet_function_signature() {
    let (stdout, _) = render_page("code_snippet.png", "text");
    assert!(stdout.contains("fn calculate_score"), "missing function name in:\n{stdout}");
    assert!(stdout.contains("f64"), "missing return type in:\n{stdout}");
}

#[test]
fn code_snippet_keywords() {
    let (stdout, _) = render_page("code_snippet.png", "text");
    for kw in ["let", "if", "else", "fn"] {
        assert!(stdout.contains(kw), "missing keyword '{kw}' in:\n{stdout}");
    }
}

#[test]
fn code_snippet_method_calls() {
    let (stdout, _) = render_page("code_snippet.png", "text");
    assert!(stdout.contains(".filter("), "missing .filter() call");
    assert!(stdout.contains(".map("), "missing .map() call");
    assert!(stdout.contains(".sum()"), "missing .sum() call");
}

#[test]
fn code_snippet_comment() {
    let (stdout, _) = render_page("code_snippet.png", "text");
    assert!(stdout.contains("// Filter active items"), "missing comment in:\n{stdout}");
}

#[test]
fn code_snippet_special_chars() {
    let (stdout, _) = render_page("code_snippet.png", "text");
    // Code has special characters that are tricky for OCR
    assert!(stdout.contains("&[Item]"), "missing &[Item] in:\n{stdout}");
    assert!(stdout.contains("i.value"), "missing i.value in:\n{stdout}");
}

#[test]
fn table_grid_is_one_table_of_six_rows() {
    let (stdout, _) = render_page("table_grid.png", "table");
    let lines: Vec<&str> = stdout.lines().collect();
    // header, rule and five data rows
    assert_eq!(lines.len(), 7, "{stdout}");
    assert!(lines[1].starts_with("| --"));
    assert!(lines[2].contains("Alice Johnson") && lines[2].contains("92.5"));
}

#[test]
fn non_table_fixtures_fall_back_to_text() {
    for name in ["log_output.png", "paragraph.png", "code_snippet.png"] {
        let (table, _) = render_page(name, "table");
        let (text, _) = render_page(name, "text");
        assert_eq!(table, text, "{name}");
    }
}
