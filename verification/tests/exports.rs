use castavox_core::exports::page::{advance, column_widths, file_title, plan, thousandths, Step, Wrapping};
use castavox_core::exports::{parse, plain, to_docx, to_text, wrap, Block, Span};
use std::io::{Cursor, Read};

const SAMPLE: &str = r#"He taught on the prodigal son.

## Main points

1. **The request** — asking for an inheritance is asking a living man to die.
2. **The welcome** — the father *ran*, which an elder man did not do.
   - And he never let the speech finish.

## Passages

- **Luke 15:11-32** — the whole parable.

> But when he was yet a great way off, his father saw him.

| Son | Where he was lost |
| --- | --- |
| Younger | The far country |
| Elder | The field |

---

### A note

Something ~~struck out~~ and something ***emphatic***.
"#;

fn text_of(block: &Block) -> String {
    match block {
        Block::Heading { text, .. }
        | Block::Paragraph(text)
        | Block::Bullet { text, .. }
        | Block::Numbered { text, .. }
        | Block::Quote(text) => plain(text),
        Block::Table { .. } => "<table>".into(),
        Block::Rule => "<rule>".into(),
    }
}

#[test]
fn reads_the_shape_of_a_summary() {
    let blocks = parse(SAMPLE);
    let shape: Vec<String> = blocks
        .iter()
        .map(|b| match b {
            Block::Heading { level, .. } => format!("h{level}"),
            Block::Paragraph(_) => "p".into(),
            Block::Bullet { depth, .. } => format!("bullet{depth}"),
            Block::Numbered { depth, number, .. } => format!("num{depth}:{number}"),
            Block::Quote(_) => "quote".into(),
            Block::Table { .. } => "table".into(),
            Block::Rule => "rule".into(),
        })
        .collect();

    assert_eq!(shape[0], "p");
    assert_eq!(shape[1], "h2");
    assert_eq!(shape[2], "num0:1");
    assert_eq!(shape[3], "num0:2");
    assert_eq!(shape[4], "bullet1", "the sub-point is nested: {shape:?}");
    assert!(shape.contains(&"quote".to_string()));
    assert!(shape.contains(&"table".to_string()));
    assert!(shape.contains(&"rule".to_string()));
    assert!(shape.contains(&"h3".to_string()));
}

#[test]
fn a_table_keeps_its_head_and_its_rows() {
    let table = parse(SAMPLE)
        .into_iter()
        .find_map(|b| match b {
            Block::Table { head, rows } => Some((head, rows)),
            _ => None,
        })
        .expect("no table parsed");

    assert_eq!(plain(&table.0[0]), "Son");
    assert_eq!(plain(&table.0[1]), "Where he was lost");
    assert_eq!(table.1.len(), 2);
    assert_eq!(plain(&table.1[1][0]), "Elder");
}

#[test]
fn emphasis_survives_as_emphasis_rather_than_being_stripped() {
    let blocks = parse("The father **ran** to meet *him*.");
    let Block::Paragraph(runs) = &blocks[0] else { panic!("{blocks:?}") };
    assert!(runs.iter().any(|s| s.text == "ran" && s.bold));
    assert!(runs.iter().any(|s| s.text == "him" && s.italic));
    assert_eq!(plain(runs), "The father ran to meet him.");
}

#[test]
fn bold_and_italic_and_struck_through_all_survive() {
    let blocks = parse("Something ~~struck out~~ and something ***emphatic***.");
    let Block::Paragraph(runs) = &blocks[0] else { panic!() };
    assert!(runs.iter().any(|s| s.text == "struck out" && s.strike));
    assert!(runs.iter().any(|s| s.text == "emphatic" && s.bold && s.italic));
}

#[test]
fn a_link_keeps_its_words_and_drops_its_address() {
    let blocks = parse("see [Luke 15](https://example.com/luke15) today");
    assert_eq!(text_of(&blocks[0]), "see Luke 15 today");
    assert!(!text_of(&blocks[0]).contains("http"));
}

#[test]
fn a_paragraph_that_is_only_prose_stays_one_paragraph() {
    let blocks = parse("He taught on the prodigal.\nAnd on the elder brother.");
    assert_eq!(blocks.len(), 1);
    assert_eq!(text_of(&blocks[0]), "He taught on the prodigal. And on the elder brother.");
}

#[test]
fn a_heading_stuck_to_a_sentence_is_still_a_heading() {
    let blocks = parse("He taught on the prodigal. ## Main points\n- The father ran.");
    assert_eq!(text_of(&blocks[0]), "He taught on the prodigal.");
    assert!(matches!(blocks[1], Block::Heading { level: 2, .. }));
    assert!(matches!(blocks[2], Block::Bullet { depth: 0, .. }));
}

#[test]
fn a_hash_that_is_not_a_heading_is_left_alone() {
    assert_eq!(text_of(&parse("Sing hymn #12 today")[0]), "Sing hymn #12 today");
    assert_eq!(text_of(&parse("written in C# by us")[0]), "written in C# by us");
}

#[test]
fn a_fenced_block_keeps_its_words_even_though_we_do_not_expect_one() {
    let blocks = parse("Before.\n\n```\nHe said this.\n```\n\nAfter.");
    let all: Vec<String> = blocks.iter().map(text_of).collect();
    assert!(all.iter().any(|t| t.contains("He said this.")), "{all:?}");
}

#[test]
fn text_export_reads_as_a_document() {
    let text = to_text("Coming Home", SAMPLE, &["grace".into(), "return".into()]);
    assert!(text.starts_with("Coming Home\n==========="), "the title is underlined");
    assert!(text.contains("  1. The request"), "numbers are kept: {text}");
    assert!(text.contains("\u{2013} And he never let the speech finish"), "nesting shows");
    assert!(text.contains("  > But when he was yet"), "a quote is marked as one");
    assert!(text.contains("Younger"), "the table is written out");
    assert!(text.contains("Subjects: grace, return"));
    assert!(!text.contains("**"), "{text}");
    assert!(text.contains("~~struck out~~"), "{text}");
}

#[test]
fn the_word_file_is_a_zip_word_can_open() {
    let bytes = to_docx("Coming Home", SAMPLE, &["grace".into()]).unwrap();
    assert_eq!(&bytes[..2], b"PK");

    let mut zip = zip::ZipArchive::new(Cursor::new(bytes)).unwrap();
    let names: Vec<String> =
        (0..zip.len()).map(|i| zip.by_index(i).unwrap().name().to_string()).collect();
    for needed in ["[Content_Types].xml", "_rels/.rels", "word/styles.xml", "word/document.xml"]
    {
        assert!(names.contains(&needed.to_string()), "{needed} missing from {names:?}");
    }
}

#[test]
fn the_word_file_carries_real_formatting() {
    let bytes = to_docx("Coming Home", SAMPLE, &[]).unwrap();
    let mut zip = zip::ZipArchive::new(Cursor::new(bytes)).unwrap();
    let mut document = String::new();
    zip.by_name("word/document.xml").unwrap().read_to_string(&mut document).unwrap();

    assert!(document.contains("<w:b/>"), "bold reaches Word as bold");
    assert!(document.contains("<w:i/>"), "italic reaches Word as italic");
    assert!(document.contains("<w:strike/>"), "strikethrough survives");
    assert!(document.contains(r#"<w:pStyle w:val="Heading2"/>"#), "headings are headings");
    assert!(document.contains(r#"<w:pStyle w:val="Quote"/>"#), "the quotation is styled");
    assert!(document.contains("<w:tbl>"), "the table is a real Word table");
    assert!(document.contains("<w:pBdr>"), "the rule is drawn");
    assert!(!document.contains("**"), "asterisks leaked into the document");
}

#[test]
fn xml_special_characters_do_not_break_the_word_file() {
    let bytes = to_docx("Faith & Works", "A <this> and \"that\" & more.", &[]).unwrap();
    let mut zip = zip::ZipArchive::new(Cursor::new(bytes)).unwrap();
    let mut document = String::new();
    zip.by_name("word/document.xml").unwrap().read_to_string(&mut document).unwrap();
    assert!(document.contains("Faith &amp; Works"));
    assert!(document.contains("&lt;this&gt;"));
}

#[test]
fn a_word_longer_than_the_line_is_not_lost() {
    assert_eq!(
        wrap("supercalifragilistic", 5),
        vec!["supercalifragilistic"],
        "better to overrun than to drop it"
    );
}

/// How wide a text is drawn, in millimetres.
fn width_of(text: &str, size: f32, bold: bool) -> f32 {
    thousandths(text, bold) as f32 / 1000.0 * size / 2.834_646
}

/// Breaks spans into lines that are at most so many millimetres wide.
fn wrap_spans(runs: &[Span], size: f32, limit: f32) -> Vec<Vec<Span>> {
    let mut wrapping = Wrapping::new();
    let mut width = 0.0f32;
    for span in runs {
        for word in span.text.split_whitespace() {
            let needed = width_of(&wrapping.next(word), size, span.bold);
            let overruns = width + needed > limit;
            if !wrapping.starts_line() && overruns {
                width = width_of(word, size, span.bold);
            } else {
                width += needed;
            }
            wrapping.put(word, span, overruns);
        }
    }
    wrapping.finish()
}

#[test]
fn wrapping_keeps_each_word_with_its_own_emphasis() {
    let runs = vec![
        Span::plain("the "),
        Span { text: "quick brown".into(), bold: true, ..Span::default() },
        Span::plain(" fox jumps over"),
    ];
    let lines = wrap_spans(&runs, 11.0, 40.0);
    assert!(lines.len() > 1, "{lines:?}");

    let rebuilt = lines
        .iter()
        .map(|line| line.iter().map(|s| s.text.as_str()).collect::<String>())
        .collect::<Vec<_>>()
        .join(" ");
    assert_eq!(
        rebuilt.split_whitespace().collect::<Vec<_>>().join(" "),
        "the quick brown fox jumps over"
    );
    assert!(lines.iter().flatten().any(|s| s.bold && s.text.contains("quick")));
}

#[test]
fn a_word_joins_the_run_before_it_when_the_emphasis_is_the_same() {
    let mut wrapping = Wrapping::new();
    wrapping.put("one", &Span::plain(""), false);
    wrapping.put("two", &Span::plain(""), false);
    wrapping.put("three", &Span { bold: true, ..Span::default() }, false);
    wrapping.put("four", &Span::plain(""), true);
    let lines = wrapping.finish();
    assert_eq!(lines.len(), 2);
    assert_eq!(lines[0].len(), 2);
    assert_eq!(lines[0][0].text, "one two");
    assert_eq!(lines[0][1].text, " three");
    assert!(lines[0][1].bold);
    assert_eq!(lines[1][0].text, "four");
}

#[test]
fn nothing_to_wrap_is_one_empty_line() {
    let lines = Wrapping::new().finish();
    assert_eq!(lines, vec![vec![Span::default()]]);
}

#[test]
fn widths_are_those_of_the_face() {
    assert_eq!(advance('W', false), 944);
    assert_eq!(advance('i', false), 222);
    assert_eq!(advance('i', true), 278);
    assert_eq!(thousandths("Wii", false), 944 + 222 + 222);
}

#[test]
fn a_page_begins_with_its_title() {
    let steps = plan("Coming Home", &parse("Just a line."), &["grace".into()]);
    assert!(!steps.is_empty());
    let drawn: Vec<String> = steps
        .iter()
        .filter_map(|step| match step {
            Step::Lines { text, .. } => Some(plain(text)),
            _ => None,
        })
        .collect();
    assert_eq!(drawn[0], "Coming Home");
    assert!(drawn.iter().any(|text| text == "Just a line."), "{drawn:?}");
    assert!(drawn.iter().any(|text| text.contains("grace")), "{drawn:?}");
    assert!(!file_title("").is_empty());
}

#[test]
fn wrapping_text_keeps_every_word() {
    let text = "the quick  brown fox\njumps over the lazy dog";
    let lines = wrap(text, 12);
    assert!(lines.iter().all(|line| line.chars().count() <= 12), "{lines:?}");
    let words: Vec<&str> = lines.iter().flat_map(|line| line.split_whitespace()).collect();
    assert_eq!(words, text.split_whitespace().collect::<Vec<_>>());
}

#[test]
fn a_column_is_as_wide_as_its_widest_cell() {
    let row = |cells: &[&str]| -> Vec<Vec<Span>> {
        cells.iter().map(|cell| vec![Span::plain(cell)]).collect()
    };
    let head = row(&["ii", "W"]);
    let rows = vec![row(&["iiii"]), row(&["i", "w", "W"])];
    // Bold: i is 278 and W is 944. Regular: i is 222, w is 722 and W is 944.
    assert_eq!(column_widths(&head, &rows), vec![888, 944, 944]);
    assert_eq!(column_widths(&head, &[]), vec![556, 944]);
    assert!(column_widths(&[], &[]).is_empty());
}

fn one(text: &str) -> Vec<Span> {
    vec![Span::plain(text)]
}

#[test]
fn a_list_with_blank_lines_between_its_items_is_still_a_list() {
    assert_eq!(
        parse("- a\n\n- b\n"),
        vec![
            Block::Bullet { depth: 0, text: one("a") },
            Block::Bullet { depth: 0, text: one("b") },
        ]
    );
    assert_eq!(
        parse("3. a\n\n   and more\n\n   - sub\n\n4. b\n"),
        vec![
            Block::Numbered { depth: 0, number: 3, text: one("a") },
            Block::Paragraph(one("and more")),
            Block::Bullet { depth: 1, text: one("sub") },
            Block::Numbered { depth: 0, number: 4, text: one("b") },
        ]
    );
}

#[test]
fn a_struck_out_cell_is_still_struck_out_in_plain_text() {
    let text = to_text("", "| Field | Note |\n| --- | --- |\n| ~~safety~~ | x |\n", &[]);
    assert!(text.contains("  ~~safety~~  x\n"), "{text}");
    assert!(text.contains("  ----------  ----\n"), "{text}");
}

#[test]
fn each_line_break_is_needed() {
    let lines = wrap("the quick  brown fox\njumps over extraordinarily lazy dogs", 12);
    assert_eq!(lines, ["the quick", "brown fox", "jumps over", "extraordinarily", "lazy dogs"]);
    for pair in lines.windows(2) {
        let next = pair[1].split_whitespace().next().unwrap();
        assert!(pair[0].len() + 1 + next.len() > 12, "{pair:?}");
    }
}

#[test]
fn a_line_breaks_only_where_a_word_overruns() {
    let mut wrapping = Wrapping::new();
    for (word, overruns) in [("a", true), ("b", false), ("c", true), ("d", true), ("e", false)] {
        wrapping.put(word, &Span::default(), overruns);
    }
    let lines: Vec<String> = wrapping.finish().iter().map(|line| plain(line)).collect();
    assert_eq!(lines, ["a b", "c", "d e"]);
}
