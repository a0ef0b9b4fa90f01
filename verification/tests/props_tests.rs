use mdbook_note::book::{BookItem, Chapter};
use mdbook_note::extract::Extract;
use mdbook_note::note::Note;
use mdbook_note::tree::generate_chapter;

fn chapter(name: &str, content: &str) -> Chapter {
    Chapter {
        name: name.to_string(),
        content: content.to_string(),
        number: None,
        sub_items: vec![],
        parent_names: vec![],
    }
}

#[test]
fn no_markers_roundtrip() {
    let note = Note::new();
    let text = "plain text\nwith several lines\nand {braces} but no markers";
    let ch = chapter("doc", text);
    assert_eq!(note.parse_chapter(&ch), vec![]);
    let cleaned = note.clean_chapter(ch);
    assert_eq!(cleaned.content, text);
    assert_eq!(cleaned.name, "doc");
}

#[test]
fn single_inline_region() {
    let note = Note::new();
    let ch = chapter("doc", "A {{#note k}}B{{#note end}} C");
    assert_eq!(
        note.parse_chapter(&ch),
        vec![
            Extract {
                key: vec!["k".to_string()],
                val: "### doc".to_string(),
            },
            Extract {
                key: vec!["k".to_string()],
                val: "B".to_string(),
            },
        ]
    );
    let cleaned = note.clean_chapter(ch);
    assert_eq!(cleaned.content, "A B C");
}

#[test]
fn heading_dedup_per_key() {
    let note = Note::new();
    let ch = chapter(
        "doc",
        "{{#note k}}one{{#note end}} and {{#note k}}two{{#note end}}",
    );
    let extracts = note.parse_chapter(&ch);
    assert_eq!(
        extracts,
        vec![
            Extract {
                key: vec!["k".to_string()],
                val: "### doc".to_string(),
            },
            Extract {
                key: vec!["k".to_string()],
                val: "one".to_string(),
            },
            Extract {
                key: vec!["k".to_string()],
                val: "two".to_string(),
            },
        ]
    );
}

#[test]
fn key_reversal() {
    let note = Note::new();
    let ch = chapter("doc", "{{#note sub|main}}x{{#note end}}");
    let extracts = note.parse_chapter(&ch);
    // The written order is reversed in the stored key path, so the
    // first-written segment sits last and is consumed first by grouping.
    assert_eq!(extracts[1].key, vec!["main".to_string(), "sub".to_string()]);
    let root = generate_chapter(extracts, "note".to_string(), vec![], vec![1]);
    // "sub" is consumed first: it labels the root's child, "main" the grandchild.
    assert_eq!(root.sub_items.len(), 1);
    match &root.sub_items[0] {
        BookItem::Chapter(c) => {
            assert_eq!(c.name, "sub");
            match &c.sub_items[0] {
                BookItem::Chapter(cc) => assert_eq!(cc.name, "main"),
                _ => panic!("expected a chapter"),
            }
        }
        _ => panic!("expected a chapter"),
    }
}

#[test]
fn siblings_sorted_regardless_of_arrival() {
    let extracts = vec![
        Extract {
            key: vec!["zeta".to_string()],
            val: "z".to_string(),
        },
        Extract {
            key: vec!["alpha".to_string()],
            val: "a".to_string(),
        },
        Extract {
            key: vec!["mid".to_string()],
            val: "m".to_string(),
        },
    ];
    let root = generate_chapter(extracts, "note".to_string(), vec![], vec![99]);
    let labels: Vec<String> = root
        .sub_items
        .iter()
        .map(|it| match it {
            BookItem::Chapter(c) => c.name.clone(),
            _ => panic!("expected a chapter"),
        })
        .collect();
    assert_eq!(labels, vec!["alpha", "mid", "zeta"]);
}

#[test]
fn position_numbering() {
    let extracts = vec![
        Extract {
            key: vec!["c".to_string()],
            val: "3".to_string(),
        },
        Extract {
            key: vec!["x".to_string(), "b".to_string()],
            val: "2x".to_string(),
        },
        Extract {
            key: vec!["a".to_string()],
            val: "1".to_string(),
        },
    ];
    let root = generate_chapter(extracts, "note".to_string(), vec![], vec![99]);
    assert_eq!(root.number, Some(vec![99]));
    let numbers: Vec<Option<Vec<u32>>> = root
        .sub_items
        .iter()
        .map(|it| match it {
            BookItem::Chapter(c) => c.number.clone(),
            _ => panic!("expected a chapter"),
        })
        .collect();
    assert_eq!(
        numbers,
        vec![
            Some(vec![99, 1]),
            Some(vec![99, 2]),
            Some(vec![99, 3]),
        ]
    );
    // The grandchild under the second (sorted) child is numbered [99, 2, 1].
    match &root.sub_items[1] {
        BookItem::Chapter(c) => {
            assert_eq!(c.name, "b");
            match &c.sub_items[0] {
                BookItem::Chapter(cc) => {
                    assert_eq!(cc.name, "x");
                    assert_eq!(cc.number, Some(vec![99, 2, 1]));
                }
                _ => panic!("expected a chapter"),
            }
        }
        _ => panic!("expected a chapter"),
    }
}

#[test]
fn empty_accumulator_short_circuit() {
    let note = Note::new();
    let items = vec![
        BookItem::Chapter(chapter("one", "nothing here")),
        BookItem::Separator,
        BookItem::PartTitle("part".to_string()),
        BookItem::Chapter(chapter("two", "still nothing")),
    ];
    let expected = vec![
        BookItem::Chapter(chapter("one", "nothing here")),
        BookItem::Separator,
        BookItem::PartTitle("part".to_string()),
        BookItem::Chapter(chapter("two", "still nothing")),
    ];
    let out = note.run(items, "note".to_string());
    assert_eq!(out, expected);
}

#[test]
fn unkeyed_payload_goes_to_body() {
    let extracts = vec![
        Extract {
            key: vec![],
            val: "free note".to_string(),
        },
        Extract {
            key: vec!["k".to_string()],
            val: "keyed".to_string(),
        },
    ];
    let root = generate_chapter(extracts, "note".to_string(), vec![], vec![99]);
    assert_eq!(root.content, "## note\n\nfree note");
    assert_eq!(root.sub_items.len(), 1);
}

#[test]
fn run_appends_aggregate_chapter() {
    let note = Note::new();
    let items = vec![
        BookItem::Chapter(chapter(
            "doc",
            "before {{#note k}}payload{{#note end}} after",
        )),
        BookItem::Separator,
    ];
    let out = note.run(items, "notes".to_string());
    assert_eq!(out.len(), 3);
    match &out[0] {
        BookItem::Chapter(c) => assert_eq!(c.content, "before payload after"),
        _ => panic!("expected a chapter"),
    }
    assert_eq!(out[1], BookItem::Separator);
    match &out[2] {
        BookItem::Chapter(c) => {
            assert_eq!(c.name, "notes");
            assert_eq!(c.number, Some(vec![99]));
            assert_eq!(c.content, "## notes");
            match &c.sub_items[0] {
                BookItem::Chapter(cc) => {
                    assert_eq!(cc.name, "k");
                    assert_eq!(cc.content, "## notes / k\n\n### doc\n\npayload");
                }
                _ => panic!("expected a chapter"),
            }
        }
        _ => panic!("expected a chapter"),
    }
}

#[test]
fn empty_key_marker_form() {
    let note = Note::new();
    let ch = chapter("doc", "{{#note}}global{{#note end}}");
    let extracts = note.parse_chapter(&ch);
    assert_eq!(
        extracts,
        vec![
            Extract {
                key: vec![],
                val: "### doc".to_string(),
            },
            Extract {
                key: vec![],
                val: "global".to_string(),
            },
        ]
    );
}

#[test]
fn blank_and_empty_key_pieces_dropped() {
    let note = Note::new();
    let ch = chapter("doc", "{{#note  a  | | b }}x{{#note end}}");
    let extracts = note.parse_chapter(&ch);
    assert_eq!(extracts[1].key, vec!["b".to_string(), "a".to_string()]);
}

#[test]
fn unmatched_marker_left_in_place() {
    let note = Note::new();
    let text = "an opening {{#note k}} without an end marker";
    let ch = chapter("doc", text);
    assert_eq!(note.parse_chapter(&ch), vec![]);
    let cleaned = note.clean_chapter(ch);
    assert_eq!(cleaned.content, text);
}

#[test]
fn extracts_accumulate_across_documents_in_order() {
    let note = Note::new();
    let items = vec![
        BookItem::Chapter(chapter("first", "{{#note k}}from first{{#note end}}")),
        BookItem::Chapter(chapter("second", "{{#note k}}from second{{#note end}}")),
    ];
    let out = note.run(items, "note".to_string());
    assert_eq!(out.len(), 3);
    match &out[2] {
        BookItem::Chapter(c) => match &c.sub_items[0] {
            BookItem::Chapter(cc) => {
                // Each document emits its own heading; payloads keep the
                // document-iteration order.
                assert_eq!(
                    cc.content,
                    "## note / k\n\n### first\n\nfrom first\n\n### second\n\nfrom second"
                );
            }
            _ => panic!("expected a chapter"),
        },
        _ => panic!("expected a chapter"),
    }
}

#[test]
fn renderer_support() {
    let note = Note::new();
    assert_eq!(note.name(), "note");
    assert!(note.supports_renderer("html"));
    assert!(!note.supports_renderer("not-supported"));
}
