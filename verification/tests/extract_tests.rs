use mdbook_note::book::Chapter;
use mdbook_note::extract::Extract;
use mdbook_note::note::Note;

fn chapter(name: &str, content: &str) -> Chapter {
    Chapter {
        name: name.to_string(),
        content: content.to_string(),
        number: None,
        sub_items: vec![],
        parent_names: vec![],
    }
}

#[test]
fn test_extract_inline() {
    let chapter = chapter(
        "some name",
        "some outer content {{#note my_key}}inside contente{{#note end}} other outer content",
    );

    let note = Note::new();

    assert_eq!(
        note.parse_chapter(&chapter),
        vec![
            Extract {
                key: vec!["my_key".to_string()],
                val: "### some name".to_string(),
            },
            Extract {
                key: vec!["my_key".to_string()],
                val: "inside contente".to_string(),
            }
        ]
    )
}

#[test]
fn test_extract_multiline() {
    let chapter = chapter(
        "some name",
        "some outer content
            {{#note my_key}}
            inside contente
            {{#note end}}
            other outer content",
    );

    let note = Note::new();

    assert_eq!(
        note.parse_chapter(&chapter),
        vec![
            Extract {
                key: vec!["my_key".to_string()],
                val: "### some name".to_string(),
            },
            Extract {
                key: vec!["my_key".to_string()],
                val: "inside contente".to_string(),
            }
        ]
    )
}

#[test]
fn test_extract_multiline_multicapture() {
    let chapter = chapter(
        "some name",
        "some outer content
{{#note my_key| my sub key}}
inside contente split
{{#note end}}
other outer content
blablabla
{{#note my key 2}}
other content
split
{{#note end}}
{{#note}}
some global note
{{#note end}}
{{#note my key 2}}
my other key 2
{{#note end}}
end
",
    );

    let note = Note::new();

    assert_eq!(
        note.parse_chapter(&chapter),
        vec![
            Extract {
                key: vec!["my sub key".to_string(), "my_key".to_string()],
                val: "### some name".to_string(),
            },
            Extract {
                key: vec!["my sub key".to_string(), "my_key".to_string()],
                val: "inside contente split".to_string(),
            },
            Extract {
                key: vec!["my key 2".to_string()],
                val: "### some name".to_string(),
            },
            Extract {
                key: vec!["my key 2".to_string()],
                val: "other content\nsplit".to_string(),
            },
            Extract {
                key: vec![],
                val: "### some name".to_string(),
            },
            Extract {
                key: vec![],
                val: "some global note".to_string(),
            },
            Extract {
                key: vec!["my key 2".to_string()],
                val: "my other key 2".to_string(),
            },
        ]
    )
}
