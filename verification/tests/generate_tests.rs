use mdbook_note::book::{BookItem, Chapter};
use mdbook_note::extract::Extract;
use mdbook_note::tree::generate_chapter;

#[test]
fn test_generate_chapter() {
    let extracts = vec![
        Extract {
            key: vec!["b".to_string()],
            val: "content b".to_string(),
        },
        Extract {
            key: vec!["a1".to_string(), "a".to_string()],
            val: "content a1".to_string(),
        },
        Extract {
            key: vec![],
            val: "note content".to_string(),
        },
        Extract {
            key: vec!["a2".to_string(), "a".to_string()],
            val: "content a2".to_string(),
        },
        Extract {
            key: vec!["a2".to_string(), "a".to_string()],
            val: "content a2 2".to_string(),
        },
    ];

    let chapter = Chapter {
        name: "note".to_string(),
        content: "## note\n\nnote content".to_string(),
        number: Some(vec![1]),
        sub_items: vec![
            BookItem::Chapter(Chapter {
                name: "a".to_string(),
                content: "## note / a".to_string(),
                number: Some(vec![1, 1]),
                sub_items: vec![
                    BookItem::Chapter(Chapter {
                        name: "a1".to_string(),
                        content: "## note / a / a1\n\ncontent a1".to_string(),
                        number: Some(vec![1, 1, 1]),
                        sub_items: vec![],
                        parent_names: vec!["note".to_string(), "a".to_string()],
                    }),
                    BookItem::Chapter(Chapter {
                        name: "a2".to_string(),
                        content: "## note / a / a2\n\ncontent a2\n\ncontent a2 2".to_string(),
                        number: Some(vec![1, 1, 2]),
                        sub_items: vec![],
                        parent_names: vec!["note".to_string(), "a".to_string()],
                    }),
                ],
                parent_names: vec!["note".to_string()],
            }),
            BookItem::Chapter(Chapter {
                name: "b".to_string(),
                content: "## note / b\n\ncontent b".to_string(),
                number: Some(vec![1, 2]),
                sub_items: vec![],
                parent_names: vec!["note".to_string()],
            }),
        ],
        parent_names: vec![],
    };

    assert_eq!(
        generate_chapter(extracts, "note".to_string(), vec![], vec![1]),
        chapter
    )
}
