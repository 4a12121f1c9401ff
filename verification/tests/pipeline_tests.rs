use easyssg::pipeline::check_output_root;
use easyssg::pipeline::entry_is_eligible;
use easyssg::pipeline::plan_build;
use easyssg::pipeline::InputEntry;
use easyssg::BuildError;
use easyssg::paths::html_output_name;
use easyssg::paths::is_markdown_name;
use easyssg::paths::output_rel_segments;

fn segments_of(parts: &[&str]) -> Vec<String> {
    parts.iter().map(|s| s.to_string()).collect()
}

#[test]
fn test_markdown_name_filter() {
    assert!(is_markdown_name(&"c.md".to_string()));
    assert!(is_markdown_name(&"a.tar.md".to_string()));
    assert!(!is_markdown_name(&".md".to_string()));
    assert!(!is_markdown_name(&"md".to_string()));
    assert!(!is_markdown_name(&"image.png".to_string()));
    assert!(!is_markdown_name(&"readme".to_string()));
}

#[test]
fn test_html_output_name() {
    assert_eq!(html_output_name(&"c.md".to_string()), "c.html");
    assert_eq!(html_output_name(&"a.tar.md".to_string()), "a.tar.html");
}

#[test]
fn test_output_path_swaps_extension_and_keeps_nesting() {
    let mapped = output_rel_segments(&segments_of(&["a", "b", "c.md"]));
    assert_eq!(mapped, segments_of(&["a", "b", "c.html"]));
}

#[test]
fn test_eligibility() {
    assert!(entry_is_eligible(&segments_of(&["index.md"]), false));
    assert!(entry_is_eligible(&segments_of(&["notes", "todo.md"]), false));
    assert!(!entry_is_eligible(&segments_of(&["notes"]), true));
    assert!(!entry_is_eligible(&segments_of(&["notes.md"]), true));
    assert!(!entry_is_eligible(&segments_of(&["image.png"]), false));
    assert!(!entry_is_eligible(&Vec::new(), false));
}

#[test]
fn test_precheck_refuses_existing_output_root() {
    assert_eq!(check_output_root(true), Err(BuildError::PreexistingOutput));
    assert_eq!(check_output_root(false), Ok(()));
}

#[test]
fn test_build_renders_markdown_files_and_skips_the_rest() {
    let entries = vec![
        InputEntry {
            segments: segments_of(&["index.md"]),
            is_dir: false,
            content: "# Hi".to_string(),
        },
        InputEntry {
            segments: segments_of(&["notes"]),
            is_dir: true,
            content: String::new(),
        },
        InputEntry {
            segments: segments_of(&["notes", "todo.md"]),
            is_dir: false,
            content: "- buy milk".to_string(),
        },
        InputEntry {
            segments: segments_of(&["image.png"]),
            is_dir: false,
            content: String::new(),
        },
    ];

    let outputs = plan_build(false, &entries).expect("build should succeed");
    assert_eq!(outputs.len(), 2);
    assert_eq!(outputs[0].segments, segments_of(&["index.html"]));
    assert_eq!(outputs[0].html, "<h1>Hi</h1>\n");
    assert_eq!(outputs[1].segments, segments_of(&["notes", "todo.html"]));
    assert_eq!(outputs[1].html, "<ul>\n<li>buy milk</li>\n</ul>\n");
    for out in &outputs {
        for segment in &out.segments {
            assert!(!segment.contains("image"));
            assert!(!segment.contains("png"));
        }
    }
}

#[test]
fn test_build_refuses_preexisting_output_root() {
    let entries = vec![InputEntry {
        segments: segments_of(&["index.md"]),
        is_dir: false,
        content: "# Hi".to_string(),
    }];
    assert_eq!(
        plan_build(true, &entries),
        Err(BuildError::PreexistingOutput)
    );
}
