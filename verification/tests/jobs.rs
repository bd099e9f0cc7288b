use kepub::jobs::{
    build_plan, file_source, is_kepub, removes_source, select_sources, target_file_name, target_path, Cli, Job,
    PlanError,
};
use kepub::paths::is_epub;

fn cli(input: &str, output: Option<&str>, overwrite: bool) -> Cli {
    Cli { input: input.to_string(), in_place: false, output: output.map(|s| s.to_string()), overwrite }
}

#[test]
fn epub_and_kepub_names() {
    assert!(is_epub("a/b.epub"));
    assert!(is_epub("B.EPUB"));
    assert!(is_epub("x.kepub.epub"));
    assert!(!is_epub("a.epubx"));
    assert!(!is_epub(".epub"));
    assert!(!is_epub("epub"));
    assert!(is_kepub("dir/Book.KePub.Epub"));
    assert!(!is_kepub("book.epub"));
}

#[test]
fn target_names_gain_the_kepub_extension_once() {
    assert_eq!(target_file_name("dir/book.epub").ok(), Some("book.kepub.epub".to_string()));
    assert_eq!(target_file_name("Book.EPUB").ok(), Some("Book.kepub.epub".to_string()));
    assert_eq!(target_file_name("x/done.kepub.epub").ok(), Some("done.kepub.epub".to_string()));
    assert_eq!(target_path("lib/a.epub", &None).ok(), Some("lib/a.kepub.epub".to_string()));
    assert_eq!(target_path("lib/a.epub", &Some("out".to_string())).ok(), Some("out/a.kepub.epub".to_string()));
}

#[test]
fn plans_jobs_and_skips_existing_targets() {
    let sources = vec!["lib/a.epub".to_string(), "lib/b.epub".to_string(), "lib/c.kepub.epub".to_string()];
    let plan = build_plan(&cli("lib", None, false), &sources, &vec![false, true, true]).ok().unwrap();
    let jobs: Vec<(&str, &str)> = plan.jobs.iter().map(|j| (j.source.as_str(), j.target.as_str())).collect();
    assert_eq!(jobs, vec![("lib/a.epub", "lib/a.kepub.epub"), ("lib/c.kepub.epub", "lib/c.kepub.epub")]);
    assert_eq!(plan.skipped, vec!["lib/b.epub"]);

    let plan = build_plan(&cli("lib", None, true), &sources, &vec![false, true, true]).ok().unwrap();
    assert_eq!(plan.jobs.len(), 3);
    assert!(plan.skipped.is_empty());
}

#[test]
fn plan_errors_for_no_sources_and_collisions() {
    match build_plan(&cli("empty", None, false), &vec![], &vec![]) {
        Err(e @ PlanError::NoSources { .. }) => assert_eq!(e.message(), "no .epub files found at empty"),
        _ => panic!("expected NoSources"),
    }
    let sources = vec!["a/book.epub".to_string(), "b/book.epub".to_string()];
    match build_plan(&cli("lib", Some("out"), false), &sources, &vec![false, false]) {
        Err(e @ PlanError::Collision { .. }) => assert_eq!(
            e.message(),
            "output collision: `a/book.epub` and `b/book.epub` both map to `out/book.kepub.epub`"
        ),
        _ => panic!("expected Collision"),
    }
}

#[test]
fn sources_are_filtered_and_sorted() {
    let found = vec![
        "lib/z.epub".to_string(),
        "lib/notes.txt".to_string(),
        "lib/a/b.EPUB".to_string(),
        "lib/done.kepub.epub".to_string(),
        "lib/a.epub".to_string(),
    ];
    assert_eq!(select_sources(&found), vec!["lib/a/b.EPUB", "lib/a.epub", "lib/z.epub"]);
}

#[test]
fn a_file_input_must_be_an_epub() {
    assert_eq!(file_source("book.epub").ok(), Some(vec!["book.epub".to_string()]));
    match file_source("book.pdf") {
        Err(e @ PlanError::NotEpub { .. }) => assert_eq!(e.message(), "input file is not an .epub: book.pdf"),
        _ => panic!("expected NotEpub"),
    }
}

#[test]
fn in_place_removes_the_source_only_when_the_target_differs() {
    let moved = Job { source: "a/b.epub".to_string(), target: "a/b.kepub.epub".to_string() };
    let same = Job { source: "a/b.kepub.epub".to_string(), target: "a//b.kepub.epub".to_string() };
    assert!(removes_source(&moved, true));
    assert!(!removes_source(&moved, false));
    assert!(!removes_source(&same, true));
}
