use line_counter::parallel::scan_parallel;
use line_counter::tally::ExtensionTally;
use line_counter::tree::{checked_scan, line_total, lines_of_content, scan, Entry};

fn file(name: &str, content: &str) -> Entry {
    Entry::File { name: name.to_string(), content: Some(content.as_bytes().to_vec()) }
}

fn unreadable_file(name: &str) -> Entry {
    Entry::File { name: name.to_string(), content: None }
}

fn directory(entries: Vec<Entry>) -> Entry {
    Entry::Directory { entries: Some(entries) }
}

fn unreadable_directory() -> Entry {
    Entry::Directory { entries: None }
}

fn found(extension: &str, lines: usize) -> (String, usize) {
    (extension.to_string(), lines)
}

fn sample_tree() -> Entry {
    directory(vec![
        file("x.txt", "1\n2\n3\n"),
        file("README", "not counted\n"),
        directory(vec![
            file("z.txt", "1\n2"),
            file("lib.rs", "fn f() {}\n"),
            directory(vec![]),
            directory(vec![file("deep.rs", "a\nb\nc\nd\n"), unreadable_file("gone.md")]),
        ]),
        Entry::Other,
        file("y.txt", "1\n2\n3\n4\n5\n"),
        unreadable_directory(),
        file("empty.log", ""),
        file("UPPER.TXT", "x\n"),
    ])
}

#[test]
fn empty_directory_has_the_empty_tally() {
    let tally = scan(&directory(vec![]));
    assert!(tally.is_empty());
    assert_eq!(tally.rows(), vec![]);
    assert_eq!(tally.total(), 0);
}

#[test]
fn files_of_one_extension_are_summed_over_the_tree() {
    let root = directory(vec![
        file("x.txt", "a\nb\nc\n"),
        file("y.txt", "a\nb\nc\nd\ne\n"),
        directory(vec![file("z.txt", "a\nb\n")]),
    ]);
    let tally = scan(&root);
    assert_eq!(tally.rows(), vec![found("txt", 10)]);
    assert_eq!(tally.get("txt"), Some(10));
    assert_eq!(tally.total(), 10);
}

#[test]
fn file_without_extension_is_left_out() {
    let root = directory(vec![file("README", "a\nb\n"), file("x.txt", "a\n")]);
    let tally = scan(&root);
    assert_eq!(tally.rows(), vec![found("txt", 1)]);
    assert_eq!(tally.get(""), None);
    assert_eq!(tally.total(), 1);
}

#[test]
fn only_files_without_extension_give_the_empty_tally() {
    let tally = scan(&directory(vec![file("README", "a\nb\n"), file("LICENSE", "c\n")]));
    assert!(tally.is_empty());
    assert_eq!(tally.total(), 0);
}

#[test]
fn unreadable_file_counts_no_lines() {
    let root = directory(vec![
        file("a.txt", "1\n2\n"),
        unreadable_file("secret.txt"),
        file("b.txt", "3\n"),
        unreadable_file("secret.key"),
    ]);
    let tally = scan(&root);
    assert_eq!(tally.rows(), vec![found("key", 0), found("txt", 3)]);
    assert_eq!(tally.total(), 3);
}

#[test]
fn unreadable_directory_counts_as_empty() {
    let root = directory(vec![file("a.txt", "1\n"), unreadable_directory(), file("b.txt", "2\n")]);
    assert_eq!(scan(&root).rows(), vec![found("txt", 2)]);
    assert!(scan(&unreadable_directory()).is_empty());
}

#[test]
fn root_that_is_no_directory_has_the_empty_tally() {
    assert!(scan(&file("x.txt", "a\nb\n")).is_empty());
    assert!(scan(&Entry::Other).is_empty());
    assert!(scan_parallel(&file("x.txt", "a\nb\n")).is_empty());
    assert_eq!(line_total(&file("x.txt", "a\nb\n")), Some(0));
}

#[test]
fn other_entries_add_nothing() {
    let root = directory(vec![Entry::Other, file("a.c", "x\n"), Entry::Other]);
    assert_eq!(scan(&root).rows(), vec![found("c", 1)]);
}

#[test]
fn directories_without_files_give_the_empty_tally() {
    let root = directory(vec![directory(vec![]), directory(vec![directory(vec![])])]);
    let tally = scan(&root);
    assert!(tally.is_empty());
    assert_eq!(tally.total(), 0);
}

#[test]
fn extensions_of_different_case_are_counted_apart() {
    let root = directory(vec![file("a.txt", "1\n"), file("b.TXT", "1\n2\n")]);
    assert_eq!(scan(&root).rows(), vec![found("TXT", 2), found("txt", 1)]);
}

#[test]
fn empty_file_has_a_row_without_lines() {
    let tally = scan(&directory(vec![file("empty.log", "")]));
    assert_eq!(tally.rows(), vec![found("log", 0)]);
    assert_eq!(tally.total(), 0);
}

#[test]
fn final_line_without_line_feed_is_counted() {
    let root = directory(vec![file("a.txt", "a\nb\n"), file("b.md", "a\nb")]);
    assert_eq!(scan(&root).rows(), vec![found("md", 2), found("txt", 2)]);
}

#[test]
fn sample_tree_is_tallied() {
    let tally = scan(&sample_tree());
    assert_eq!(
        tally.rows(),
        vec![found("TXT", 1), found("log", 0), found("md", 0), found("rs", 5), found("txt", 10)]
    );
    assert_eq!(tally.total(), 16);
}

#[test]
fn total_is_the_number_of_lines_in_files_with_extension() {
    let root = sample_tree();
    let tally = scan(&root);
    let sum: usize = tally.rows().iter().map(|row| row.1).sum();
    assert_eq!(tally.total(), sum);
    assert_eq!(line_total(&root), Some(16));
    assert_eq!(line_total(&root), Some(tally.total()));
}

#[test]
fn parallel_scan_gives_the_tally_of_the_sequential_scan() {
    let root = sample_tree();
    assert_eq!(scan_parallel(&root), scan(&root));
    assert_eq!(
        scan_parallel(&root).rows(),
        vec![found("TXT", 1), found("log", 0), found("md", 0), found("rs", 5), found("txt", 10)]
    );
}

#[test]
fn parallel_scan_of_a_wide_and_deep_tree() {
    let mut level = vec![file("leaf.txt", "x\n")];
    for depth in 0..20 {
        let mut entries = Vec::new();
        for i in 0..10 {
            entries.push(file(&format!("f{}.e{}", i, depth % 3), "a\nb\n"));
        }
        entries.push(directory(level));
        level = entries;
    }
    let root = directory(level);
    let tally = scan_parallel(&root);
    assert_eq!(tally, scan(&root));
    assert_eq!(tally.total(), 401);
    assert_eq!(
        tally.rows(),
        vec![found("e0", 140), found("e1", 140), found("e2", 120), found("txt", 1)]
    );
}

#[test]
fn empty_directory_scanned_in_parallel_has_the_empty_tally() {
    assert!(scan_parallel(&directory(vec![])).is_empty());
    assert!(scan_parallel(&unreadable_directory()).is_empty());
}

#[test]
fn tally_does_not_depend_on_the_order_of_the_entries() {
    let forward = directory(vec![
        file("a.txt", "1\n"),
        file("b.rs", "1\n2\n"),
        directory(vec![file("c.txt", "1\n2\n3\n"), file("d.md", "x")]),
        unreadable_file("e.rs"),
    ]);
    let backward = directory(vec![
        unreadable_file("e.rs"),
        directory(vec![file("d.md", "x"), file("c.txt", "1\n2\n3\n")]),
        file("b.rs", "1\n2\n"),
        file("a.txt", "1\n"),
    ]);
    assert_eq!(scan(&forward), scan(&backward));
    assert_eq!(scan_parallel(&forward), scan(&backward));
    assert_eq!(scan(&forward).rows(), vec![found("md", 1), found("rs", 2), found("txt", 4)]);
}

#[test]
fn checked_scan_gives_the_tally_where_the_lines_fit() {
    let root = sample_tree();
    assert_eq!(checked_scan(&root), Some(scan(&root)));
    assert_eq!(checked_scan(&Entry::Other), Some(ExtensionTally::new()));
}

#[test]
fn line_total_counts_files_with_extension_only() {
    let root = directory(vec![
        file("README", "1\n2\n3\n"),
        file("a.txt", "1\n2\n"),
        directory(vec![file("b.rs", "1"), file("NOTES", "1\n")]),
    ]);
    assert_eq!(line_total(&root), Some(3));
    assert_eq!(line_total(&directory(vec![])), Some(0));
    assert_eq!(line_total(&unreadable_directory()), Some(0));
}

#[test]
fn unread_content_has_no_lines() {
    assert_eq!(lines_of_content(&None), 0);
    assert_eq!(lines_of_content(&Some(b"a\nb".to_vec())), 2);
    assert_eq!(lines_of_content(&Some(Vec::new())), 0);
}
