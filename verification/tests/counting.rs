use dir_scanner::scanner::{extension_key, Entry, FileEntry, Scanner, Step};

fn file(readable: bool, extension: Option<&str>, display: &str) -> FileEntry {
    FileEntry {
        readable,
        extension: extension.map(|e| e.to_string()),
        display: display.to_string(),
    }
}

fn sorted(mut pairs: Vec<(String, usize)>) -> Vec<(String, usize)> {
    pairs.sort();
    pairs
}

fn pairs(items: &[(&str, usize)]) -> Vec<(String, usize)> {
    items.iter().map(|(k, c)| (k.to_string(), *c)).collect()
}

#[test]
fn new_scanner_counts_nothing() {
    let scanner = Scanner::new();
    assert_eq!(scanner.count_of(&String::new()), 0);
    assert!(scanner.result().is_empty());
}

#[test]
fn directory_is_descended_and_not_counted() {
    let mut scanner = Scanner::new();
    assert_eq!(scanner.visit(&Entry::Directory), Step::Descend);
    assert!(scanner.result().is_empty());
}

#[test]
fn other_entry_is_skipped() {
    let mut scanner = Scanner::new();
    assert_eq!(scanner.visit(&Entry::Other), Step::Skipped);
    assert!(scanner.result().is_empty());
}

#[test]
fn extensions_are_counted_case_insensitively() {
    let mut scanner = Scanner::new();
    for ext in ["JPG", "jpg", "Png", "jPg"] {
        let step = scanner.visit(&Entry::File(file(true, Some(ext), "\"/d/x\"")));
        assert_eq!(step, Step::Counted);
    }
    assert_eq!(scanner.count_of(&"jpg".to_string()), 3);
    assert_eq!(scanner.count_of(&"png".to_string()), 1);
    assert_eq!(scanner.count_of(&"JPG".to_string()), 0);
    assert_eq!(sorted(scanner.result()), pairs(&[("jpg", 3), ("png", 1)]));
}

#[test]
fn file_without_extension_counts_under_empty_key() {
    let mut scanner = Scanner::new();
    scanner.visit(&Entry::File(file(true, None, "\"/d/Makefile\"")));
    scanner.visit(&Entry::File(file(true, None, "\"/d/README\"")));
    assert_eq!(scanner.result(), pairs(&[("", 2)]));
}

#[test]
fn unreadable_file_counts_under_its_path() {
    let mut scanner = Scanner::new();
    scanner.visit(&Entry::File(file(false, Some("TXT"), "\"/d/secret.TXT\"")));
    scanner.visit(&Entry::File(file(true, Some("TXT"), "\"/d/open.TXT\"")));
    assert_eq!(
        sorted(scanner.result()),
        pairs(&[("txt", 1), ("unreadable: \"/d/secret.TXT\"", 1)])
    );
}

#[test]
fn extension_key_of_each_kind_of_file() {
    assert_eq!(extension_key(&file(true, Some("TaR"), "\"a.TaR\"")), "tar");
    assert_eq!(extension_key(&file(true, Some("ÄÖ"), "\"a.ÄÖ\"")), "äö");
    assert_eq!(extension_key(&file(true, None, "\"a\"")), "");
    assert_eq!(extension_key(&file(false, None, "\"/x/a\"")), "unreadable: \"/x/a\"");
    assert_eq!(extension_key(&file(false, Some("rs"), "")), "unreadable: ");
}

#[test]
fn counts_do_not_depend_on_order() {
    let files = [
        (true, Some("rs")),
        (true, Some("RS")),
        (true, None),
        (false, Some("rs")),
        (true, Some("toml")),
    ];
    let mut forward = Scanner::new();
    for (readable, ext) in files.iter() {
        forward.visit(&Entry::File(file(*readable, *ext, "\"f\"")));
    }
    let mut backward = Scanner::new();
    for (readable, ext) in files.iter().rev() {
        backward.visit(&Entry::File(file(*readable, *ext, "\"f\"")));
    }
    assert_eq!(sorted(forward.result()), sorted(backward.result()));
}

#[test]
fn counts_sum_to_files_counted_and_keys_are_unique() {
    let mut scanner = Scanner::new();
    let exts = ["a", "b", "A", "c", "B", "a"];
    for ext in exts {
        scanner.visit(&Entry::File(file(true, Some(ext), "\"f\"")));
        scanner.visit(&Entry::Directory);
        scanner.visit(&Entry::Other);
    }
    assert_eq!(scanner.count_of(&"a".to_string()), 3);
    let result = scanner.result();
    let total: usize = result.iter().map(|(_, c)| *c).sum();
    assert_eq!(total, exts.len());
    let mut keys: Vec<&String> = result.iter().map(|(k, _)| k).collect();
    keys.sort();
    keys.dedup();
    assert_eq!(keys.len(), result.len());
    assert!(result.iter().all(|(_, c)| *c > 0));
    assert_eq!(sorted(result), pairs(&[("a", 3), ("b", 2), ("c", 1)]));
}

#[test]
fn scanning_the_same_entries_twice_counts_them_twice() {
    let entries = vec![
        Entry::File(file(true, Some("md"), "\"a\"")),
        Entry::Directory,
        Entry::File(file(true, Some("MD"), "\"b\"")),
        Entry::Other,
        Entry::File(file(false, None, "\"c\"")),
    ];
    let mut scanner = Scanner::new();
    for _ in 0..2 {
        for entry in entries.iter() {
            scanner.visit(entry);
        }
    }
    assert_eq!(
        sorted(scanner.result()),
        pairs(&[("md", 4), ("unreadable: \"c\"", 2)])
    );
}

#[test]
fn count_key_counts_the_given_key() {
    let mut scanner = Scanner::new();
    scanner.count_key("rs".to_string());
    scanner.count_key("rs".to_string());
    scanner.count_key("RS".to_string());
    assert_eq!(scanner.count_of(&"rs".to_string()), 2);
    assert_eq!(scanner.count_of(&"RS".to_string()), 1);
    assert_eq!(sorted(scanner.result()), pairs(&[("RS", 1), ("rs", 2)]));
}

#[test]
fn try_visit_decides_like_visit() {
    let mut scanner = Scanner::new();
    assert_eq!(scanner.try_visit(&Entry::Directory), Some(Step::Descend));
    assert_eq!(scanner.try_visit(&Entry::Other), Some(Step::Skipped));
    assert_eq!(scanner.try_visit(&Entry::File(file(true, Some("Go"), "\"m.Go\""))), Some(Step::Counted));
    assert_eq!(scanner.result(), pairs(&[("go", 1)]));
}
