use pswap::{
    is_all_digits, is_process_subdir, parse_status_lines, ListedEntry, ProcessEnumerator,
    ProcessStatus, ReadError,
};
use std::io::{Error, ErrorKind};

fn dir(name: &str) -> ListedEntry {
    ListedEntry::Entry { name: Some(name.to_string()), is_dir: true }
}

fn file(name: &str) -> ListedEntry {
    ListedEntry::Entry { name: Some(name.to_string()), is_dir: false }
}

fn drain(mut e: ProcessEnumerator) -> Vec<Result<String, ErrorKind>> {
    let mut out = Vec::new();
    while let Some(item) = e.next_item() {
        out.push(item.map(|h| h.name).map_err(|err| err.kind()));
    }
    out
}

#[test]
fn digits_are_recognised() {
    assert!(is_all_digits("123"));
    assert!(is_all_digits(""));
    assert!(!is_all_digits("12a"));
    assert!(!is_all_digits("self"));
    assert!(!is_all_digits("\u{661}\u{662}"));
    assert!(!is_all_digits("-1"));
}

#[test]
fn process_subdir_needs_a_digit_name_and_a_directory() {
    assert!(is_process_subdir(Some("1"), true));
    assert!(is_process_subdir(Some("4096"), true));
    assert!(!is_process_subdir(Some("1"), false));
    assert!(!is_process_subdir(Some("self"), true));
    assert!(!is_process_subdir(Some(""), true));
    assert!(!is_process_subdir(None, true));
}

#[test]
fn enumerator_yields_numeric_directories_in_listing_order() {
    let listing = vec![
        dir("30"),
        dir("self"),
        file("net"),
        dir("2"),
        file("17"),
        dir("1a"),
        ListedEntry::Entry { name: None, is_dir: true },
        dir("100"),
    ];
    let got = drain(ProcessEnumerator::new(listing));
    assert_eq!(got, vec![Ok("30".to_string()), Ok("2".to_string()), Ok("100".to_string())]);
}

#[test]
fn enumerator_over_empty_listing_yields_nothing() {
    let mut e = ProcessEnumerator::new(Vec::new());
    assert!(e.next_item().is_none());
    assert!(e.next_item().is_none());
}

#[test]
fn unreadable_entry_is_one_failure_among_the_items() {
    let listing = vec![
        dir("1"),
        ListedEntry::Unreadable(Error::new(ErrorKind::NotFound, "vanished")),
        dir("3"),
    ];
    let got = drain(ProcessEnumerator::new(listing));
    assert_eq!(got, vec![Ok("1".to_string()), Err(ErrorKind::NotFound), Ok("3".to_string())]);
}

/// The record of a listed process vanished before it could be opened: that
/// item fails, and the items after it are still read.
#[test]
fn vanished_record_fails_only_its_own_item() {
    let mut e = ProcessEnumerator::new(vec![dir("5"), dir("6")]);
    let mut results: Vec<Result<ProcessStatus, ReadError>> = Vec::new();
    while let Some(item) = e.next_item() {
        let handle = item.unwrap();
        let r = if handle.name == "5" {
            Err(ReadError::from(Error::new(ErrorKind::NotFound, "exited")))
        } else {
            parse_status_lines(&vec!["Pid:\t6\n".to_string(), "Name:\tsh\n".to_string()])
        };
        results.push(r);
    }
    assert_eq!(results.len(), 2);
    assert!(matches!(&results[0], Err(ReadError::IoError(err)) if err.kind() == ErrorKind::NotFound));
    let ok = results[1].as_ref().unwrap();
    assert_eq!(ok.pid, 6);
    assert_eq!(ok.process_name, "sh");
}

/// Subdirectories "1", "2", "abc", "self"; "1/status" holds a pid and a name
/// and no swap line; "2/status" is missing.
#[test]
fn end_to_end_listing_and_records() {
    let mut e = ProcessEnumerator::new(vec![dir("1"), dir("2"), dir("abc"), dir("self")]);
    let mut results: Vec<(String, Result<ProcessStatus, ReadError>)> = Vec::new();
    while let Some(item) = e.next_item() {
        let handle = item.unwrap();
        let r = match handle.name.as_str() {
            "1" => parse_status_lines(&vec!["Pid:1\n".to_string(), "Name:\tinit\n".to_string()]),
            _ => Err(ReadError::from(Error::new(ErrorKind::NotFound, "no status"))),
        };
        results.push((handle.name, r));
    }
    assert_eq!(results.len(), 2);
    assert_eq!(results[0].0, "1");
    let first = results[0].1.as_ref().unwrap();
    assert_eq!((first.pid, first.process_name.as_str(), first.vm_swap), (1, "init", None));
    assert_eq!(results[1].0, "2");
    assert!(matches!(&results[1].1, Err(ReadError::IoError(_))));
}
