use keyed_store::hash_table::HashTable;
use keyed_store::logger::{LockType, LogMessage, ThreadLogger};

fn line_body(line: &str) -> (&str, &str) {
    // `<timestamp>: THREAD <rest>`
    let (stamp, rest) = line.split_once(": THREAD ").expect("event line shape");
    assert!(!stamp.is_empty());
    assert!(stamp.bytes().all(|b| b.is_ascii_digit()));
    let rest = rest.strip_suffix('\n').expect("event line ends in newline");
    rest.split_once(' ').expect("worker id and description")
}

#[test]
fn event_lines_carry_worker_and_description() {
    let mut logger = ThreadLogger::new();
    logger.log_id(5, LogMessage::Custom(String::from("HELLO")));
    logger.log_id(7, LogMessage::Acquire(LockType::Read));
    logger.log_id(7, LogMessage::Release(LockType::Read));
    logger.log_id(9, LogMessage::Acquire(LockType::Write));
    logger.log_id(9, LogMessage::Release(LockType::Write));
    let lines = logger.take_lines();
    assert_eq!(lines.len(), 5);
    assert_eq!(line_body(&lines[0]), ("5", "HELLO"));
    assert_eq!(line_body(&lines[1]), ("7", "READ LOCK ACQUIRED"));
    assert_eq!(line_body(&lines[2]), ("7", "READ LOCK RELEASED"));
    assert_eq!(line_body(&lines[3]), ("9", "WRITE LOCK ACQUIRED"));
    assert_eq!(line_body(&lines[4]), ("9", "WRITE LOCK RELEASED"));
    // The queue was drained; the counters were not.
    assert_eq!(logger.take_lines().len(), 0);
    assert_eq!(logger.get_acquisition_count(), 2);
    assert_eq!(logger.get_release_count(), 2);
}

#[test]
fn counters_move_at_enqueue_time() {
    let mut logger = ThreadLogger::new();
    assert_eq!(logger.get_acquisition_count(), 0);
    assert_eq!(logger.get_release_count(), 0);
    logger.log_id(0, LogMessage::Acquire(LockType::Write));
    assert_eq!(logger.get_acquisition_count(), 1);
    assert_eq!(logger.get_release_count(), 0);
    logger.log_id(0, LogMessage::Release(LockType::Write));
    assert_eq!(logger.get_acquisition_count(), 1);
    assert_eq!(logger.get_release_count(), 1);
    logger.log_id(0, LogMessage::Custom(String::from("note")));
    assert_eq!(logger.get_acquisition_count(), 1);
    assert_eq!(logger.get_release_count(), 1);
}

#[test]
fn log_str_is_raw_and_uncounted() {
    let mut logger = ThreadLogger::new();
    logger.log_str("free-form summary");
    let lines = logger.take_lines();
    assert_eq!(lines, vec![String::from("free-form summary")]);
    assert_eq!(logger.get_acquisition_count(), 0);
    assert_eq!(logger.get_release_count(), 0);
}

#[test]
fn acquisitions_balance_releases_after_operations() {
    let mut table = HashTable::new(ThreadLogger::new());
    table.insert("alice", 50000, 0);
    table.insert("bob", 60000, 1);
    table.update_salary("alice", 55000, 2);
    table.delete("bob", 3);
    table.search("alice", 4);
    table.get_all_records(5);
    let acquisitions = table.logger.get_acquisition_count();
    let releases = table.logger.get_release_count();
    assert_eq!(acquisitions, 6);
    assert_eq!(releases, 6);
    assert_eq!(acquisitions, releases);
}

#[test]
fn log_summary_text_is_exact() {
    let mut table = HashTable::new(ThreadLogger::new());
    table.insert("kim", 12, 0);
    table.logger.take_lines();
    table.log_summary();
    let lines = table.logger.take_lines();
    assert_eq!(lines.len(), 1);
    let hash = HashTable::jenkins_one_at_a_time_hash(b"kim");
    let expected = format!(
        "\nNumber of lock acquisitions: 1\nNumber of lock releases: 1\nFinal Table:\n{},kim,12",
        hash
    );
    assert_eq!(lines[0], expected);
}

#[test]
fn operation_notes_precede_lock_events() {
    let mut table = HashTable::new(ThreadLogger::new());
    table.insert("alice", 50000, 3);
    let lines = table.logger.take_lines();
    assert_eq!(lines.len(), 3);
    let hash = HashTable::jenkins_one_at_a_time_hash(b"alice");
    assert_eq!(
        line_body(&lines[0]),
        ("3", format!("INSERT,{},alice,50000", hash).as_str())
    );
    assert_eq!(line_body(&lines[1]), ("3", "WRITE LOCK ACQUIRED"));
    assert_eq!(line_body(&lines[2]), ("3", "WRITE LOCK RELEASED"));
}

#[test]
fn search_and_print_use_the_read_lock() {
    let mut table = HashTable::new(ThreadLogger::new());
    table.search("ghost", 1);
    table.get_all_records(2);
    let lines = table.logger.take_lines();
    assert_eq!(lines.len(), 6);
    let hash = HashTable::jenkins_one_at_a_time_hash(b"ghost");
    assert_eq!(
        line_body(&lines[0]),
        ("1", format!("SEARCH,{},ghost", hash).as_str())
    );
    assert_eq!(line_body(&lines[1]), ("1", "READ LOCK ACQUIRED"));
    assert_eq!(line_body(&lines[2]), ("1", "READ LOCK RELEASED"));
    assert_eq!(line_body(&lines[3]), ("2", "PRINT"));
    assert_eq!(line_body(&lines[4]), ("2", "READ LOCK ACQUIRED"));
    assert_eq!(line_body(&lines[5]), ("2", "READ LOCK RELEASED"));
}
