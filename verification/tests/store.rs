use keyed_store::hash_table::{
    DeleteResult, HashRecord, HashTable, InsertResult, SearchResult, UpdateResult,
};
use keyed_store::logger::ThreadLogger;

fn fresh_table() -> HashTable {
    HashTable::new(ThreadLogger::new())
}

#[test]
fn insert_then_search_round_trip() {
    let mut table = fresh_table();
    match table.insert("alice", 50000, 0) {
        InsertResult::Success { record } => {
            assert_eq!(record.name, "alice");
            assert_eq!(record.salary, 50000);
            assert_eq!(record.hash, HashTable::jenkins_one_at_a_time_hash(b"alice"));
        }
        InsertResult::Duplicate { .. } => panic!("fresh name reported as duplicate"),
    }
    match table.search("alice", 1) {
        SearchResult::Found { record } => {
            assert_eq!(record.salary, 50000);
            assert_eq!(record.name, "alice");
        }
        SearchResult::NotFound { .. } => panic!("inserted name not found"),
    }
}

#[test]
fn duplicate_insert_is_rejected() {
    let mut table = fresh_table();
    match table.insert("alice", 50000, 0) {
        InsertResult::Success { .. } => {}
        InsertResult::Duplicate { .. } => panic!("first insert rejected"),
    }
    match table.insert("alice", 99999, 1) {
        InsertResult::Success { .. } => panic!("duplicate insert accepted"),
        InsertResult::Duplicate { hash } => {
            assert_eq!(hash, HashTable::jenkins_one_at_a_time_hash(b"alice"));
        }
    }
    let snapshot = table.get_all_records(2);
    let alices: Vec<&HashRecord> = snapshot.iter().filter(|r| r.name == "alice").collect();
    assert_eq!(alices.len(), 1);
    assert_eq!(alices[0].salary, 50000);
}

#[test]
fn delete_then_search_misses() {
    let mut table = fresh_table();
    table.insert("alice", 50000, 0);
    table.insert("bob", 60000, 1);
    match table.delete("alice", 2) {
        DeleteResult::Success { record } => {
            assert_eq!(record.name, "alice");
            assert_eq!(record.salary, 50000);
        }
        DeleteResult::NotFound { .. } => panic!("existing name not deleted"),
    }
    match table.search("alice", 3) {
        SearchResult::Found { .. } => panic!("deleted name still found"),
        SearchResult::NotFound { name } => assert_eq!(name, "alice"),
    }
    match table.search("bob", 4) {
        SearchResult::Found { record } => assert_eq!(record.salary, 60000),
        SearchResult::NotFound { .. } => panic!("untouched name lost"),
    }
}

#[test]
fn delete_of_absent_name_leaves_chain() {
    let mut table = fresh_table();
    table.insert("alice", 50000, 0);
    let before = table.get_all_records(1).len();
    match table.delete("nobody", 2) {
        DeleteResult::Success { .. } => panic!("absent name deleted"),
        DeleteResult::NotFound { hash } => {
            assert_eq!(hash, HashTable::jenkins_one_at_a_time_hash(b"nobody"));
        }
    }
    assert_eq!(table.get_all_records(3).len(), before);
}

#[test]
fn update_changes_only_the_salary() {
    let mut table = fresh_table();
    table.insert("alice", 50000, 0);
    match table.update_salary("alice", 55000, 1) {
        UpdateResult::Success { old_record, new_record } => {
            assert_eq!(old_record.salary, 50000);
            assert_eq!(new_record.salary, 55000);
            assert_eq!(old_record.name, new_record.name);
            assert_eq!(old_record.hash, new_record.hash);
        }
        UpdateResult::NotFound { .. } => panic!("existing name not updated"),
    }
    match table.search("alice", 2) {
        SearchResult::Found { record } => assert_eq!(record.salary, 55000),
        SearchResult::NotFound { .. } => panic!("updated name lost"),
    }
}

#[test]
fn update_of_absent_name_mutates_nothing() {
    let mut table = fresh_table();
    table.insert("alice", 50000, 0);
    match table.update_salary("nobody", 1, 1) {
        UpdateResult::Success { .. } => panic!("absent name updated"),
        UpdateResult::NotFound { hash } => {
            assert_eq!(hash, HashTable::jenkins_one_at_a_time_hash(b"nobody"));
        }
    }
    let snapshot = table.get_all_records(2);
    assert_eq!(snapshot.len(), 1);
    assert_eq!(snapshot[0].salary, 50000);
}

#[test]
fn snapshot_is_sorted_by_hash_and_idempotent() {
    let mut table = fresh_table();
    for (name, salary) in [
        ("alice", 1u32),
        ("bob", 2),
        ("carol", 3),
        ("dave", 4),
        ("erin", 5),
    ] {
        match table.insert(name, salary, 0) {
            InsertResult::Success { .. } => {}
            InsertResult::Duplicate { .. } => panic!("fresh name rejected"),
        }
    }
    let first = table.get_all_records(1);
    assert_eq!(first.len(), 5);
    for window in first.windows(2) {
        assert!(window[0].hash <= window[1].hash);
    }
    let second = table.get_all_records(2);
    assert_eq!(first.len(), second.len());
    for (a, b) in first.iter().zip(second.iter()) {
        assert_eq!(a.hash, b.hash);
        assert_eq!(a.name, b.name);
        assert_eq!(a.salary, b.salary);
    }
}

#[test]
fn record_render_is_hash_name_salary() {
    let record = HashRecord { hash: 7, name: String::from("kim"), salary: 12 };
    assert_eq!(record.render(), "7,kim,12");
}

#[test]
fn snapshot_of_empty_store_is_empty() {
    let mut table = fresh_table();
    assert_eq!(table.get_all_records(0).len(), 0);
}
