use keyed_store::commands::{
    execute_batch, parse_command, sort_commands, Command, CommandResult, CommandWithPriority,
    TurnManager,
};
use keyed_store::hash_table::{HashTable, InsertResult, SearchResult};
use keyed_store::logger::ThreadLogger;

fn parse_all(lines: &[&str]) -> Vec<CommandWithPriority> {
    lines
        .iter()
        .map(|line| parse_command(line).expect("well-formed command line"))
        .collect()
}

#[test]
fn parse_accepts_each_verb() {
    match parse_command("insert,alice,50000,0") {
        Some(cmd) => {
            assert_eq!(cmd.priority, 0);
            match cmd.command {
                Command::Insert { name, salary } => {
                    assert_eq!(name, "alice");
                    assert_eq!(salary, 50000);
                }
                _ => panic!("wrong verb"),
            }
        }
        None => panic!("insert line rejected"),
    }
    match parse_command("delete, bob ,3") {
        Some(cmd) => {
            assert_eq!(cmd.priority, 3);
            match cmd.command {
                Command::Delete { name } => assert_eq!(name, "bob"),
                _ => panic!("wrong verb"),
            }
        }
        None => panic!("delete line rejected"),
    }
    match parse_command("update,alice,55000,2") {
        Some(cmd) => match cmd.command {
            Command::Update { name, salary } => {
                assert_eq!(name, "alice");
                assert_eq!(salary, 55000);
            }
            _ => panic!("wrong verb"),
        },
        None => panic!("update line rejected"),
    }
    match parse_command("search,alice,9") {
        Some(cmd) => match cmd.command {
            Command::Search { name } => assert_eq!(name, "alice"),
            _ => panic!("wrong verb"),
        },
        None => panic!("search line rejected"),
    }
    match parse_command("print,4") {
        Some(cmd) => {
            assert_eq!(cmd.priority, 4);
            assert!(matches!(cmd.command, Command::Print));
        }
        None => panic!("print line rejected"),
    }
}

#[test]
fn parse_rejects_malformed_lines() {
    assert!(parse_command("").is_none());
    assert!(parse_command("launch,alice,1").is_none());
    assert!(parse_command("threads,4,0").is_none());
    assert!(parse_command("insert,alice,50000").is_none());
    assert!(parse_command("insert,alice,notanumber,0").is_none());
    assert!(parse_command("insert,alice,50000,").is_none());
    assert!(parse_command("print,0,extra").is_none());
    assert!(parse_command("insert,alice,4294967296,0").is_none());
}

#[test]
fn parse_accepts_the_largest_u32() {
    match parse_command("insert,alice,4294967295,0") {
        Some(cmd) => match cmd.command {
            Command::Insert { salary, .. } => assert_eq!(salary, u32::MAX),
            _ => panic!("wrong verb"),
        },
        None => panic!("largest u32 rejected"),
    }
}

#[test]
fn sort_is_stable_by_priority() {
    let cmds = parse_all(&[
        "search,third,7",
        "search,first,1",
        "search,second,7",
        "print,0",
    ]);
    let ordered = sort_commands(cmds);
    let priorities: Vec<u32> = ordered.iter().map(|c| c.priority).collect();
    assert_eq!(priorities, vec![0, 1, 7, 7]);
    let names: Vec<String> = ordered
        .iter()
        .filter_map(|c| match &c.command {
            Command::Search { name } => Some(name.clone()),
            _ => None,
        })
        .collect();
    // Equal priorities keep submission order.
    assert_eq!(names, vec!["first", "third", "second"]);
}

#[test]
fn workers_mutate_in_turn_order() {
    let logger = ThreadLogger::new();
    let mut table = HashTable::new(logger);
    let mut turn = TurnManager::new(0);
    let cmds = parse_all(&[
        "insert,alice,1,0",
        "insert,bob,2,1",
        "insert,carol,3,2",
    ]);
    execute_batch(&mut table, &mut turn, &cmds);
    let lines = table.logger.take_lines();
    // Five lines per worker: waiting, awakened, note, acquire, release.
    assert_eq!(lines.len(), 15);
    let hashes: Vec<u32> = ["alice", "bob", "carol"]
        .iter()
        .map(|n| HashTable::jenkins_one_at_a_time_hash(n.as_bytes()))
        .collect();
    for (i, name) in ["alice", "bob", "carol"].iter().enumerate() {
        let note = format!("INSERT,{},{},{}", hashes[i], name, i + 1);
        assert!(
            lines[5 * i + 2].ends_with(&format!("{}\n", note)),
            "worker {} note out of order: {}",
            i,
            lines[5 * i + 2]
        );
    }
}

#[test]
fn batch_balances_the_lock_counters() {
    let logger = ThreadLogger::new();
    let mut table = HashTable::new(logger);
    let mut turn = TurnManager::new(0);
    let cmds = parse_all(&[
        "insert,alice,1,0",
        "search,alice,1",
        "delete,alice,2",
        "print,3",
    ]);
    execute_batch(&mut table, &mut turn, &cmds);
    assert_eq!(table.logger.get_acquisition_count(), 4);
    assert_eq!(table.logger.get_release_count(), 4);
}

#[test]
fn turn_counter_is_consumed_without_gaps() {
    let mut turn = TurnManager::new(0);
    for index in 0..4u32 {
        assert!(turn.is_my_turn(index));
        assert!(!turn.is_my_turn(index + 1));
        turn.advance();
    }
    assert!(turn.is_my_turn(4));
}

#[test]
fn end_to_end_scenario() {
    let logger = ThreadLogger::new();
    let mut table = HashTable::new(logger);
    let mut turn = TurnManager::new(0);
    let cmds = sort_commands(parse_all(&[
        "insert,alice,50000,0",
        "insert,bob,60000,1",
        "update,alice,55000,2",
        "delete,bob,3",
        "print,4",
    ]));
    let results = execute_batch(&mut table, &mut turn, &cmds);
    assert_eq!(results.len(), 5);
    match &results[0] {
        CommandResult::Inserted(InsertResult::Success { record }) => {
            assert_eq!(record.name, "alice");
        }
        _ => panic!("first insert failed"),
    }
    match &results[4] {
        CommandResult::Printed(records) => {
            assert_eq!(records.len(), 1);
            assert_eq!(records[0].name, "alice");
            assert_eq!(records[0].salary, 55000);
            assert_eq!(
                records[0].hash,
                HashTable::jenkins_one_at_a_time_hash(b"alice")
            );
        }
        _ => panic!("print command gave no snapshot"),
    }
    match table.search("bob", 9) {
        SearchResult::NotFound { name } => assert_eq!(name, "bob"),
        SearchResult::Found { .. } => panic!("deleted record still present"),
    }
    let snapshot = table.get_all_records(9);
    assert_eq!(snapshot.len(), 1);
    assert_eq!(snapshot[0].name, "alice");
    assert_eq!(snapshot[0].salary, 55000);
}
