use cosmos_hodler_snapshot::next_page;
use cosmos_hodler_snapshot::parse_amount;
use cosmos_hodler_snapshot::percent_progress;
use cosmos_hodler_snapshot::run_snapshot;
use cosmos_hodler_snapshot::str_lex_lt;
use cosmos_hodler_snapshot::DelegationRecord;
use cosmos_hodler_snapshot::DelegationsPage;
use cosmos_hodler_snapshot::Ledger;
use cosmos_hodler_snapshot::SnapshotError;
use cosmos_hodler_snapshot::ValidatorInfo;
use cosmos_hodler_snapshot::ValidatorsPage;
use cosmos_hodler_snapshot::PAGE_LIMIT;

fn validator(id: &str, jailed: bool) -> ValidatorInfo {
    ValidatorInfo {
        operator_address: id.to_string(),
        jailed,
    }
}

fn record(delegator: &str, amount: &str) -> DelegationRecord {
    DelegationRecord {
        delegator_address: delegator.to_string(),
        balance: Some(amount.to_string()),
    }
}

#[test]
fn cursor_absent_key_stops() {
    let page = ValidatorsPage {
        validators: vec![],
        next_key: None,
    };
    assert!(next_page(&page).is_none());
}

#[test]
fn cursor_empty_key_stops_like_absent() {
    let present_empty = DelegationsPage {
        delegation_responses: vec![],
        next_key: Some(vec![]),
    };
    let absent = DelegationsPage {
        delegation_responses: vec![],
        next_key: None,
    };
    assert!(next_page(&present_empty).is_none());
    assert!(next_page(&absent).is_none());
}

#[test]
fn cursor_nonempty_key_continues() {
    let page = ValidatorsPage {
        validators: vec![],
        next_key: Some(vec![7, 8]),
    };
    let req = next_page(&page).unwrap();
    assert_eq!(req.key, vec![7, 8]);
    assert_eq!(req.limit, PAGE_LIMIT);
    assert_eq!(req.offset, 0);
    assert!(!req.reverse);
    assert!(!req.count_total);
}

#[test]
fn jailed_validators_are_excluded() {
    let pages = vec![ValidatorsPage {
        validators: vec![
            validator("valoper-good", false),
            validator("valoper-jailed", true),
            validator("valoper-fine", false),
        ],
        next_key: None,
    }];
    let ids = cosmos_hodler_snapshot::enumerate_validators(&pages);
    assert_eq!(ids, vec!["valoper-good".to_string(), "valoper-fine".to_string()]);
}

#[test]
fn crawl_stops_at_first_exhausted_page() {
    let pages = vec![
        ValidatorsPage {
            validators: vec![validator("valoper-a", false)],
            next_key: Some(vec![1]),
        },
        ValidatorsPage {
            validators: vec![validator("valoper-b", false)],
            next_key: Some(vec![]),
        },
        ValidatorsPage {
            validators: vec![validator("valoper-never-fetched", false)],
            next_key: None,
        },
    ];
    let ids = cosmos_hodler_snapshot::enumerate_validators(&pages);
    assert_eq!(ids, vec!["valoper-a".to_string(), "valoper-b".to_string()]);
}

#[test]
fn parse_amount_reads_decimal() {
    assert_eq!(parse_amount("0"), Some(0));
    assert_eq!(parse_amount("123"), Some(123));
    assert_eq!(parse_amount("340282366920938463463374607431768211455"), Some(u128::MAX));
}

#[test]
fn parse_amount_rejects_bad_input() {
    assert_eq!(parse_amount(""), None);
    assert_eq!(parse_amount("12a"), None);
    assert_eq!(parse_amount("-5"), None);
    assert_eq!(parse_amount(" 5"), None);
    assert_eq!(parse_amount("340282366920938463463374607431768211456"), None);
}

#[test]
fn ledger_accumulates_and_sorts() {
    let mut ledger = Ledger::new();
    ledger.add("carol".to_string(), 3).unwrap();
    ledger.add("alice".to_string(), 100).unwrap();
    ledger.add("bob".to_string(), 7).unwrap();
    ledger.add("alice".to_string(), 50).unwrap();
    let rows = ledger.export();
    let flat: Vec<(String, u128)> = rows
        .iter()
        .map(|e| (e.delegator.clone(), e.amount))
        .collect();
    assert_eq!(
        flat,
        vec![
            ("alice".to_string(), 150),
            ("bob".to_string(), 7),
            ("carol".to_string(), 3),
        ]
    );
}

#[test]
fn ledger_add_order_does_not_matter() {
    let mut first = Ledger::new();
    first.add("a".to_string(), 100).unwrap();
    first.add("b".to_string(), 5).unwrap();
    first.add("a".to_string(), 50).unwrap();
    let mut second = Ledger::new();
    second.add("a".to_string(), 50).unwrap();
    second.add("a".to_string(), 100).unwrap();
    second.add("b".to_string(), 5).unwrap();
    let rows1: Vec<(String, u128)> = first
        .export()
        .iter()
        .map(|e| (e.delegator.clone(), e.amount))
        .collect();
    let rows2: Vec<(String, u128)> = second
        .export()
        .iter()
        .map(|e| (e.delegator.clone(), e.amount))
        .collect();
    assert_eq!(rows1, rows2);
}

#[test]
fn zero_stake_is_excluded_from_export() {
    let mut ledger = Ledger::new();
    ledger.add("zed".to_string(), 0).unwrap();
    ledger.add("alice".to_string(), 1).unwrap();
    let rows = ledger.export();
    assert_eq!(rows.len(), 1);
    assert_eq!(rows[0].delegator, "alice");
    assert_eq!(rows[0].amount, 1);
}

#[test]
fn overflow_is_fatal_not_wrapping() {
    let mut ledger = Ledger::new();
    ledger.add("whale".to_string(), u128::MAX).unwrap();
    assert_eq!(ledger.add("whale".to_string(), 1), Err(SnapshotError::Overflow));
    assert_eq!(ledger.lookup(&"whale".to_string()), Some(u128::MAX));
}

#[test]
fn missing_balance_aborts_the_run() {
    let streams = vec![vec![DelegationsPage {
        delegation_responses: vec![
            record("alice", "10"),
            DelegationRecord {
                delegator_address: "bob".to_string(),
                balance: None,
            },
        ],
        next_key: None,
    }]];
    match run_snapshot(&streams) {
        Err(e) => assert_eq!(e, SnapshotError::MissingBalance),
        Ok(_) => panic!("a record without a balance must abort the run"),
    }
}

#[test]
fn unparsable_amount_aborts_the_run() {
    let streams = vec![vec![DelegationsPage {
        delegation_responses: vec![record("alice", "ten")],
        next_key: None,
    }]];
    match run_snapshot(&streams) {
        Err(e) => assert_eq!(e, SnapshotError::InvalidAmount),
        Ok(_) => panic!("an unparsable amount must abort the run"),
    }
}

#[test]
fn empty_validator_set_yields_empty_ledger() {
    let validator_pages = vec![ValidatorsPage {
        validators: vec![],
        next_key: None,
    }];
    let ids = cosmos_hodler_snapshot::enumerate_validators(&validator_pages);
    assert!(ids.is_empty());
    let streams: Vec<Vec<DelegationsPage>> = vec![];
    let ledger = run_snapshot(&streams).unwrap();
    assert!(ledger.export().is_empty());
}

#[test]
fn two_validators_one_jailed_three_pages() {
    let validator_pages = vec![ValidatorsPage {
        validators: vec![validator("valoper-live", false), validator("valoper-jailed", true)],
        next_key: None,
    }];
    let ids = cosmos_hodler_snapshot::enumerate_validators(&validator_pages);
    assert_eq!(ids, vec!["valoper-live".to_string()]);

    let streams = vec![vec![
        DelegationsPage {
            delegation_responses: vec![record("alice", "100"), record("bob", "7")],
            next_key: Some(vec![1]),
        },
        DelegationsPage {
            delegation_responses: vec![record("carol", "3"), record("alice", "50")],
            next_key: Some(vec![2]),
        },
        DelegationsPage {
            delegation_responses: vec![record("dave", "4"), record("erin", "9")],
            next_key: None,
        },
    ]];
    let ledger = run_snapshot(&streams).unwrap();
    let rows = ledger.export();
    let alice: Vec<u128> = rows
        .iter()
        .filter(|e| e.delegator == "alice")
        .map(|e| e.amount)
        .collect();
    assert_eq!(alice, vec![150]);
    assert_eq!(rows.len(), 5);
}

#[test]
fn delegation_crawl_stops_at_empty_key() {
    let streams = vec![vec![
        DelegationsPage {
            delegation_responses: vec![record("alice", "10")],
            next_key: Some(vec![]),
        },
        DelegationsPage {
            delegation_responses: vec![record("never-fetched", "99")],
            next_key: None,
        },
    ]];
    let ledger = run_snapshot(&streams).unwrap();
    let rows = ledger.export();
    assert_eq!(rows.len(), 1);
    assert_eq!(rows[0].delegator, "alice");
}

#[test]
fn progress_percentage_is_guarded() {
    assert_eq!(percent_progress(0, 0), 100);
    assert_eq!(percent_progress(1, 1), 100);
    assert_eq!(percent_progress(0, 5), 0);
    assert_eq!(percent_progress(2, 5), 50);
    assert_eq!(percent_progress(4, 5), 100);
}

#[test]
fn lexicographic_order_on_identifiers() {
    assert!(str_lex_lt("a", "b"));
    assert!(str_lex_lt("a", "ab"));
    assert!(!str_lex_lt("b", "a"));
    assert!(!str_lex_lt("a", "a"));
    assert!(str_lex_lt("", "a"));
}

#[test]
fn delegator_count_tracks_distinct_keys() {
    let mut ledger = Ledger::new();
    assert_eq!(ledger.delegator_count(), 0);
    ledger.add("a".to_string(), 1).unwrap();
    ledger.add("b".to_string(), 2).unwrap();
    ledger.add("a".to_string(), 3).unwrap();
    assert_eq!(ledger.delegator_count(), 2);
}
