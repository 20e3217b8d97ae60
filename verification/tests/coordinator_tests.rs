use coordinator::codec::{generate_id, ID_BASE};
use coordinator::handler::{MessageConfig, TransactionInfo, TransactionMessage};
use coordinator::registrator::{
    abort_transaction, confirm_transaction, create_transaction, wait_budget_step,
    wait_for_confirm_step, ServiceConfig, ServiceRegistry, TrErr, WaitStep, WAIT_MAX_ATTEMPTS,
};
use coordinator::state_tracker::{
    actualize_status, compute_aggregate, TrStatus, TrSubstate, TrSubstatus, TransactionState,
    TransactionStore,
};

const T0: u64 = 1_700_000_000_000_000_000;
const SEC: u64 = 1_000_000_000;

fn registry_with(names: &[&str]) -> ServiceRegistry {
    let mut reg = ServiceRegistry::new();
    for n in names {
        reg.insert_service(ServiceConfig {
            name: n.to_string(),
            address: format!("http://{}.example:8000", n),
        });
    }
    reg
}

fn info(participants: &[&str]) -> TransactionInfo {
    TransactionInfo {
        messages: vec![TransactionMessage {
            services: participants
                .iter()
                .map(|n| MessageConfig { name: n.to_string(), subpath: None })
                .collect(),
        }],
        external_uuid: None,
    }
}

#[test]
fn id_codec_exact_values() {
    assert_eq!(generate_id(0), "23z405fz79tdr");
    assert_eq!(generate_id(T0), "1r254g1dqk0zj");
    assert_eq!(generate_id(T0 + 60 * SEC), "1r254f9tg3sov");
    assert_eq!(generate_id(ID_BASE), "0000000000000");
}

#[test]
fn id_time_order() {
    // Earlier instants give lexicographically larger identifiers.
    assert!(generate_id(T0) > generate_id(T0 + 1));
    assert!(generate_id(0) > generate_id(T0));
    assert!(generate_id(T0 + 1) > generate_id(ID_BASE));
    assert!(generate_id(T0) > generate_id(T0 + 3600 * SEC));
}

#[test]
fn registry_lookup_and_replace() {
    let mut reg = ServiceRegistry::new();
    assert!(reg.read_service_config(&"p1".to_string()).is_none());
    reg.insert_service(ServiceConfig {
        name: "p1".to_string(),
        address: "http://a".to_string(),
    });
    reg.insert_service(ServiceConfig {
        name: "p2".to_string(),
        address: "http://b".to_string(),
    });
    let c = reg.read_service_config(&"p1".to_string()).unwrap();
    assert_eq!(c.address, "http://a");
    // Same name again: the address is replaced, not duplicated.
    reg.insert_service(ServiceConfig {
        name: "p1".to_string(),
        address: "http://c".to_string(),
    });
    assert_eq!(reg.services.len(), 2);
    let c = reg.read_service_config(&"p1".to_string()).unwrap();
    assert_eq!(c.address, "http://c");
}

#[test]
fn load_service_configs_ok() {
    let mut reg = ServiceRegistry::new();
    let yaml = "services:\n  - name: p1\n    address: http://one\n  - name: p2\n    address: http://two\n";
    assert!(reg.load_service_configs(yaml).is_ok());
    assert_eq!(
        reg.read_service_config(&"p1".to_string()).unwrap().address,
        "http://one"
    );
    assert_eq!(
        reg.read_service_config(&"p2".to_string()).unwrap().address,
        "http://two"
    );
    assert!(reg.read_service_config(&"p3".to_string()).is_none());
}

#[test]
fn load_service_configs_errors() {
    let mut reg = ServiceRegistry::new();
    assert_eq!(
        reg.load_service_configs("]["),
        Err("Error while parsing the yaml file")
    );
    assert_eq!(
        reg.load_service_configs("other: 1\n"),
        Err("Service list not defined")
    );
    assert_eq!(
        reg.load_service_configs("services:\n  - name: p1\n"),
        Err("Bad service config")
    );
}

#[test]
fn create_unknown_participant() {
    // Scenario: an unknown participant fails validation and nothing is
    // created.
    let reg = registry_with(&["p1"]);
    let mut store = TransactionStore::new();
    let r = create_transaction(&reg, &mut store, &info(&["p1", "p2"]), T0);
    assert_eq!(r, Err("unknown service: p2".to_string()));
    // The identifier the creation would have used finds nothing.
    assert!(store.read_status(&generate_id(T0)).is_none());
    assert_eq!(store.entries.len(), 0);
}

#[test]
fn scenario_confirm_both() {
    // Scenario: confirm one of two participants, then the other; only then
    // does the transaction conclude, and the second caller's wait returns
    // at its first poll.
    let reg = registry_with(&["p1", "p2"]);
    let mut store = TransactionStore::new();
    let id = create_transaction(&reg, &mut store, &info(&["p1", "p2"]), T0).unwrap();
    assert_eq!(id, generate_id(T0));
    assert_eq!(store.read_status(&id), Some(TrStatus::Pending));

    assert!(confirm_transaction(&mut store, &id, &"p1".to_string()).is_ok());
    assert_eq!(store.read_status(&id), Some(TrStatus::Pending));
    assert_eq!(
        wait_for_confirm_step(store.read_status(&id)),
        Ok(WaitStep::KeepWaiting)
    );

    assert!(confirm_transaction(&mut store, &id, &"p2".to_string()).is_ok());
    assert_eq!(store.read_status(&id), Some(TrStatus::Confirmed));
    assert_eq!(
        wait_for_confirm_step(store.read_status(&id)),
        Ok(WaitStep::Concluded)
    );
}

#[test]
fn scenario_abort_wins() {
    // Scenario: one abort settles the whole transaction at once and a later
    // confirmation of the other participant reports the abort.
    let reg = registry_with(&["p1", "p2"]);
    let mut store = TransactionStore::new();
    let id = create_transaction(&reg, &mut store, &info(&["p1", "p2"]), T0).unwrap();

    assert!(abort_transaction(&mut store, &id, &"p1".to_string()).is_ok());
    assert_eq!(store.read_status(&id), Some(TrStatus::Aborted));

    let r = confirm_transaction(&mut store, &id, &"p2".to_string());
    assert!(matches!(r, Err(TrErr::Aborted(_))));
    assert_eq!(store.read_status(&id), Some(TrStatus::Aborted));
}

#[test]
fn scenario_expiry_then_eviction() {
    // Scenario: a never-acknowledged transaction expires after the liveness
    // horizon and disappears after the dead-letter horizon.
    let reg = registry_with(&["p1"]);
    let mut store = TransactionStore::new();
    let id = create_transaction(&reg, &mut store, &info(&["p1"]), T0).unwrap();
    assert_eq!(store.read_status(&id), Some(TrStatus::Pending));

    // Not yet past the liveness horizon: still pending.
    store.check_expired_transactions(T0 + 59 * SEC);
    assert_eq!(store.read_status(&id), Some(TrStatus::Pending));

    store.check_expired_transactions(T0 + 61 * SEC);
    assert_eq!(store.read_status(&id), Some(TrStatus::Expired));
    let r = confirm_transaction(&mut store, &id, &"p1".to_string());
    assert!(matches!(r, Err(TrErr::Expired(_))));
    let r = abort_transaction(&mut store, &id, &"p1".to_string());
    assert!(matches!(r, Err(TrErr::Expired(_))));

    // Expiry never reverts on later sweeps.
    store.check_expired_transactions(T0 + 90 * SEC);
    assert_eq!(store.read_status(&id), Some(TrStatus::Expired));

    store.check_expired_transactions(T0 + 301 * SEC);
    assert_eq!(store.read_status(&id), None);
    let r = confirm_transaction(&mut store, &id, &"p1".to_string());
    assert!(matches!(r, Err(TrErr::NotFound(_))));
}

#[test]
fn repeated_confirm_is_idempotent() {
    let reg = registry_with(&["p1"]);
    let mut store = TransactionStore::new();
    let id = create_transaction(&reg, &mut store, &info(&["p1"]), T0).unwrap();
    assert!(confirm_transaction(&mut store, &id, &"p1".to_string()).is_ok());
    assert_eq!(store.read_status(&id), Some(TrStatus::Confirmed));
    let r = confirm_transaction(&mut store, &id, &"p1".to_string());
    assert!(matches!(r, Err(TrErr::Repeated(_))));
    assert_eq!(store.read_status(&id), Some(TrStatus::Confirmed));
}

#[test]
fn repeated_abort_is_idempotent() {
    let reg = registry_with(&["p1", "p2"]);
    let mut store = TransactionStore::new();
    let id = create_transaction(&reg, &mut store, &info(&["p1", "p2"]), T0).unwrap();
    assert!(abort_transaction(&mut store, &id, &"p1".to_string()).is_ok());
    let r = abort_transaction(&mut store, &id, &"p2".to_string());
    assert!(matches!(r, Err(TrErr::Repeated(_))));
    assert_eq!(store.read_status(&id), Some(TrStatus::Aborted));
}

#[test]
fn abort_after_confirmed_is_rejected() {
    let reg = registry_with(&["p1"]);
    let mut store = TransactionStore::new();
    let id = create_transaction(&reg, &mut store, &info(&["p1"]), T0).unwrap();
    assert!(confirm_transaction(&mut store, &id, &"p1".to_string()).is_ok());
    let r = abort_transaction(&mut store, &id, &"p1".to_string());
    assert!(matches!(r, Err(TrErr::ArgsError(_))));
    assert_eq!(store.read_status(&id), Some(TrStatus::Confirmed));
}

#[test]
fn unknown_participant_on_confirm_and_abort() {
    let reg = registry_with(&["p1"]);
    let mut store = TransactionStore::new();
    let id = create_transaction(&reg, &mut store, &info(&["p1"]), T0).unwrap();
    let r = confirm_transaction(&mut store, &id, &"zz".to_string());
    assert!(matches!(r, Err(TrErr::Unprocessable(_))));
    assert_eq!(store.read_status(&id), Some(TrStatus::Pending));
    let r = abort_transaction(&mut store, &id, &"zz".to_string());
    assert!(matches!(r, Err(TrErr::Unprocessable(_))));
    assert_eq!(store.read_status(&id), Some(TrStatus::Pending));
}

#[test]
fn confirm_of_missing_transaction() {
    let mut store = TransactionStore::new();
    let r = confirm_transaction(&mut store, &generate_id(T0), &"p1".to_string());
    assert!(matches!(r, Err(TrErr::NotFound(_))));
}

#[test]
fn abort_precedence_any_order() {
    // One aborted substate settles the aggregate whatever the order of the
    // others.
    let orders: [[TrSubstatus; 3]; 3] = [
        [TrSubstatus::Aborted, TrSubstatus::Confirmed, TrSubstatus::Pending],
        [TrSubstatus::Confirmed, TrSubstatus::Aborted, TrSubstatus::Pending],
        [TrSubstatus::Pending, TrSubstatus::Confirmed, TrSubstatus::Aborted],
    ];
    for order in orders.iter() {
        let mut t = TransactionState {
            id: generate_id(T0),
            status: TrStatus::Pending,
            substates: order
                .iter()
                .enumerate()
                .map(|(i, s)| TrSubstate {
                    service: format!("p{}", i),
                    substatus: *s,
                })
                .collect(),
        };
        actualize_status(&mut t);
        assert_eq!(t.status, TrStatus::Aborted);
    }
}

#[test]
fn aggregate_rule_cases() {
    let subs = |v: &[TrSubstatus]| -> Vec<TrSubstate> {
        v.iter()
            .enumerate()
            .map(|(i, s)| TrSubstate {
                service: format!("p{}", i),
                substatus: *s,
            })
            .collect()
    };
    let all_conf = subs(&[TrSubstatus::Confirmed, TrSubstatus::Confirmed]);
    assert_eq!(compute_aggregate(&all_conf, TrStatus::Pending), TrStatus::Confirmed);
    let mixed = subs(&[TrSubstatus::Confirmed, TrSubstatus::Pending]);
    assert_eq!(compute_aggregate(&mixed, TrStatus::Pending), TrStatus::Pending);
    assert_eq!(compute_aggregate(&mixed, TrStatus::Expired), TrStatus::Expired);
    let with_abort = subs(&[TrSubstatus::Confirmed, TrSubstatus::Aborted]);
    assert_eq!(compute_aggregate(&with_abort, TrStatus::Pending), TrStatus::Aborted);
}

#[test]
fn duplicate_participant_names_share_first_slot() {
    // A name that occurs twice keeps two substates, but confirmations
    // resolve to the first occurrence only.
    let reg = registry_with(&["p1"]);
    let mut store = TransactionStore::new();
    let id = create_transaction(&reg, &mut store, &info(&["p1", "p1"]), T0).unwrap();
    assert_eq!(store.entries[0].state.substates.len(), 2);
    assert!(confirm_transaction(&mut store, &id, &"p1".to_string()).is_ok());
    // Only the first slot is confirmed, so the whole stays pending.
    assert_eq!(store.read_status(&id), Some(TrStatus::Pending));
    assert_eq!(
        store.entries[0].state.substates[0].substatus,
        TrSubstatus::Confirmed
    );
    assert_eq!(
        store.entries[0].state.substates[1].substatus,
        TrSubstatus::Pending
    );
}

#[test]
fn wait_step_table() {
    assert_eq!(
        wait_for_confirm_step(Some(TrStatus::Confirmed)),
        Ok(WaitStep::Concluded)
    );
    assert_eq!(
        wait_for_confirm_step(Some(TrStatus::Pending)),
        Ok(WaitStep::KeepWaiting)
    );
    assert!(matches!(
        wait_for_confirm_step(Some(TrStatus::Expired)),
        Err(TrErr::Expired(_))
    ));
    assert!(matches!(
        wait_for_confirm_step(Some(TrStatus::Aborted)),
        Err(TrErr::Aborted(_))
    ));
    assert!(matches!(
        wait_for_confirm_step(None),
        Err(TrErr::NotFound(_))
    ));
}

#[test]
fn bounded_wait_times_out_while_pending() {
    // The protocol of the bounded wait: a caller polling a transaction
    // that never concludes sees KeepWaiting at every attempt and gives up
    // after its budget.
    let reg = registry_with(&["p1", "p2"]);
    let mut store = TransactionStore::new();
    let id = create_transaction(&reg, &mut store, &info(&["p1", "p2"]), T0).unwrap();
    assert!(confirm_transaction(&mut store, &id, &"p1".to_string()).is_ok());
    let mut attempts: u64 = 0;
    let outcome = loop {
        match wait_budget_step(store.read_status(&id), attempts) {
            Ok(WaitStep::Concluded) => break Ok(()),
            Ok(WaitStep::KeepWaiting) => attempts += 1,
            Err(e) => break Err(e),
        }
    };
    assert!(matches!(outcome, Err(TrErr::Timeout(_))));
    assert_eq!(attempts, WAIT_MAX_ATTEMPTS);
    // The record itself is untouched by the timeout.
    assert_eq!(store.read_status(&id), Some(TrStatus::Pending));
}

#[test]
fn store_keeps_newest_first() {
    let reg = registry_with(&["p1"]);
    let mut store = TransactionStore::new();
    let id_a = create_transaction(&reg, &mut store, &info(&["p1"]), T0).unwrap();
    let id_b = create_transaction(&reg, &mut store, &info(&["p1"]), T0 + SEC).unwrap();
    // The newer record has the smaller key and sits first.
    assert_eq!(store.entries.len(), 2);
    assert_eq!(store.entries[0].state.id, id_b);
    assert_eq!(store.entries[1].state.id, id_a);
    assert!(id_a > id_b);
}

#[test]
fn eviction_removes_any_status() {
    // The dead-letter horizon removes records whatever their status.
    let reg = registry_with(&["p1"]);
    let mut store = TransactionStore::new();
    let id = create_transaction(&reg, &mut store, &info(&["p1"]), T0).unwrap();
    assert!(confirm_transaction(&mut store, &id, &"p1".to_string()).is_ok());
    assert_eq!(store.read_status(&id), Some(TrStatus::Confirmed));
    store.check_expired_transactions(T0 + 301 * SEC);
    assert_eq!(store.read_status(&id), None);
}

#[test]
fn load_service_configs_is_atomic() {
    // A malformed entry fails the whole load: nothing before it is kept.
    let mut reg = ServiceRegistry::new();
    let yaml = "services:\n  - name: p1\n    address: http://one\n  - name: p2\n";
    assert_eq!(reg.load_service_configs(yaml), Err("Bad service config"));
    assert!(reg.read_service_config(&"p1".to_string()).is_none());
    assert_eq!(reg.services.len(), 0);
}

#[test]
fn load_service_configs_last_duplicate_wins() {
    let mut reg = ServiceRegistry::new();
    let yaml = "services:\n  - name: p1\n    address: http://one\n  - name: p1\n    address: http://two\n";
    assert!(reg.load_service_configs(yaml).is_ok());
    assert_eq!(reg.services.len(), 1);
    assert_eq!(
        reg.read_service_config(&"p1".to_string()).unwrap().address,
        "http://two"
    );
}

#[test]
fn wait_budget_table() {
    assert_eq!(
        wait_budget_step(Some(TrStatus::Pending), WAIT_MAX_ATTEMPTS - 1),
        Ok(WaitStep::KeepWaiting)
    );
    assert!(matches!(
        wait_budget_step(Some(TrStatus::Pending), WAIT_MAX_ATTEMPTS),
        Err(TrErr::Timeout(_))
    ));
    // A terminal status concludes the wait even at the budget's edge.
    assert_eq!(
        wait_budget_step(Some(TrStatus::Confirmed), WAIT_MAX_ATTEMPTS),
        Ok(WaitStep::Concluded)
    );
    assert!(matches!(
        wait_budget_step(Some(TrStatus::Aborted), WAIT_MAX_ATTEMPTS),
        Err(TrErr::Aborted(_))
    ));
    assert!(matches!(
        wait_budget_step(None, 0),
        Err(TrErr::NotFound(_))
    ));
}
