use env_watcher::{
    compile_patterns, compute_changes, init_env_watcher, keep_delivered, kind_matches_key, select_changes,
    ChangeState, EnvTable, EnvironmentData, EnvironmentWatcher, Error, Subscribe, WatcherSlot,
};

const TEST_VALUE: &str = "ONLY_TEST";

fn table(pairs: &[(&str, &str)]) -> EnvTable {
    let mut t = EnvTable::new();
    for (k, v) in pairs {
        t.insert(k.to_string(), v.to_string());
    }
    t
}

fn get(t: &EnvTable, k: &str) -> Option<String> {
    t.get(&k.to_string()).cloned()
}

fn strings(v: &[&str]) -> Vec<String> {
    v.iter().map(|s| s.to_string()).collect()
}

fn describe(c: &ChangeState) -> (String, Option<String>) {
    match c {
        ChangeState::Edit(k, v) => (k.clone(), Some(v.clone())),
        ChangeState::Delete(k) => (k.clone(), None),
    }
}

fn sorted(changes: Vec<ChangeState>) -> Vec<(String, Option<String>)> {
    let mut v: Vec<(String, Option<String>)> = changes.iter().map(describe).collect();
    v.sort();
    v
}

fn drain(rx: &crossbeam_channel::Receiver<ChangeState>) -> Vec<ChangeState> {
    let mut v = Vec::new();
    while let Ok(c) = rx.try_recv() {
        v.push(c);
    }
    v
}

fn edit(k: &str, v: &str) -> (String, Option<String>) {
    (k.to_string(), Some(v.to_string()))
}

fn delete(k: &str) -> (String, Option<String>) {
    (k.to_string(), None)
}

#[test]
fn table_insert_get_remove() {
    let mut t = table(&[("a", "1"), ("b", "2")]);
    assert_eq!(t.len(), 2);
    t.insert("a".to_string(), "3".to_string());
    assert_eq!(t.len(), 2);
    assert_eq!(get(&t, "a"), Some("3".to_string()));
    assert_eq!(t.remove(&"b".to_string()), Some("2".to_string()));
    assert_eq!(t.remove(&"b".to_string()), None);
    assert_eq!(get(&t, "b"), None);
    assert_eq!(t.len(), 1);
    let copy = t.duplicate();
    assert_eq!(get(&copy, "a"), Some("3".to_string()));
    assert_eq!(copy.pairs().len(), 1);
}

#[test]
fn diff_deletes_edits_and_adds() {
    let a = table(&[("a", "1"), ("b", "2"), ("c", "3")]);
    let b = table(&[("b", "2"), ("c", "4"), ("d", ""), ("e", "5")]);
    let changes = compute_changes(&a, &b);
    assert_eq!(
        sorted(changes),
        vec![delete("a"), edit("c", "4"), edit("d", ""), edit("e", "5")]
    );
}

#[test]
fn diff_of_equal_tables_is_empty() {
    let a = table(&[("a", "1"), ("b", "2")]);
    let b = table(&[("b", "2"), ("a", "1")]);
    assert!(compute_changes(&a, &b).is_empty());
    let empty = EnvTable::new();
    assert!(compute_changes(&empty, &EnvTable::new()).is_empty());
}

#[test]
fn two_ticks_without_change_give_no_events() {
    let mut w = EnvironmentWatcher::new(100, table(&[("a", "1")]));
    let (_, rx) = w.subscribe(Subscribe::All).unwrap();
    assert_eq!(sorted(w.tick(table(&[("a", "2")]))), vec![edit("a", "2")]);
    assert!(w.tick(table(&[("a", "2")])).is_empty());
    assert_eq!(sorted(drain(&rx)), vec![edit("a", "2")]);
}

#[test]
fn single_key_subscription_sees_its_value() {
    let mut w = EnvironmentWatcher::new(100, table(&[("K", "V"), ("other", "x")]));
    let (snap, _rx) = w
        .subscribe(Subscribe::Envs(strings(&["K", "missing"])))
        .unwrap();
    assert_eq!(snap.len(), 1);
    assert_eq!(get(&snap, "K"), Some("V".to_string()));
    assert_eq!(get(&snap, "missing"), None);
}

#[test]
fn edit_of_one_key_is_delivered() {
    let mut w = EnvironmentWatcher::new(100, table(&[("KEY", "1")]));
    let (snap, rx) = w.subscribe(Subscribe::Envs(strings(&["KEY"]))).unwrap();
    assert_eq!(get(&snap, "KEY"), Some("1".to_string()));
    w.tick(table(&[("KEY", "2")]));
    assert_eq!(sorted(drain(&rx)), vec![edit("KEY", "2")]);
}

#[test]
fn pattern_subscription_ignores_other_keys() {
    let mut w = EnvironmentWatcher::new(100, table(&[("A", "x")]));
    let (snap, rx) = w
        .subscribe(Subscribe::PatternEnvs(strings(&["^my\\.server\\..*"])))
        .unwrap();
    assert_eq!(snap.len(), 0);
    let changes = w.tick(EnvTable::new());
    assert_eq!(sorted(changes), vec![delete("A")]);
    assert!(drain(&rx).is_empty());
}

#[test]
fn all_subscription_sees_delete_and_edit() {
    let mut w = EnvironmentWatcher::new(100, table(&[("P", "1"), ("Q", "2")]));
    let (_, rx) = w.subscribe(Subscribe::All).unwrap();
    w.tick(table(&[("Q", "3")]));
    assert_eq!(sorted(drain(&rx)), vec![delete("P"), edit("Q", "3")]);
}

#[test]
fn invalid_pattern_is_refused() {
    let mut w = EnvironmentWatcher::new(100, table(&[("a", "1")]));
    let r = w.subscribe(Subscribe::PatternEnvs(strings(&["^a", "(", "["])));
    match r {
        Err(Error::InvalidPattern { pattern, error }) => {
            assert_eq!(pattern, "(");
            assert!(!error.is_empty());
        }
        _ => panic!("expected an invalid pattern"),
    }
    assert_eq!(w.size(), 0);
}

#[test]
fn pattern_matches_inside_key() {
    let mut w = EnvironmentWatcher::new(
        100,
        table(&[("my.client.host", "h"), ("x.my.client", "y"), ("other", "z")]),
    );
    let (snap, _rx) = w
        .subscribe(Subscribe::PatternEnvs(strings(&["client\\.host$", "^x\\."])))
        .unwrap();
    assert_eq!(snap.len(), 2);
    assert_eq!(get(&snap, "my.client.host"), Some("h".to_string()));
    assert_eq!(get(&snap, "x.my.client"), Some("y".to_string()));
}

#[test]
fn find_sub() {
    let kind = Subscribe::PatternEnvs(strings(&["^my.client.*"]));
    let patterns = compile_patterns(&strings(&["^my.client.*"])).unwrap();
    assert!(kind_matches_key(&kind, &patterns, &"my.client.host".to_string()));
    assert!(!kind_matches_key(&kind, &patterns, &"your.client.host".to_string()));
}

#[test]
fn find_sub2() {
    let pattern = strings(&["^*.host.*"]);
    let kind = Subscribe::PatternEnvs(pattern.clone());
    let patterns = compile_patterns(&pattern).unwrap();
    assert!(kind_matches_key(&kind, &patterns, &"my.client.host.version.1".to_string()));
    assert!(!kind_matches_key(&kind, &patterns, &"my.not.found.test".to_string()));
}

#[test]
fn size_counts_distinct_kinds() {
    let mut w = EnvironmentWatcher::new(100, EnvTable::new());
    w.subscribe(Subscribe::All).unwrap();
    w.subscribe(Subscribe::All).unwrap();
    assert_eq!(w.size(), 1);
    w.subscribe(Subscribe::Envs(strings(&["a", "b"]))).unwrap();
    w.subscribe(Subscribe::Envs(strings(&["b", "a"]))).unwrap();
    assert_eq!(w.size(), 3);
    w.subscribe(Subscribe::PatternEnvs(strings(&["a", "b"]))).unwrap();
    assert_eq!(w.size(), 4);
}

#[test]
fn every_channel_of_a_kind_receives() {
    let mut w = EnvironmentWatcher::new(100, table(&[("k", "1")]));
    let (_, rx1) = w.subscribe(Subscribe::Envs(strings(&["k"]))).unwrap();
    let (_, rx2) = w.subscribe(Subscribe::Envs(strings(&["k"]))).unwrap();
    w.tick(table(&[("k", "2"), ("j", "3")]));
    assert_eq!(sorted(drain(&rx1)), vec![edit("k", "2")]);
    assert_eq!(sorted(drain(&rx2)), vec![edit("k", "2")]);
}

#[test]
fn dropped_receiver_does_not_stop_ticks() {
    let mut w = EnvironmentWatcher::new(100, table(&[("k", "1")]));
    let (_, rx1) = w.subscribe(Subscribe::All).unwrap();
    let (_, rx2) = w.subscribe(Subscribe::All).unwrap();
    drop(rx1);
    w.tick(table(&[("k", "2")]));
    w.tick(table(&[("k", "3")]));
    assert_eq!(sorted(drain(&rx2)), vec![edit("k", "2"), edit("k", "3")]);
    assert_eq!(w.size(), 1);
}

#[test]
fn snapshot_converges_to_new_state() {
    let mut w = EnvironmentWatcher::new(100, table(&[("a.x", "1"), ("a.y", "2"), ("b", "3")]));
    let (mut view, rx) = w
        .subscribe_snapshot(Subscribe::PatternEnvs(strings(&["^a\\."])))
        .unwrap();
    assert_eq!(view.data().len(), 2);
    w.tick(table(&[("a.x", "9"), ("a.z", "4"), ("b", "5")]));
    for c in drain(&rx) {
        view.apply(c);
    }
    let d = view.data();
    assert_eq!(d.len(), 2);
    assert_eq!(get(&d, "a.x"), Some("9".to_string()));
    assert_eq!(get(&d, "a.z"), Some("4".to_string()));
    assert_eq!(get(&d, "a.y"), None);
}

#[test]
fn snapshot_delete_of_absent_key_is_noop() {
    let mut view = EnvironmentData::new(table(&[("a", "1")]));
    view.apply(ChangeState::Delete("zzz".to_string()));
    assert_eq!(view.data().len(), 1);
    view.apply(ChangeState::Edit("b".to_string(), "2".to_string()));
    assert_eq!(get(&view.data(), "b"), Some("2".to_string()));
}

#[test]
fn select_changes_keeps_order_of_matching() {
    let kind = Subscribe::Envs(strings(&["b", "c"]));
    let changes = vec![
        ChangeState::Edit("a".to_string(), "1".to_string()),
        ChangeState::Delete("c".to_string()),
        ChangeState::Edit("b".to_string(), "2".to_string()),
    ];
    let picked: Vec<(String, Option<String>)> =
        select_changes(&kind, &Vec::new(), &changes).iter().map(describe).collect();
    assert_eq!(picked, vec![delete("c"), edit("b", "2")]);
}

#[test]
fn init_once_then_refused() {
    let mut slot = WatcherSlot::new();
    assert!(init_env_watcher(&mut slot, 500, table(&[("a", "1")])).is_ok());
    assert!(slot.initialized);
    match init_env_watcher(&mut slot, 500, EnvTable::new()) {
        Err(Error::DoubleInitialWatcher) => {}
        _ => panic!("expected a double initialisation error"),
    }
    let w = slot.watcher.as_ref().unwrap();
    assert_eq!(w.interval_millis(), 500);
}

#[test]
fn init_refused_with_subscribers() {
    let mut w = EnvironmentWatcher::new(100, EnvTable::new());
    w.subscribe(Subscribe::All).unwrap();
    let mut slot = WatcherSlot { initialized: false, watcher: Some(w) };
    match init_env_watcher(&mut slot, 500, EnvTable::new()) {
        Err(Error::ReinitializedWithSubscribers) => {}
        _ => panic!("expected a reinitialisation error"),
    }
    assert!(!slot.initialized);
}

#[test]
fn default_watcher_starts_empty() {
    let mut w = EnvironmentWatcher::default();
    assert_eq!(w.interval_millis(), 500);
    assert_eq!(w.size(), 0);
    let changes = w.tick(table(&[("a", "1")]));
    assert_eq!(sorted(changes), vec![edit("a", "1")]);
}

#[test]
fn create_all_subscriber() {
    let env = table(&[
        ("my.test34.host", TEST_VALUE),
        ("my.test34.port", TEST_VALUE),
        ("my.test34.type", TEST_VALUE),
    ]);
    let mut w = EnvironmentWatcher::new(5000, env);
    let (current_data, rx) = w.subscribe(Subscribe::All).unwrap();
    assert_eq!(get(&current_data, "my.test34.host"), Some(TEST_VALUE.to_string()));
    assert_eq!(get(&current_data, "my.test34.port"), Some(TEST_VALUE.to_string()));
    assert_eq!(get(&current_data, "my.test34.type"), Some(TEST_VALUE.to_string()));
    w.tick(table(&[("my.test34.port", "2011"), ("my.test34.type", "test")]));
    assert_eq!(
        sorted(drain(&rx)),
        vec![delete("my.test34.host"), edit("my.test34.port", "2011"), edit("my.test34.type", "test")]
    );
}

#[test]
fn create_envs_subscriber() {
    let keys = strings(&["my.test.host", "my.test.port", "my.test.type"]);
    let env = table(&[
        ("my.test.host", TEST_VALUE),
        ("my.test.port", TEST_VALUE),
        ("my.test.type", TEST_VALUE),
        ("unrelated", "x"),
    ]);
    let mut w = EnvironmentWatcher::new(5000, env);
    let (current_data, rx) = w.subscribe(Subscribe::Envs(keys)).unwrap();
    assert_eq!(current_data.len(), 3);
    assert_eq!(get(&current_data, "my.test.host"), Some(TEST_VALUE.to_string()));
    assert_eq!(get(&current_data, "my.test.port"), Some(TEST_VALUE.to_string()));
    assert_eq!(get(&current_data, "my.test.type"), Some(TEST_VALUE.to_string()));
    w.tick(table(&[("my.test.port", "2011"), ("my.test.type", "test")]));
    assert_eq!(
        sorted(drain(&rx)),
        vec![delete("my.test.host"), edit("my.test.port", "2011"), edit("my.test.type", "test")]
    );
}

#[test]
fn create_pattern_envs_subscriber() {
    let env = table(&[
        ("my.client.host", TEST_VALUE),
        ("my.client.port", TEST_VALUE),
        ("my.client.blob.size", TEST_VALUE),
    ]);
    let mut w = EnvironmentWatcher::new(5000, env);
    let (current_data, rx) = w
        .subscribe(Subscribe::PatternEnvs(strings(&["my.client.*"])))
        .unwrap();
    assert_eq!(get(&current_data, "my.client.host"), Some(TEST_VALUE.to_string()));
    assert_eq!(get(&current_data, "my.client.port"), Some(TEST_VALUE.to_string()));
    assert_eq!(get(&current_data, "my.client.blob.size"), Some(TEST_VALUE.to_string()));
    w.tick(table(&[("my.client.port", "2011"), ("my.client.blob.size", "7MB")]));
    assert_eq!(
        sorted(drain(&rx)),
        vec![edit("my.client.blob.size", "7MB"), delete("my.client.host"), edit("my.client.port", "2011")]
    );
}

#[test]
fn snapshot_changes() {
    let env = table(&[
        ("my.test44.host", TEST_VALUE),
        ("my.test44.port", TEST_VALUE),
        ("my.test44.type", TEST_VALUE),
    ]);
    let mut w = EnvironmentWatcher::new(5000, env);
    let (mut view, rx) = w.subscribe_snapshot(Subscribe::All).unwrap();
    let initial = view.data();
    assert_eq!(get(&initial, "my.test44.host"), Some(TEST_VALUE.to_string()));
    assert_eq!(get(&initial, "my.test44.port"), Some(TEST_VALUE.to_string()));
    assert_eq!(get(&initial, "my.test44.type"), Some(TEST_VALUE.to_string()));
    w.tick(table(&[("my.test44.port", "2012"), ("my.test44.type", "78MB")]));
    for c in drain(&rx) {
        view.apply(c);
    }
    let data = view.data();
    assert_eq!(get(&data, "my.test44.port"), Some("2012".to_string()));
    assert_eq!(get(&data, "my.test44.type"), Some("78MB".to_string()));
    assert_eq!(get(&data, "my.test44.host"), None);
}

#[test]
fn keep_delivered_keeps_flagged_channels_in_order() {
    let (tx1, rx1) = crossbeam_channel::unbounded::<ChangeState>();
    let (tx2, _rx2) = crossbeam_channel::unbounded::<ChangeState>();
    let (tx3, rx3) = crossbeam_channel::unbounded::<ChangeState>();
    let kept = keep_delivered(vec![tx1, tx2, tx3], &vec![true, false]);
    assert_eq!(kept.len(), 1);
    kept[0].send(ChangeState::Delete("k".to_string())).unwrap();
    assert_eq!(sorted(drain(&rx1)), vec![delete("k")]);
    assert!(drain(&rx3).is_empty());
    let all = keep_delivered(vec![kept[0].clone()], &vec![true, true]);
    assert_eq!(all.len(), 1);
}
