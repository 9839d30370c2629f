use zero2prod::gateway::Cluster;
use zero2prod::harness::{handle_subscribe, run_scoped_test};
use zero2prod::subscriptions::{StoreError, SubscriberRecord};

fn record(id: u128, email: &[u8], name: &[u8]) -> SubscriberRecord {
    SubscriberRecord {
        id,
        email: email.to_vec(),
        name: name.to_vec(),
        subscribed_at: 0,
    }
}

#[test]
fn provision_refuses_a_name_in_use() {
    let mut cluster = Cluster::new();
    assert!(cluster.provision(1));
    assert!(!cluster.provision(1));
    assert!(cluster.provision(2));
}

#[test]
fn insert_needs_a_provisioned_database() {
    let mut cluster = Cluster::new();
    assert!(!cluster.insert_row(1, record(9, b"a", b"b")));
    assert!(cluster.provision(1));
    assert!(cluster.insert_row(1, record(9, b"a", b"b")));
    let rows = cluster.get_rows(1).expect("database is gone");
    assert_eq!(rows.len(), 1);
    assert_eq!(rows[0].id, 9);
}

#[test]
fn inserts_into_one_database_never_show_in_another() {
    let mut cluster = Cluster::new();
    assert!(cluster.provision(1));
    assert!(cluster.provision(2));
    assert!(cluster.insert_row(1, record(10, b"a@x", b"a")));
    assert!(cluster.insert_row(1, record(11, b"b@x", b"b")));
    let other = cluster.get_rows(2).expect("database is gone");
    assert_eq!(other.len(), 0);
    let own = cluster.get_rows(1).expect("database is gone");
    assert_eq!(own.len(), 2);
}

#[test]
fn deprovision_drops_only_the_named_database() {
    let mut cluster = Cluster::new();
    assert!(cluster.provision(1));
    assert!(cluster.provision(2));
    assert!(cluster.insert_row(2, record(12, b"keep@x", b"keep")));
    assert!(cluster.deprovision(1));
    assert!(cluster.get_rows(1).is_none());
    let kept = cluster.get_rows(2).expect("database is gone");
    assert_eq!(kept.len(), 1);
    assert!(!cluster.deprovision(1));
}

#[test]
fn gateway_insert_reports_an_unreachable_store() {
    let mut cluster = Cluster::new();
    let outcome = cluster.insert_subscriber(1, record(9, b"a", b"b"));
    assert_eq!(outcome, Err(StoreError::Connectivity));
    assert!(cluster.provision(1));
    let outcome = cluster.insert_subscriber(1, record(9, b"a", b"b"));
    assert_eq!(outcome, Ok(()));
    let rows = cluster.get_rows(1).expect("database is gone");
    assert_eq!(rows.len(), 1);
}

#[test]
fn handler_answers_500_when_the_store_is_unreachable() {
    let mut cluster = Cluster::new();
    let status = handle_subscribe(&mut cluster, 1, b"name=a&email=b");
    assert_eq!(status, 500u16);
}

#[test]
fn a_run_cleans_its_database_up() {
    let mut cluster = Cluster::new();
    let bodies = vec![b"name=a&email=b".to_vec()];
    let statuses = run_scoped_test(&mut cluster, 5, &bodies, None);
    assert_eq!(statuses, vec![200u16]);
    assert!(cluster.get_rows(5).is_none());
}

#[test]
fn a_failing_run_still_cleans_up() {
    let mut cluster = Cluster::new();
    let bodies = vec![
        b"name=a&email=b".to_vec(),
        b"name=c&email=d".to_vec(),
        b"name=e&email=f".to_vec(),
    ];
    let statuses = run_scoped_test(&mut cluster, 5, &bodies, Some(1));
    assert_eq!(statuses.len(), 1);
    assert!(cluster.get_rows(5).is_none());
}

#[test]
fn a_run_never_drops_another_runs_database() {
    let mut cluster = Cluster::new();
    assert!(cluster.provision(8));
    assert!(cluster.insert_row(8, record(13, b"other@x", b"other")));

    let bodies = vec![b"name=a&email=b".to_vec()];
    let statuses = run_scoped_test(&mut cluster, 8, &bodies, None);
    assert_eq!(statuses.len(), 0);
    let kept = cluster.get_rows(8).expect("another run's database was dropped");
    assert_eq!(kept.len(), 1);
    assert_eq!(kept[0].name, b"other".to_vec());
}

#[test]
fn concurrent_style_runs_stay_isolated() {
    let mut cluster = Cluster::new();
    assert!(cluster.provision(100));
    assert!(cluster.provision(200));
    let s1 = handle_subscribe(&mut cluster, 100, b"name=one&email=one%40x");
    let s2 = handle_subscribe(&mut cluster, 200, b"name=two&email=two%40x");
    assert_eq!(s1, 200u16);
    assert_eq!(s2, 200u16);
    let a = cluster.get_rows(100).expect("database is gone");
    assert_eq!(a.len(), 1);
    assert_eq!(a[0].name, b"one".to_vec());
    let b = cluster.get_rows(200).expect("database is gone");
    assert_eq!(b.len(), 1);
    assert_eq!(b[0].name, b"two".to_vec());
    assert!(cluster.deprovision(100));
    assert!(cluster.deprovision(200));
}
