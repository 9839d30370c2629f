use zero2prod::gateway::Cluster;
use zero2prod::harness::{handle_subscribe, run_scoped_test};
use zero2prod::health::health_check;

#[test]
fn health_check_works() {
    let reply = health_check();
    assert!(reply.status == 200);
    assert_eq!(0, reply.body.len());
}

#[test]
fn health_check_is_idempotent() {
    let first = health_check();
    let second = health_check();
    assert_eq!(first.status, second.status);
    assert_eq!(first.body, second.body);
}

#[test]
fn post_returns_200() {
    let mut cluster = Cluster::new();
    let db_name: u128 = 7;
    assert!(cluster.provision(db_name));

    let body = b"name=le%20guin&email=ursula_le_guin%40gmail.com";
    let status = handle_subscribe(&mut cluster, db_name, body);

    let saved = cluster
        .get_rows(db_name)
        .expect("Failed to fetch saved subscriptions");
    assert_eq!(saved.len(), 1);
    assert_eq!(saved[0].email, b"ursula_le_guin@gmail.com".to_vec());
    assert_eq!(saved[0].name, b"le guin".to_vec());

    assert_eq!(status, 200u16);
    assert!(cluster.deprovision(db_name));
}

#[test]
fn post_returns_400() {
    let mut cluster = Cluster::new();
    let db_name: u128 = 11;
    assert!(cluster.provision(db_name));

    let test_cases = vec![
        (b"name=le%20guin".to_vec(), "missing the email"),
        (b"email=ursula_le_guin%40gmail.com".to_vec(), "missing the name"),
        (b"".to_vec(), "missing both name and email"),
    ];

    for (invalid_body, cause) in test_cases {
        let status = handle_subscribe(&mut cluster, db_name, &invalid_body);
        assert_eq!(400u16, status, "API didn't fail with {cause}");
    }

    let saved = cluster
        .get_rows(db_name)
        .expect("Failed to fetch saved subscriptions");
    assert_eq!(saved.len(), 0);
    assert!(cluster.deprovision(db_name));
}

#[test]
fn run_reports_one_status_per_submission() {
    let mut cluster = Cluster::new();
    let bodies = vec![
        b"name=a&email=b".to_vec(),
        b"name=only".to_vec(),
        b"name=c&email=d".to_vec(),
    ];
    let statuses = run_scoped_test(&mut cluster, 3, &bodies, None);
    assert_eq!(statuses, vec![200u16, 400u16, 200u16]);
}
