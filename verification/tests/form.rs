use zero2prod::form::{encode_form_body, parse_form_fields, percent_decode, percent_encode,
    FormError};
use zero2prod::subscriptions::{
    parse_register_data, rejection_status, subscribe_decision, subscribe_status, StoreError,
};

#[test]
fn decode_space_and_at_sign() {
    assert_eq!(percent_decode(b"le%20guin"), Some(b"le guin".to_vec()));
    assert_eq!(
        percent_decode(b"ursula_le_guin%40gmail.com"),
        Some(b"ursula_le_guin@gmail.com".to_vec())
    );
}

#[test]
fn decode_plus_is_space() {
    assert_eq!(percent_decode(b"le+guin"), Some(b"le guin".to_vec()));
    assert_eq!(percent_decode(b"%2B"), Some(b"+".to_vec()));
}

#[test]
fn decode_rejects_bad_escapes() {
    assert_eq!(percent_decode(b"%zz"), None);
    assert_eq!(percent_decode(b"abc%2"), None);
    assert_eq!(percent_decode(b"%"), None);
}

#[test]
fn encode_known_values() {
    assert_eq!(percent_encode(b"le guin"), b"le%20guin".to_vec());
    assert_eq!(
        percent_encode(b"ursula_le_guin@gmail.com"),
        b"ursula_le_guin%40gmail.com".to_vec()
    );
}

#[test]
fn encode_then_decode_round_trips() {
    let mut all: Vec<u8> = Vec::new();
    let mut b: u8 = 0;
    loop {
        all.push(b);
        if b == 255 {
            break;
        }
        b += 1;
    }
    let samples: Vec<Vec<u8>> = vec![
        b"".to_vec(),
        b"le guin".to_vec(),
        b"ursula_le_guin@gmail.com".to_vec(),
        b"a&b=c%d+e".to_vec(),
        all,
    ];
    for s in samples {
        assert_eq!(percent_decode(&percent_encode(&s)), Some(s));
    }
}

#[test]
fn encoded_body_matches_the_wire_format() {
    let body = encode_form_body(b"le guin", b"ursula_le_guin@gmail.com");
    assert_eq!(
        body,
        b"name=le%20guin&email=ursula_le_guin%40gmail.com".to_vec()
    );
}

#[test]
fn encoded_body_parses_back_to_the_fields() {
    let samples: Vec<(Vec<u8>, Vec<u8>)> = vec![
        (b"le guin".to_vec(), b"ursula_le_guin@gmail.com".to_vec()),
        (b"".to_vec(), b"".to_vec()),
        (b"a&b=c%d+e".to_vec(), b"x=&=y".to_vec()),
    ];
    for (name, email) in samples {
        let body = encode_form_body(&name, &email);
        assert_eq!(parse_form_fields(&body), Ok((name, email)));
    }
}

#[test]
fn parse_well_formed_body() {
    let r = parse_form_fields(b"name=le%20guin&email=ursula_le_guin%40gmail.com");
    let (name, email) = r.expect("well-formed body was rejected");
    assert_eq!(name, b"le guin".to_vec());
    assert_eq!(email, b"ursula_le_guin@gmail.com".to_vec());
}

#[test]
fn parse_reports_each_missing_field() {
    assert_eq!(
        parse_form_fields(b"name=le%20guin"),
        Err(FormError::MissingEmail)
    );
    assert_eq!(
        parse_form_fields(b"email=ursula_le_guin%40gmail.com"),
        Err(FormError::MissingName)
    );
    assert_eq!(parse_form_fields(b""), Err(FormError::MissingBoth));
}

#[test]
fn parse_rejects_repeated_fields() {
    assert_eq!(
        parse_form_fields(b"name=a&name=b&email=c"),
        Err(FormError::Malformed)
    );
    assert_eq!(
        parse_form_fields(b"email=a&email=b&name=c"),
        Err(FormError::Malformed)
    );
}

#[test]
fn parse_rejects_malformed_escapes() {
    assert_eq!(
        parse_form_fields(b"name=%zz&email=a"),
        Err(FormError::Malformed)
    );
    assert_eq!(
        parse_form_fields(b"name=a&email=%4"),
        Err(FormError::Malformed)
    );
}

#[test]
fn parse_ignores_unknown_fields_and_empty_segments() {
    let r = parse_form_fields(b"extra=1&&name=a&email=b&");
    assert_eq!(r, Ok((b"a".to_vec(), b"b".to_vec())));
}

#[test]
fn parse_takes_a_bare_key_as_empty_value() {
    let r = parse_form_fields(b"name&email=x");
    assert_eq!(r, Ok((b"".to_vec(), b"x".to_vec())));
}

#[test]
fn register_data_keeps_the_decoded_fields() {
    let d = parse_register_data(b"name=le+guin&email=u%40g.com").expect("rejected");
    assert_eq!(d.name, b"le guin".to_vec());
    assert_eq!(d.email, b"u@g.com".to_vec());
}

#[test]
fn decision_builds_a_record_from_the_fields() {
    let rec = subscribe_decision(b"name=le%20guin&email=ursula_le_guin%40gmail.com")
        .expect("rejected");
    assert_eq!(rec.name, b"le guin".to_vec());
    assert_eq!(rec.email, b"ursula_le_guin@gmail.com".to_vec());
}

#[test]
fn decision_generates_distinct_identifiers() {
    let a = subscribe_decision(b"name=a&email=b").expect("rejected");
    let b = subscribe_decision(b"name=a&email=b").expect("rejected");
    assert_ne!(a.id, b.id);
}

#[test]
fn store_outcome_maps_to_status() {
    assert_eq!(subscribe_status(&Ok(())), 200u16);
    assert_eq!(subscribe_status(&Err(StoreError::Connectivity)), 500u16);
    assert_eq!(subscribe_status(&Err(StoreError::Constraint)), 500u16);
    assert_eq!(subscribe_status(&Err(StoreError::Encoding)), 500u16);
}

#[test]
fn every_rejection_is_bad_request() {
    assert_eq!(rejection_status(&FormError::Malformed), 400u16);
    assert_eq!(rejection_status(&FormError::MissingName), 400u16);
    assert_eq!(rejection_status(&FormError::MissingEmail), 400u16);
    assert_eq!(rejection_status(&FormError::MissingBoth), 400u16);
}
