use vstd::prelude::*;

use crate::form::{parse_form_fields, parsed_register, FormError};

verus! {

/// A decoded submission: the two required fields of the form, as the raw
/// byte strings the wire carried (percent-decoding already undone).
pub struct RegisterData {
    pub email: Vec<u8>,
    pub name: Vec<u8>,
}

/// One subscriber row as the store keeps it: a write-time identifier, the two
/// submitted fields, and the insert-time timestamp in milliseconds since the
/// Unix epoch.
pub struct SubscriberRecord {
    pub id: u128,
    pub email: Vec<u8>,
    pub name: Vec<u8>,
    pub subscribed_at: i64,
}

/// The mathematical value of a subscriber row.
pub ghost struct RecordModel {
    pub id: u128,
    pub email: Seq<u8>,
    pub name: Seq<u8>,
    pub subscribed_at: i64,
}

impl View for SubscriberRecord {
    type V = RecordModel;

    open spec fn view(&self) -> RecordModel {
        RecordModel {
            id: self.id,
            email: self.email@,
            name: self.name@,
            subscribed_at: self.subscribed_at,
        }
    }
}

/// Why the store turned an insert down. The handler does not recover from any
/// of these; they all surface as one failure signal.
#[derive(Clone, Copy, Debug, PartialEq, Eq, Structural)]
pub enum StoreError {
    /// The store could not be reached.
    Connectivity,
    /// The row broke a constraint of the schema.
    Constraint,
    /// A value could not be encoded for the store.
    Encoding,
}

/// Relies on uuid::Uuid::new_v4: a freshly generated random identifier,
/// returned as its 128-bit value. Nothing is assumed of the value; every
/// caller must hold whatever it states for any identifier that comes back.
#[verifier::external_body]
fn fresh_id() -> u128 {
    uuid::Uuid::new_v4().as_u128()
}

/// Relies on chrono::Utc::now: the clock's current time, returned as
/// milliseconds since the Unix epoch. Nothing is assumed of the value (the
/// process clock may move freely); the call expects the system clock not to
/// stand before the Unix epoch.
#[verifier::external_body]
fn now_timestamp_millis() -> i64 {
    chrono::Utc::now().timestamp_millis()
}

/// Decodes a submission body into its two fields, or says exactly why the
/// body is rejected. Rejection consumes no fresh identifier and touches no
/// store.
pub fn parse_register_data(body: &[u8]) -> (r: Result<RegisterData, FormError>)
    ensures
        match r {
            Ok(d) => parsed_register(body@) == Ok::<(Seq<u8>, Seq<u8>), FormError>(
                (d.name@, d.email@),
            ),
            Err(e) => parsed_register(body@) == Err::<(Seq<u8>, Seq<u8>), FormError>(e),
        },
{
    match parse_form_fields(body) {
        Ok((name, email)) => Ok(RegisterData { email, name }),
        Err(e) => Err(e),
    }
}

/// The decode half of the subscribe handler: on a well-formed body it builds
/// the row to write, stamped with a fresh identifier and the clock's time; on
/// any other body it returns the exact rejection and builds nothing.
pub fn subscribe_decision(body: &[u8]) -> (r: Result<SubscriberRecord, FormError>)
    ensures
        match r {
            Ok(rec) => parsed_register(body@) == Ok::<(Seq<u8>, Seq<u8>), FormError>(
                (rec.name@, rec.email@),
            ),
            Err(e) => parsed_register(body@) == Err::<(Seq<u8>, Seq<u8>), FormError>(e),
        },
{
    match parse_register_data(body) {
        Ok(d) => Ok(
            SubscriberRecord {
                id: fresh_id(),
                email: d.email,
                name: d.name,
                subscribed_at: now_timestamp_millis(),
            },
        ),
        Err(e) => Err(e),
    }
}

/// The respond half of the subscribe handler, after an insert was attempted:
/// success answers 200, any store failure answers 500.
pub fn subscribe_status(outcome: &Result<(), StoreError>) -> (s: u16)
    ensures
        s == (if outcome is Ok {
            200u16
        } else {
            500u16
        }),
{
    match outcome {
        Ok(_) => 200,
        Err(_) => 500,
    }
}

/// The status a rejected body answers: always 400, whatever the reason.
pub fn rejection_status(e: &FormError) -> (s: u16)
    ensures
        s == 400u16,
{
    400
}

} // verus!
