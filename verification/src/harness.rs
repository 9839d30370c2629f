use vstd::prelude::*;

use crate::form::parsed_register;
use crate::gateway::{opt_push, Cluster};
use crate::subscriptions::{rejection_status, subscribe_decision, subscribe_status, RecordModel,
    StoreError};

verus! {

/// The subscribe handler, wired to the store: decode the body, and on a
/// well-formed submission write exactly one row to the named database.
/// A rejected body answers 400 and attempts no write; a well-formed one
/// answers 200 after the one row went in, or 500 where the store (here: the
/// named database) is unreachable, and then nothing was written. No other
/// database is ever touched.
pub fn handle_subscribe(c: &mut Cluster, name: u128, body: &[u8]) -> (status: u16)
    requires
        old(c).wf(),
    ensures
        final(c).wf(),
        forall|n: u128| n != name ==> final(c).db_rows(n) == old(c).db_rows(n),
        final(c).has_db(name) == old(c).has_db(name),
        match parsed_register(body@) {
            Err(_) => status == 400 && *final(c) == *old(c),
            Ok(p) => (if old(c).has_db(name) {
                status == 200 && (exists|r: RecordModel|
                    #![auto]
                    r.name == p.0 && r.email == p.1 && final(c).db_rows(name) == opt_push(
                        old(c).db_rows(name),
                        r,
                    ))
            } else {
                status == 500 && *final(c) == *old(c)
            }),
        },
{
    match subscribe_decision(body) {
        Err(e) => rejection_status(&e),
        Ok(rec) => {
            let ghost recm = rec@;
            let outcome: Result<(), StoreError> = c.insert_subscriber(name, rec);
            proof {
                if outcome is Ok {
                    let p = parsed_register(body@)->Ok_0;
                    assert(recm.name == p.0 && recm.email == p.1 && c.db_rows(name) == opt_push(
                        old(c).db_rows(name),
                        recm,
                    ));
                }
            }
            subscribe_status(&outcome)
        },
    }
}

/// How many submissions a run gets through: all of them, unless the test body
/// gives up after some count (a failing test stops early).
pub open spec fn run_limit(len: int, abort_after: Option<usize>) -> int {
    match abort_after {
        Some(k) => if k < len {
            k as int
        } else {
            len
        },
        None => len,
    }
}

/// One whole test run against the store, as the harness drives it: provision
/// a freshly named database, send each submission to the handler, and always
/// drop the database again — also when the test body gave up early
/// (`abort_after`), so no database ever leaks out of a run. A name already in
/// use is refused outright (the run is fatal before it starts) and the store
/// is left exactly as it was: what another run provisioned is never dropped.
/// Databases of other names keep their rows untouched throughout.
pub fn run_scoped_test(
    c: &mut Cluster,
    name: u128,
    bodies: &Vec<Vec<u8>>,
    abort_after: Option<usize>,
) -> (statuses: Vec<u16>)
    requires
        old(c).wf(),
    ensures
        final(c).wf(),
        old(c).has_db(name) ==> *final(c) == *old(c) && statuses@.len() == 0,
        !old(c).has_db(name) ==> !final(c).has_db(name),
        forall|n: u128| n != name ==> final(c).db_rows(n) == old(c).db_rows(n),
        !old(c).has_db(name) ==> statuses@.len() == run_limit(
            bodies@.len() as int,
            abort_after,
        ) && (forall|k: int|
            0 <= k < statuses@.len() ==> statuses@[k] == (if parsed_register(
                bodies@[k]@,
            ) is Ok {
                200u16
            } else {
                400u16
            })),
{
    if !c.provision(name) {
        return Vec::new();
    }
    let limit: usize = match abort_after {
        Some(k) => if k < bodies.len() {
            k
        } else {
            bodies.len()
        },
        None => bodies.len(),
    };
    let mut statuses: Vec<u16> = Vec::new();
    let mut i: usize = 0;
    while i < limit
        invariant
            i <= limit <= bodies@.len(),
            limit == run_limit(bodies@.len() as int, abort_after),
            c.wf(),
            c.has_db(name),
            forall|n: u128| n != name ==> c.db_rows(n) == old(c).db_rows(n),
            statuses@.len() == i,
            forall|k: int|
                0 <= k < i ==> statuses@[k] == (if parsed_register(bodies@[k]@) is Ok {
                    200u16
                } else {
                    400u16
                }),
        decreases limit - i,
    {
        let body = &bodies[i];
        let st = handle_subscribe(c, name, body.as_slice());
        statuses.push(st);
        i = i + 1;
    }
    c.deprovision(name);
    statuses
}

} // verus!
