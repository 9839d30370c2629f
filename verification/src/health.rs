use vstd::prelude::*;

verus! {

/// An HTTP reply as the service's handlers produce it: a status code and a
/// response body.
pub struct HttpReply {
    pub status: u16,
    pub body: Vec<u8>,
}

/// What the liveness probe promises of every reply it produces: status 200 and
/// an empty body, so the advertised content length is zero.
pub open spec fn is_health_reply(r: HttpReply) -> bool {
    r.status == 200 && r.body@ == Seq::<u8>::empty()
}

/// Liveness probe. It reads no state at all (in particular, nothing of any
/// database), so its reply is the same whatever the rest of the system does.
pub fn health_check() -> (r: HttpReply)
    ensures
        is_health_reply(r),
        r.status == 200,
        r.body@.len() == 0,
{
    HttpReply { status: 200, body: Vec::new() }
}

/// Idempotence of the health probe: any two replies that meet the probe's
/// contract carry exactly the same status and the same (empty) body, so
/// repeated probes are indistinguishable; the probe takes nothing mutable,
/// so it has no side effects.
pub proof fn lemma_health_check_identical(a: HttpReply, b: HttpReply)
    requires
        is_health_reply(a),
        is_health_reply(b),
    ensures
        a.status == b.status,
        a.body@ == b.body@,
{
}

} // verus!
