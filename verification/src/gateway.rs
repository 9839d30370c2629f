use vstd::prelude::*;

use crate::subscriptions::{RecordModel, StoreError, SubscriberRecord};

verus! {

/// One database: an isolation boundary named uniquely per test run, holding
/// the rows written through it.
pub struct Database {
    pub name: u128,
    pub rows: Vec<SubscriberRecord>,
}

/// The mathematical value of a database's rows.
pub open spec fn rows_model(rs: Seq<SubscriberRecord>) -> Seq<RecordModel> {
    rs.map_values(|r: SubscriberRecord| r@)
}

/// The rows of the first database of the given name, if any.
pub open spec fn lookup(dbs: Seq<Database>, name: u128) -> Option<Seq<RecordModel>>
    decreases dbs.len(),
{
    if dbs.len() == 0 {
        None
    } else if dbs[0].name == name {
        Some(rows_model(dbs[0].rows@))
    } else {
        lookup(dbs.skip(1), name)
    }
}

/// No two databases share a name.
pub open spec fn distinct_names(dbs: Seq<Database>) -> bool {
    forall|p: int, q: int| 0 <= p < q < dbs.len() ==> dbs[p].name != dbs[q].name
}

/// Lifts pushing one row over an optional rows value.
pub open spec fn opt_push(o: Option<Seq<RecordModel>>, r: RecordModel) -> Option<
    Seq<RecordModel>,
> {
    match o {
        Some(s) => Some(s.push(r)),
        None => None,
    }
}

/// A name is found exactly where some database carries it.
proof fn lemma_lookup_absent_iff(dbs: Seq<Database>, name: u128)
    ensures
        (lookup(dbs, name) is None) <==> (forall|k: int|
            0 <= k < dbs.len() ==> dbs[k].name != name),
    decreases dbs.len(),
{
    if dbs.len() > 0 {
        lemma_lookup_absent_iff(dbs.skip(1), name);
        assert(forall|k: int| 1 <= k < dbs.len() ==> dbs[k] == dbs.skip(1)[k - 1]);
    }
}

/// Looking a name up after a database was appended.
proof fn lemma_lookup_push(dbs: Seq<Database>, d: Database, name: u128)
    ensures
        lookup(dbs.push(d), name) == (if lookup(dbs, name) is Some {
            lookup(dbs, name)
        } else if d.name == name {
            Some(rows_model(d.rows@))
        } else {
            None::<Seq<RecordModel>>
        }),
    decreases dbs.len(),
{
    let pu = dbs.push(d);
    assert(pu.len() == dbs.len() + 1);
    if dbs.len() == 0 {
        assert(pu[0] == d);
        assert(pu.skip(1) =~= Seq::<Database>::empty());
        assert(lookup(pu.skip(1), name) is None);
        assert(lookup(dbs, name) is None);
        if d.name == name {
            assert(lookup(pu, name) == Some(rows_model(d.rows@)));
        } else {
            assert(lookup(pu, name) == lookup(pu.skip(1), name));
        }
    } else {
        assert(pu[0] == dbs[0]);
        assert(pu.skip(1) =~= dbs.skip(1).push(d));
        lemma_lookup_push(dbs.skip(1), d, name);
        if dbs[0].name == name {
            assert(lookup(pu, name) == Some(rows_model(dbs[0].rows@)));
            assert(lookup(dbs, name) == Some(rows_model(dbs[0].rows@)));
        } else {
            assert(lookup(pu, name) == lookup(dbs.skip(1).push(d), name));
            assert(lookup(dbs, name) == lookup(dbs.skip(1), name));
        }
    }
}

/// Looking a name up after one database was replaced by another of the same
/// name: only that name's rows change.
proof fn lemma_lookup_update(dbs: Seq<Database>, i: int, d: Database, name: u128)
    requires
        0 <= i < dbs.len(),
        distinct_names(dbs),
        d.name == dbs[i].name,
    ensures
        lookup(dbs.update(i, d), name) == (if name == d.name {
            Some(rows_model(d.rows@))
        } else {
            lookup(dbs, name)
        }),
    decreases i,
{
    let up = dbs.update(i, d);
    if i == 0 {
        assert(up[0] == d);
        if name != d.name {
            assert(up.skip(1) =~= dbs.skip(1));
        }
    } else {
        assert(up[0] == dbs[0]);
        assert(dbs[0].name != dbs[i].name);
        assert(up.skip(1) =~= dbs.skip(1).update(i - 1, d));
        assert(forall|k: int| 1 <= k < dbs.len() ==> dbs[k] == dbs.skip(1)[k - 1]);
        assert(distinct_names(dbs.skip(1)));
        assert(dbs.skip(1)[i - 1] == dbs[i]);
        lemma_lookup_update(dbs.skip(1), i - 1, d, name);
    }
}

/// Looking a name up after one database was removed: the removed name is
/// gone, every other name keeps its rows.
proof fn lemma_lookup_remove(dbs: Seq<Database>, i: int, name: u128)
    requires
        0 <= i < dbs.len(),
        distinct_names(dbs),
    ensures
        lookup(dbs.remove(i), name) == (if name == dbs[i].name {
            None::<Seq<RecordModel>>
        } else {
            lookup(dbs, name)
        }),
    decreases i,
{
    let rm = dbs.remove(i);
    if i == 0 {
        assert(rm =~= dbs.skip(1));
        if name == dbs[0].name {
            assert(forall|k: int| 1 <= k < dbs.len() ==> dbs[k] == dbs.skip(1)[k - 1]);
            assert(forall|k: int|
                0 <= k < dbs.skip(1).len() ==> dbs.skip(1)[k].name != name);
            lemma_lookup_absent_iff(dbs.skip(1), name);
        }
    } else {
        assert(rm[0] == dbs[0]);
        assert(dbs[0].name != dbs[i].name);
        assert(rm.skip(1) =~= dbs.skip(1).remove(i - 1));
        assert(forall|k: int| 1 <= k < dbs.len() ==> dbs[k] == dbs.skip(1)[k - 1]);
        assert(distinct_names(dbs.skip(1)));
        assert(dbs.skip(1)[i - 1] == dbs[i]);
        lemma_lookup_remove(dbs.skip(1), i - 1, name);
    }
}

/// The store a test process talks to: every database it holds, each reached
/// only through its own name. Mirrors the server behind the maintenance
/// connection; the maintenance connection itself is never dropped, only the
/// named databases are.
pub struct Cluster {
    dbs: Vec<Database>,
}

impl Cluster {
    /// The cluster's names are an isolation boundary: no two databases share
    /// one.
    pub closed spec fn wf(&self) -> bool {
        distinct_names(self.dbs@)
    }

    /// The rows the database of the given name holds, if that database
    /// exists.
    pub closed spec fn db_rows(&self, name: u128) -> Option<Seq<RecordModel>> {
        lookup(self.dbs@, name)
    }

    /// The database of the given name exists.
    pub open spec fn has_db(&self, name: u128) -> bool {
        self.db_rows(name) is Some
    }

    /// A cluster holding no database at all.
    pub fn new() -> (c: Cluster)
        ensures
            c.wf(),
            forall|n: u128| !c.has_db(n),
    {
        let c = Cluster { dbs: Vec::new() };
        proof {
            assert(forall|n: u128| lookup(c.dbs@, n) is None);
        }
        c
    }

    /// Position of the database of the given name.
    fn find_db(&self, name: u128) -> (r: Option<usize>)
        ensures
            match r {
                Some(i) => i < self.dbs@.len() && self.dbs@[i as int].name == name
                    && self.db_rows(name) == Some(rows_model(self.dbs@[i as int].rows@)),
                None => !self.has_db(name),
            },
    {
        let ghost dbs = self.dbs@;
        let mut i: usize = 0;
        proof {
            assert(dbs.skip(0) =~= dbs);
        }
        while i < self.dbs.len()
            invariant
                i <= dbs.len(),
                dbs == self.dbs@,
                lookup(dbs, name) == lookup(dbs.skip(i as int), name),
            decreases dbs.len() - i,
        {
            let ghost sv = dbs.skip(i as int);
            proof {
                assert(sv[0] == dbs[i as int]);
                assert(sv.skip(1) =~= dbs.skip(i + 1));
            }
            if self.dbs[i].name == name {
                return Some(i);
            }
            i = i + 1;
        }
        proof {
            assert(dbs.skip(i as int) =~= Seq::<Database>::empty());
        }
        None
    }

    /// Creates the database of the given name, empty. Refuses a name already
    /// in use (so a reused random name never clobbers another test's
    /// database) and then changes nothing.
    pub fn provision(&mut self, name: u128) -> (r: bool)
        requires
            old(self).wf(),
        ensures
            final(self).wf(),
            r == !old(self).has_db(name),
            !r ==> *final(self) == *old(self),
            r ==> final(self).db_rows(name) == Some(Seq::<RecordModel>::empty()),
            forall|n: u128| n != name ==> final(self).db_rows(n) == old(self).db_rows(n),
    {
        match self.find_db(name) {
            Some(_) => false,
            None => {
                let ghost dbs0 = self.dbs@;
                let d = Database { name, rows: Vec::new() };
                proof {
                    lemma_lookup_absent_iff(dbs0, name);
                }
                self.dbs.push(d);
                proof {
                    assert forall|n: u128| true implies lookup(self.dbs@, n) == (if n == name {
                        Some(rows_model(d.rows@))
                    } else {
                        lookup(dbs0, n)
                    }) by {
                        lemma_lookup_push(dbs0, d, n);
                        if n == name {
                        } else {
                            if lookup(dbs0, n) is None {
                            }
                        }
                    }
                    assert(rows_model(d.rows@) =~= Seq::<RecordModel>::empty());
                    assert forall|p: int, q: int|
                        0 <= p < q < self.dbs@.len() implies self.dbs@[p].name
                        != self.dbs@[q].name by {
                        if q == self.dbs@.len() - 1 {
                            assert(dbs0[p].name != name);
                        }
                    }
                }
                true
            },
        }
    }

    /// Appends one row to the database of the given name. Returns whether the
    /// database exists; where it does not, nothing changes. No other
    /// database's rows are touched, whatever the outcome.
    pub fn insert_row(&mut self, name: u128, rec: SubscriberRecord) -> (r: bool)
        requires
            old(self).wf(),
        ensures
            final(self).wf(),
            r == old(self).has_db(name),
            final(self).db_rows(name) == opt_push(old(self).db_rows(name), rec@),
            !r ==> *final(self) == *old(self),
            forall|n: u128| n != name ==> final(self).db_rows(n) == old(self).db_rows(n),
    {
        let ghost recm = rec@;
        match self.find_db(name) {
            None => false,
            Some(i) => {
                let ghost dbs0 = self.dbs@;
                let mut db = self.dbs.remove(i);
                let ghost rows0 = db.rows@;
                db.rows.push(rec);
                let ghost d = db;
                self.dbs.insert(i, db);
                proof {
                    assert(self.dbs@ =~= dbs0.update(i as int, d));
                    assert(rows_model(rows0.push(rec)) =~= rows_model(rows0).push(recm));
                    assert forall|n: u128| true implies lookup(self.dbs@, n) == (if n == name {
                        Some(rows_model(rows0).push(recm))
                    } else {
                        lookup(dbs0, n)
                    }) by {
                        lemma_lookup_update(dbs0, i as int, d, n);
                    }
                    assert forall|p: int, q: int|
                        0 <= p < q < self.dbs@.len() implies self.dbs@[p].name
                        != self.dbs@[q].name by {
                        assert(dbs0[p].name != dbs0[q].name);
                    }
                }
                true
            },
        }
    }

    /// The gateway's insert operation: writes the one row of one submission,
    /// or says that the store (here: the named database) is unreachable, and
    /// then nothing was written. Exactly one row goes in per successful call.
    pub fn insert_subscriber(&mut self, name: u128, rec: SubscriberRecord) -> (r: Result<
        (),
        StoreError,
    >)
        requires
            old(self).wf(),
        ensures
            final(self).wf(),
            r is Ok <==> old(self).has_db(name),
            final(self).db_rows(name) == opt_push(old(self).db_rows(name), rec@),
            r is Err ==> *final(self) == *old(self),
            forall|n: u128| n != name ==> final(self).db_rows(n) == old(self).db_rows(n),
    {
        if self.insert_row(name, rec) {
            Ok(())
        } else {
            Err(StoreError::Connectivity)
        }
    }

    /// Drops the database of the given name, keeping every other database and
    /// its rows. Afterwards the name is absent, whether or not it existed;
    /// a name that did not exist changes nothing.
    pub fn deprovision(&mut self, name: u128) -> (r: bool)
        requires
            old(self).wf(),
        ensures
            final(self).wf(),
            r == old(self).has_db(name),
            !final(self).has_db(name),
            !r ==> *final(self) == *old(self),
            forall|n: u128| n != name ==> final(self).db_rows(n) == old(self).db_rows(n),
    {
        match self.find_db(name) {
            None => false,
            Some(i) => {
                let ghost dbs0 = self.dbs@;
                self.dbs.remove(i);
                proof {
                    assert forall|n: u128| true implies lookup(self.dbs@, n) == (if n == name {
                        None::<Seq<RecordModel>>
                    } else {
                        lookup(dbs0, n)
                    }) by {
                        lemma_lookup_remove(dbs0, i as int, n);
                    }
                    assert forall|p: int, q: int|
                        0 <= p < q < self.dbs@.len() implies self.dbs@[p].name
                        != self.dbs@[q].name by {
                        let pp = if p < i {
                            p
                        } else {
                            p + 1
                        };
                        let qq = if q < i {
                            q
                        } else {
                            q + 1
                        };
                        assert(self.dbs@[p] == dbs0[pp]);
                        assert(self.dbs@[q] == dbs0[qq]);
                        assert(dbs0[pp].name != dbs0[qq].name);
                    }
                }
                true
            },
        }
    }

    /// The rows the database of the given name holds, read back directly.
    pub fn get_rows(&self, name: u128) -> (r: Option<&Vec<SubscriberRecord>>)
        ensures
            match r {
                Some(v) => self.db_rows(name) == Some(rows_model(v@)),
                None => !self.has_db(name),
            },
    {
        match self.find_db(name) {
            Some(i) => Some(&self.dbs[i].rows),
            None => None,
        }
    }
}

/// Isolation of test runs: a step that touches only the database named `a`
/// (as every operation above promises of the name it is given) leaves the
/// rows of any differently named database `b` exactly as they were, so two
/// runs with distinct names never observe each other's rows.
pub proof fn lemma_test_isolation(pre: Cluster, post: Cluster, a: u128, b: u128)
    requires
        a != b,
        forall|n: u128| n != a ==> post.db_rows(n) == pre.db_rows(n),
    ensures
        post.db_rows(b) == pre.db_rows(b),
{
}

} // verus!
