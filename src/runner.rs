use vstd::prelude::*;
use crate::error::{Error, OperationFailure};
use crate::migration::Migration;
use crate::model::ModelDescriptor;
use crate::model::ModelView;
use crate::plan::{build_plan, has_cycle, least_first, valid_order};
use crate::schema::{apply_operation, apply_ops, copy_schema, schema_view, schema_wf};

verus! {

/// The durable note that a migration has run.
#[derive(Debug)]
pub struct AppliedMigrationRecord {
    pub app_name: String,
    pub sequence_number: u64,
    pub applied_at: u64,
}

/// A schema together with the record of applied migrations.
#[derive(Debug)]
pub struct Store {
    pub schema: Vec<ModelDescriptor>,
    /// Whether the table of applied migrations exists yet.
    pub records_ready: bool,
    pub applied: Vec<AppliedMigrationRecord>,
}

/// Whether the records hold one for migration `(app, seq)`.
pub open spec fn is_recorded(records: Seq<AppliedMigrationRecord>, app: Seq<char>, seq: u64) -> bool {
    exists|i: int|
        0 <= i < records.len() && (#[trigger] records[i]).app_name@ == app && records[i].sequence_number
            == seq
}

pub open spec fn migration_recorded(records: Seq<AppliedMigrationRecord>, m: Migration) -> bool {
    is_recorded(records, m.app_name@, m.sequence_number)
}

/// Every migration of `ms` has a record.
pub open spec fn all_recorded(records: Seq<AppliedMigrationRecord>, ms: Seq<Migration>) -> bool {
    forall|i: int| 0 <= i < ms.len() ==> migration_recorded(records, #[trigger] ms[i])
}

impl Store {
    pub open spec fn wf(&self) -> bool {
        schema_wf(schema_view(self.schema@))
    }

    /// An empty store: no tables, and no table of applied migrations yet.
    pub fn new() -> (r: Store)
        ensures
            r.wf(),
            r.schema@.len() == 0,
            !r.records_ready,
            r.applied@.len() == 0,
    {
        let r = Store { schema: Vec::new(), records_ready: false, applied: Vec::new() };
        assert(schema_view(r.schema@) =~= Seq::<crate::model::ModelView>::empty());
        r
    }
}

/// Applies the operations of `m` and records it, as one unit: on failure
/// the store is left exactly as it was.
pub fn apply_migration(store: &mut Store, m: &Migration, now: u64) -> (r: Result<(), Error>)
    requires
        old(store).wf(),
    ensures
        final(store).wf(),
        match apply_ops(schema_view(old(store).schema@), m.operations@) {
            Ok(t) => {
                &&& r is Ok
                &&& schema_view(final(store).schema@) == t
                &&& final(store).records_ready == old(store).records_ready
                &&& final(store).applied@.len() == old(store).applied@.len() + 1
                &&& final(store).applied@.drop_last() == old(store).applied@
                &&& final(store).applied@.last().app_name@ == m.app_name@
                &&& final(store).applied@.last().sequence_number == m.sequence_number
                &&& final(store).applied@.last().applied_at == now
            },
            Err(cause) => {
                &&& r matches Err(Error::Migration { app_name, sequence_number, cause: c }) && app_name@
                    == m.app_name@ && sequence_number == m.sequence_number && c == cause
                &&& *final(store) == *old(store)
            },
        },
{
    let mut work = copy_schema(&store.schema);
    let mut i: usize = 0;
    while i < m.operations.len()
        invariant
            i <= m.operations@.len(),
            schema_wf(schema_view(store.schema@)),
            apply_ops(schema_view(store.schema@), m.operations@.take(i as int)) == Ok::<
                Seq<crate::model::ModelView>,
                OperationFailure,
            >(schema_view(work@)),
            schema_wf(schema_view(work@)),
        decreases m.operations@.len() - i,
    {
        proof {
            assert(m.operations@.take(i + 1).drop_last() =~= m.operations@.take(i as int));
        }
        match apply_operation(&mut work, &m.operations[i]) {
            Ok(()) => {},
            Err(cause) => {
                proof {
                    lemma_first_failure_stays(schema_view(store.schema@), m.operations@, i as int);
                }
                return Err(Error::Migration {
                    app_name: m.app_name.clone(),
                    sequence_number: m.sequence_number,
                    cause,
                });
            },
        }
        i = i + 1;
    }
    assert(m.operations@.take(i as int) =~= m.operations@);
    store.schema = work;
    store.applied.push(
        AppliedMigrationRecord {
            app_name: m.app_name.clone(),
            sequence_number: m.sequence_number,
            applied_at: now,
        },
    );
    Ok(())
}

/// Once a prefix of the operations fails, the whole list fails the same way.
proof fn lemma_first_failure_stays(s: Seq<crate::model::ModelView>, ops: Seq<crate::migration::MigrationOperation>, i: int)
    requires
        0 <= i < ops.len(),
        apply_ops(s, ops.take(i + 1)) is Err,
    ensures
        apply_ops(s, ops) == apply_ops(s, ops.take(i + 1)),
    decreases ops.len() - i,
{
    if i + 1 < ops.len() {
        assert(ops.drop_last().take(i + 1) =~= ops.take(i + 1));
        lemma_first_failure_stays(s, ops.drop_last(), i);
    } else {
        assert(ops.take(i + 1) =~= ops);
    }
}

fn recorded(records: &Vec<AppliedMigrationRecord>, app: &String, seq: u64) -> (r: bool)
    ensures
        r == is_recorded(records@, app@, seq),
{
    let mut i: usize = 0;
    while i < records.len()
        invariant
            i <= records@.len(),
            forall|k: int|
                0 <= k < i ==> !((#[trigger] records@[k]).app_name@ == app@ && records@[k].sequence_number
                    == seq),
        decreases records@.len() - i,
    {
        if records[i].app_name == *app && records[i].sequence_number == seq {
            assert(records@[i as int].app_name@ == app@);
            return true;
        }
        i = i + 1;
    }
    false
}

/// `b` is `a` with records appended.
pub open spec fn extends(a: Seq<AppliedMigrationRecord>, b: Seq<AppliedMigrationRecord>) -> bool {
    a.len() <= b.len() && b.take(a.len() as int) == a
}

proof fn lemma_recorded_grows(a: Seq<AppliedMigrationRecord>, b: Seq<AppliedMigrationRecord>, m: Migration)
    requires
        extends(a, b),
        migration_recorded(a, m),
    ensures
        migration_recorded(b, m),
{
    let i = choose|i: int|
        0 <= i < a.len() && (#[trigger] a[i]).app_name@ == m.app_name@ && a[i].sequence_number
            == m.sequence_number;
    assert(b[i] == b.take(a.len() as int)[i]);
}

/// Where a run stands after some steps of the plan: the schema, the
/// migrations applied so far (indices into the list), and the one that
/// failed, if any.
pub struct Replay {
    pub schema: Seq<ModelView>,
    pub done: Seq<int>,
    pub failed: Option<int>,
}

/// Some migration in `done` has the identity of `m`.
pub open spec fn id_listed(ms: Seq<Migration>, done: Seq<int>, m: Migration) -> bool {
    exists|d: int|
        0 <= d < done.len() && (#[trigger] ms[done[d]]).app_name@ == m.app_name@ && ms[done[d]].sequence_number
            == m.sequence_number
}

/// The first `k` steps of a run along `order`, from schema `schema0` and
/// records `recs0`: a migration already recorded, or applied earlier in the
/// run, is skipped; the others are applied until one fails.
pub open spec fn replay(
    ms: Seq<Migration>,
    order: Seq<usize>,
    k: nat,
    schema0: Seq<ModelView>,
    recs0: Seq<AppliedMigrationRecord>,
) -> Replay
    decreases k,
{
    if k == 0 {
        Replay { schema: schema0, done: Seq::empty(), failed: None }
    } else {
        let st = replay(ms, order, (k - 1) as nat, schema0, recs0);
        let i = order[k - 1] as int;
        if st.failed is Some || migration_recorded(recs0, ms[i]) || id_listed(ms, st.done, ms[i]) {
            st
        } else {
            match apply_ops(st.schema, ms[i].operations@) {
                Ok(t) => Replay { schema: t, done: st.done.push(i), failed: None },
                Err(_) => Replay { schema: st.schema, done: st.done, failed: Some(i) },
            }
        }
    }
}

/// Record `r` notes migration `m`, applied at `now`.
pub open spec fn records(r: AppliedMigrationRecord, m: Migration, now: u64) -> bool {
    r.app_name@ == m.app_name@ && r.sequence_number == m.sequence_number && r.applied_at == now
}

/// The run from `s0` to `s1` that returned `r` did what replaying `order`
/// does.
pub open spec fn follows_replay(
    ms: Seq<Migration>,
    order: Seq<usize>,
    s0: Store,
    s1: Store,
    r: Result<usize, Error>,
    now: u64,
) -> bool {
    let st = replay(ms, order, ms.len(), schema_view(s0.schema@), s0.applied@);
    &&& schema_view(s1.schema@) == st.schema
    &&& s1.applied@.len() == s0.applied@.len() + st.done.len()
    &&& forall|t: int|
        0 <= t < st.done.len() ==> records(
            #[trigger] s1.applied@[s0.applied@.len() + t],
            ms[st.done[t]],
            now,
        )
    &&& r is Ok <==> st.failed is None
    &&& r matches Err(Error::Migration { app_name, sequence_number, cause }) ==> {
        &&& st.failed matches Some(i)
        &&& ms[i].app_name@ == app_name@
        &&& ms[i].sequence_number == sequence_number
        &&& apply_ops(st.schema, ms[i].operations@) == Err::<Seq<ModelView>, OperationFailure>(cause)
    }
}

proof fn lemma_replay_failed_stays(
    ms: Seq<Migration>,
    order: Seq<usize>,
    j: nat,
    k: nat,
    schema0: Seq<ModelView>,
    recs0: Seq<AppliedMigrationRecord>,
)
    requires
        j <= k,
        replay(ms, order, j, schema0, recs0).failed is Some,
    ensures
        replay(ms, order, k, schema0, recs0) == replay(ms, order, j, schema0, recs0),
    decreases k,
{
    if j < k {
        lemma_replay_failed_stays(ms, order, j, (k - 1) as nat, schema0, recs0);
    }
}

proof fn lemma_recorded_split(
    s0a: Seq<AppliedMigrationRecord>,
    cur: Seq<AppliedMigrationRecord>,
    ms: Seq<Migration>,
    done: Seq<int>,
    m: Migration,
    now: u64,
)
    requires
        extends(s0a, cur),
        cur.len() == s0a.len() + done.len(),
        forall|t: int| 0 <= t < done.len() ==> records(#[trigger] cur[s0a.len() + t], ms[done[t]], now),
    ensures
        migration_recorded(cur, m) <==> (migration_recorded(s0a, m) || id_listed(ms, done, m)),
{
    if migration_recorded(cur, m) {
        let i = choose|i: int|
            0 <= i < cur.len() && (#[trigger] cur[i]).app_name@ == m.app_name@ && cur[i].sequence_number
                == m.sequence_number;
        if i < s0a.len() {
            assert(cur.take(s0a.len() as int)[i] == cur[i]);
            assert(s0a[i] == cur[i]);
        } else {
            let t = i - s0a.len();
            assert(records(cur[s0a.len() + t], ms[done[t]], now));
            assert(ms[done[t]].app_name@ == m.app_name@);
        }
    }
    if migration_recorded(s0a, m) {
        lemma_recorded_grows(s0a, cur, m);
    }
    if id_listed(ms, done, m) {
        let d = choose|d: int|
            0 <= d < done.len() && (#[trigger] ms[done[d]]).app_name@ == m.app_name@
                && ms[done[d]].sequence_number == m.sequence_number;
        assert(records(cur[s0a.len() + d], ms[done[d]], now));
        assert(cur[s0a.len() + d].app_name@ == m.app_name@);
    }
}

/// What a run of the migrations `ms` from store `s0` to store `s1` that
/// returned `r` guarantees.
pub open spec fn run_outcome(ms: Seq<Migration>, s0: Store, s1: Store, r: Result<usize, Error>) -> bool {
    &&& (r matches Err(Error::CyclicDependency)) <==> has_cycle(ms)
    &&& r matches Err(Error::CyclicDependency) ==> s1 == s0
    &&& r is Err ==> (r matches Err(Error::CyclicDependency)) || (r matches Err(Error::Migration { .. }))
    &&& r is Ok ==> s1.records_ready
    &&& r matches Ok(c) ==> {
        &&& extends(s0.applied@, s1.applied@)
        &&& s1.applied@.len() == s0.applied@.len() + c
        &&& all_recorded(s1.applied@, ms)
        &&& all_recorded(s0.applied@, ms) ==> c == 0 && s1.applied@ == s0.applied@ && schema_view(
            s1.schema@,
        ) == schema_view(s0.schema@)
    }
    &&& r matches Err(Error::Migration { app_name, sequence_number, .. }) ==> {
        &&& extends(s0.applied@, s1.applied@)
        &&& exists|i: int|
            0 <= i < ms.len() && (#[trigger] ms[i]).app_name@ == app_name@ && ms[i].sequence_number
                == sequence_number && !migration_recorded(s1.applied@, ms[i])
    }
    &&& forall|t: int|
        s0.applied@.len() <= t < s1.applied@.len() ==> exists|i: int|
            0 <= i < ms.len() && (#[trigger] s1.applied@[t]).app_name@ == (#[trigger] ms[i]).app_name@
                && s1.applied@[t].sequence_number == ms[i].sequence_number && !migration_recorded(
                s0.applied@,
                ms[i],
            )
}

/// Brings the store up to date with `ms`: plans the order, creates the
/// table of applied migrations if missing, and applies, one unit at a time
/// and in plan order, each migration that has no record yet. Stops at the
/// first failure; units applied before it stay. Returns how many were
/// applied.
pub fn run(ms: &Vec<Migration>, store: &mut Store, now: u64) -> (r: Result<usize, Error>)
    requires
        old(store).wf(),
    ensures
        final(store).wf(),
        run_outcome(ms@, *old(store), *final(store), r),
        !has_cycle(ms@) ==> exists|o: Seq<usize>|
            valid_order(ms@, o) && least_first(ms@, o) && follows_replay(
                ms@,
                o,
                *old(store),
                *final(store),
                r,
                now,
            ),
{
    let order = match build_plan(ms) {
        Ok(o) => o,
        Err(e) => {
            return Err(e);
        },
    };
    let ghost s0 = *store;
    if !store.records_ready {
        store.records_ready = true;
    }
    let n = ms.len();
    assert(s0.applied@.take(s0.applied@.len() as int) =~= s0.applied@);
    let mut count: usize = 0;
    let mut p: usize = 0;
    while p < order.len()
        invariant
            n == ms@.len(),
            !has_cycle(ms@),
            valid_order(ms@, order@),
            least_first(ms@, order@),
            s0 == *old(store),
            order@.len() == n,
            replay(ms@, order@, p as nat, schema_view(s0.schema@), s0.applied@).failed is None,
            schema_view(store.schema@) == replay(ms@, order@, p as nat, schema_view(s0.schema@), s0.applied@).schema,
            count == replay(ms@, order@, p as nat, schema_view(s0.schema@), s0.applied@).done.len(),
            forall|t: int|
                0 <= t < replay(ms@, order@, p as nat, schema_view(s0.schema@), s0.applied@).done.len() ==> records(
                    #[trigger] store.applied@[s0.applied@.len() + t],
                    ms@[replay(ms@, order@, p as nat, schema_view(s0.schema@), s0.applied@).done[t]],
                    now,
                ),
            forall|q: int| 0 <= q < order@.len() ==> (#[trigger] order@[q]) < n,
            p <= n,
            count <= p,
            store.wf(),
            store.records_ready,
            extends(s0.applied@, store.applied@),
            store.applied@.len() == s0.applied@.len() + count,
            count == 0 ==> store.applied@ == s0.applied@ && schema_view(store.schema@) == schema_view(s0.schema@),
            all_recorded(s0.applied@, ms@) ==> count == 0,
            forall|q: int| 0 <= q < p ==> migration_recorded(store.applied@, #[trigger] ms@[order@[q] as int]),
            forall|t: int|
                s0.applied@.len() <= t < store.applied@.len() ==> exists|i: int|
                    0 <= i < ms@.len() && (#[trigger] store.applied@[t]).app_name@ == (
                    #[trigger] ms@[i]).app_name@ && store.applied@[t].sequence_number
                        == ms@[i].sequence_number && !migration_recorded(s0.applied@, ms@[i]),
        decreases n - p,
    {
        let k = order[p];
        let m = &ms[k];
        let ghost st = replay(ms@, order@, p as nat, schema_view(s0.schema@), s0.applied@);
        proof {
            lemma_recorded_split(s0.applied@, store.applied@, ms@, st.done, *m, now);
            assert(ms@[order@[p as int] as int] == *m);
        }
        if !recorded(&store.applied, &m.app_name, m.sequence_number) {
            proof {
                if migration_recorded(s0.applied@, *m) {
                    lemma_recorded_grows(s0.applied@, store.applied@, *m);
                }
                if all_recorded(s0.applied@, ms@) {
                    assert(migration_recorded(s0.applied@, ms@[k as int]));
                }
            }
            let ghost before = store.applied@;
            match apply_migration(store, m, now) {
                Ok(()) => {
                    proof {
                        assert(store.applied@.take(before.len() as int) =~= before);
                        assert(store.applied@.take(s0.applied@.len() as int) =~= s0.applied@);
                        assert forall|q: int| 0 <= q < p + 1 implies migration_recorded(
                            store.applied@,
                            #[trigger] ms@[order@[q] as int],
                        ) by {
                            if q < p {
                                lemma_recorded_grows(before, store.applied@, ms@[order@[q] as int]);
                            } else {
                                let last = before.len() as int;
                                assert(store.applied@[last].app_name@ == m.app_name@);
                            }
                        }
                        let st2 = replay(ms@, order@, (p + 1) as nat, schema_view(s0.schema@), s0.applied@);
                        assert(st2.done == st.done.push(k as int));
                        assert forall|t: int| 0 <= t < st2.done.len() implies records(
                            #[trigger] store.applied@[s0.applied@.len() + t],
                            ms@[st2.done[t]],
                            now,
                        ) by {
                            if t < st.done.len() {
                                assert(store.applied@[s0.applied@.len() + t] == before[s0.applied@.len() + t]);
                            }
                        }
                        assert forall|t: int|
                            s0.applied@.len() <= t < store.applied@.len() implies exists|i: int|
                            0 <= i < ms@.len() && (#[trigger] store.applied@[t]).app_name@ == (
                            #[trigger] ms@[i]).app_name@ && store.applied@[t].sequence_number
                                == ms@[i].sequence_number && !migration_recorded(s0.applied@, ms@[i]) by {
                            if t < before.len() {
                                assert(store.applied@[t] == before[t]);
                            } else {
                                assert(ms@[k as int] == *m);
                            }
                        }
                    }
                    count = count + 1;
                },
                Err(e) => {
                    proof {
                        assert(ms@[k as int] == *m);
                        assert(apply_ops(schema_view(store.schema@), m.operations@) is Err);
                        assert(!migration_recorded(store.applied@, ms@[k as int]));
                        assert(e is Migration);
                        let st2 = replay(ms@, order@, (p + 1) as nat, schema_view(s0.schema@), s0.applied@);
                        assert(st2.failed == Some(k as int));
                        lemma_replay_failed_stays(ms@, order@, (p + 1) as nat, n as nat, schema_view(s0.schema@), s0.applied@);
                        assert(follows_replay(ms@, order@, *old(store), *store, Err::<usize, Error>(e), now));
                        assert(ms@[k as int].app_name@ == e->Migration_app_name@);
                        assert(ms@[k as int].sequence_number == e->Migration_sequence_number);
                    }
                    return Err(e);
                },
            }
        } else {
            assert(migration_recorded(store.applied@, ms@[order@[p as int] as int]));
        }
        p = p + 1;
    }
    proof {
        assert(follows_replay(ms@, order@, *old(store), *store, Ok::<usize, Error>(count), now));
        crate::plan::lemma_index_count(order@, n as nat);
        assert forall|i: int| 0 <= i < ms@.len() implies migration_recorded(store.applied@, #[trigger] ms@[i]) by {
            assert(order@.contains(i as usize));
            let q = order@.index_of(i as usize);
            assert(order@[q] == i as usize);
        }
    }
    Ok(count)
}

/// A second run over the store that a successful run left applies no
/// migration, returns zero and leaves the store as it was.
pub proof fn lemma_second_run_applies_nothing(
    ms: Seq<Migration>,
    s0: Store,
    s1: Store,
    c1: usize,
    s2: Store,
    r2: Result<usize, Error>,
)
    requires
        run_outcome(ms, s0, s1, Ok(c1)),
        run_outcome(ms, s1, s2, r2),
    ensures
        r2 == Ok::<usize, Error>(0),
        s2.applied@ == s1.applied@,
        schema_view(s2.schema@) == schema_view(s1.schema@),
{
    if let Err(Error::Migration { app_name, sequence_number, .. }) = r2 {
        let i = choose|i: int|
            0 <= i < ms.len() && (#[trigger] ms[i]).app_name@ == app_name@ && ms[i].sequence_number
                == sequence_number && !migration_recorded(s2.applied@, ms[i]);
        assert(migration_recorded(s1.applied@, ms[i]));
        lemma_recorded_grows(s1.applied@, s2.applied@, ms[i]);
    }
}

/// When the dependencies form a cycle, a run fails with
/// `CyclicDependency` and leaves the store untouched.
pub proof fn lemma_cycle_leaves_store(ms: Seq<Migration>, s0: Store, s1: Store, r: Result<usize, Error>)
    requires
        run_outcome(ms, s0, s1, r),
        has_cycle(ms),
    ensures
        r matches Err(Error::CyclicDependency),
        s1 == s0,
{
}

} // verus!
