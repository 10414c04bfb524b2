use vstd::prelude::*;

use crate::codec::key_of_date;
use crate::codec::lemma_key_of_date_injective;
use crate::codec::lemma_date_key_below_sentinel;
use crate::codec::sentinel_key;
use crate::date::CalendarDate;
use crate::date::date_le;
use crate::date::date_lt;
use crate::date::day_number;
use crate::date::lemma_day_number_strict_mono;
use crate::error::Error;
use crate::records::lemma_record_injective;
use crate::records::record_of;
use crate::snapshot::Date;
use crate::snapshot::SnapView;
use crate::snapshot::injected;
use crate::snapshot::lemma_injected_committed;
use crate::snapshot::snap_committed;
use crate::snapshot::snap_date;
use crate::snapshot::snap_wf;
use crate::snapshot::with_self_rate;
use crate::store::Db;
use crate::store::current_ok;
use crate::store::current_snap;
use crate::store::has_current;
use crate::store::current_pointer;
use crate::store::lemma_snap_date_valid;
use crate::store::put_effect;

verus! {

/// What a reconciliation tick must do, decided from the remote latest
/// and local current dates alone.  The three fetch sizes mirror the
/// remote source's fixed endpoints (full history, last ninety days,
/// single day); that tiering is the source's interface, not a choice
/// made here.
#[derive(Clone, Copy, Debug, PartialEq, Eq, Structural)]
pub enum TickPlan {
    UpToDate,
    FetchDaily,
    FetchLast90,
    FetchFull,
}

/// Compares the remote latest date with the local current date and
/// picks the fetch tier for the gap.  Equal dates are a no-op; a remote
/// behind the local cache is the `SourceRegressed` invariant violation,
/// reported without touching anything.
pub fn plan_tick(remote: &CalendarDate, local: &CalendarDate) -> (r: Result<TickPlan, Error>)
    requires
        remote.valid(),
        local.valid(),
    ensures
        r == Ok::<TickPlan, Error>(TickPlan::UpToDate) <==> remote == local,
        r == Err::<TickPlan, Error>(Error::SourceRegressed) <==> date_lt(*remote, *local),
        date_lt(*local, *remote) ==> {
            let gap = day_number(*remote) - day_number(*local);
            &&& (r == Ok::<TickPlan, Error>(TickPlan::FetchDaily) <==> gap == 1)
            &&& (r == Ok::<TickPlan, Error>(TickPlan::FetchLast90) <==> 1 < gap <= 90)
            &&& (r == Ok::<TickPlan, Error>(TickPlan::FetchFull) <==> gap > 90)
        },
{
    if *remote == *local {
        return Ok(TickPlan::UpToDate);
    }
    if remote.before(local) {
        return Err(Error::SourceRegressed);
    }
    proof {
        lemma_day_number_strict_mono(*local, *remote);
    }
    let gap = remote.day_index() - local.day_index();
    if gap > 90 {
        Ok(TickPlan::FetchFull)
    } else if gap > 1 {
        Ok(TickPlan::FetchLast90)
    } else {
        Ok(TickPlan::FetchDaily)
    }
}

/// The snapshot views of a fetched list, in order.
pub open spec fn views_of(hist: Seq<Date>) -> Seq<SnapView> {
    Seq::new(hist.len(), |i: int| hist[i]@)
}

/// The store after writing each snapshot in order, self-rate injected.
pub open spec fn apply_history(m: Map<Seq<u8>, Seq<u8>>, hist: Seq<SnapView>) -> Map<
    Seq<u8>,
    Seq<u8>,
>
    decreases hist.len(),
{
    if hist.len() == 0 {
        m
    } else {
        apply_history(put_effect(m, injected(hist.first())), hist.drop_first())
    }
}

/// After a non-empty history is applied, the last snapshot's record
/// sits under its date key, untouched by the earlier writes.
proof fn lemma_apply_history_last(m: Map<Seq<u8>, Seq<u8>>, hist: Seq<SnapView>)
    requires
        hist.len() > 0,
        forall|i: int| 0 <= i < hist.len() ==> snap_wf(#[trigger] hist[i]),
    ensures
        apply_history(m, hist).contains_key(key_of_date(snap_date(hist.last()))),
        apply_history(m, hist)[key_of_date(snap_date(hist.last()))] == record_of(
            injected(hist.last()),
        ),
    decreases hist.len(),
{
    lemma_injected_committed(hist.first());
    if hist.len() == 1 {
        assert(hist.last() == hist.first());
        assert(hist.drop_first().len() == 0);
        reveal_with_fuel(apply_history, 2);
        assert(apply_history(m, hist) == put_effect(m, injected(hist.first())));
    } else {
        assert(hist.drop_first().last() == hist.last());
        assert forall|i: int| 0 <= i < hist.drop_first().len() implies snap_wf(
            #[trigger] hist.drop_first()[i],
        ) by {
            assert(hist.drop_first()[i] == hist[i + 1]);
        }
        lemma_apply_history_last(put_effect(m, injected(hist.first())), hist.drop_first());
    }
}

/// First-run population of the store from the full remote history,
/// oldest first: every snapshot is written with the self-rate injected,
/// then the pointer moves to the last date in the sequence, then a
/// flush makes it all durable.  An empty history is refused with
/// `SourceUnavailable` before anything is written: a store must never
/// come into being with no snapshot for its pointer.
pub fn bootstrap_store(db: &mut Db, history: &Vec<Date>) -> (r: Result<(), Error>)
    requires
        forall|i: int| 0 <= i < history@.len() ==> snap_wf((#[trigger] history@[i])@),
    ensures
        r == Err::<(), Error>(Error::SourceUnavailable) <==> history@.len() == 0,
        history@.len() == 0 ==> final(db)@ == old(db)@,
        r is Ok ==> {
            let views = views_of(history@);
            &&& history@.len() > 0
            &&& final(db)@ == apply_history(old(db)@, views).insert(
                sentinel_key(),
                key_of_date(snap_date(views.last())),
            )
            &&& current_ok(final(db)@)
            &&& snap_date(current_snap(final(db)@)) == snap_date(views.last())
            &&& snap_committed(current_snap(final(db)@))
        },
        r is Err ==> r == Err::<(), Error>(Error::SourceUnavailable) || r == Err::<(), Error>(
            Error::StoreIO,
        ),
        r is Err ==> {
            let views = views_of(history@);
            ||| exists|k: int|
                0 <= k <= views.len() && final(db)@ == apply_history(
                    old(db)@,
                    #[trigger] views.take(k),
                )
            ||| (views.len() > 0 && final(db)@ == apply_history(old(db)@, views).insert(
                sentinel_key(),
                key_of_date(snap_date(views.last())),
            ))
        },
{
    if history.len() == 0 {
        proof {
            assert(views_of(history@).take(0) =~= Seq::<SnapView>::empty());
        }
        return Err(Error::SourceUnavailable);
    }
    let ghost views = views_of(history@);
    let ghost m0 = db@;
    proof {
        assert(views.skip(0) =~= views);
        assert(views.take(0) =~= Seq::<SnapView>::empty());
    }
    let n = history.len();
    let mut i: usize = 0;
    while i < n
        invariant
            i <= n,
            n == history@.len(),
            forall|k: int| 0 <= k < history@.len() ==> snap_wf((#[trigger] history@[k])@),
            views == views_of(history@),
            m0 == old(db)@,
            apply_history(db@, views.skip(i as int)) == apply_history(m0, views),
            db@ == apply_history(m0, views.take(i as int)),
        decreases n - i,
    {
        proof {
            lemma_injected_committed(views[i as int]);
            assert(views.take(i as int + 1) =~= views.take(i as int).push(views[i as int]));
            lemma_apply_history_snoc(m0, views.take(i as int), views[i as int]);
        }
        let snap = with_self_rate(&history[i]);
        match db.put(&snap) {
            Ok(()) => {},
            Err(e) => {
                return Err(e);
            },
        }
        proof {
            assert(views.skip(i as int).first() == views[i as int]);
            assert(views.skip(i as int).drop_first() =~= views.skip(i as int + 1));
        }
        i = i + 1;
    }
    proof {
        assert(views.skip(n as int) =~= Seq::<SnapView>::empty());
        assert(views.take(n as int) =~= views);
        assert(db@ == apply_history(m0, views));
        lemma_apply_history_last(m0, views);
        assert(views.last() == history@[n - 1]@);
    }
    let day = match history[n - 1].value_as_date() {
        Ok(d) => d,
        Err(_) => {
            proof {
                assert(false);
            }
            return Err(Error::StoreIO);
        },
    };
    proof {
        lemma_date_key_below_sentinel(day);
    }
    match db.set_current(&day) {
        Ok(()) => {},
        Err(e) => {
            return Err(e);
        },
    }
    match db.flush() {
        Ok(()) => {},
        Err(e) => {
            return Err(e);
        },
    }
    proof {
        let m = db@;
        let last = views.last();
        lemma_injected_committed(last);
        assert(has_current(m));
        assert(current_pointer(m) == key_of_date(day));
        assert(m.contains_key(key_of_date(day)));
        assert(m[key_of_date(day)] == record_of(injected(last)));
        assert(snap_wf(injected(last)) && m[current_pointer(m)] == record_of(injected(last))
            && current_pointer(m) == key_of_date(snap_date(injected(last))));
        assert(current_ok(m));
        let sv = current_snap(m);
        lemma_record_injective(sv, injected(last));
    }
    Ok(())
}

/// The store and pointer after committing, in order, each fetched
/// snapshot strictly newer than the advancing current date: snapshot
/// write first, pointer advance second, per date.
pub open spec fn commit_fold(
    m: Map<Seq<u8>, Seq<u8>>,
    cur: CalendarDate,
    fetched: Seq<SnapView>,
) -> (Map<Seq<u8>, Seq<u8>>, CalendarDate)
    decreases fetched.len(),
{
    if fetched.len() == 0 {
        (m, cur)
    } else if date_lt(cur, snap_date(fetched.first())) {
        commit_fold(
            put_effect(m, injected(fetched.first())).insert(
                sentinel_key(),
                key_of_date(snap_date(fetched.first())),
            ),
            snap_date(fetched.first()),
            fetched.drop_first(),
        )
    } else {
        commit_fold(m, cur, fetched.drop_first())
    }
}

/// A window with nothing newer than the current date commits nothing:
/// the store and the pointer come out exactly as they went in.
pub proof fn lemma_commit_fold_noop(
    m: Map<Seq<u8>, Seq<u8>>,
    cur: CalendarDate,
    views: Seq<SnapView>,
)
    requires
        forall|i: int| 0 <= i < views.len() ==> !date_lt(cur, snap_date(#[trigger] views[i])),
    ensures
        commit_fold(m, cur, views) == (m, cur),
    decreases views.len(),
{
    if views.len() > 0 {
        assert(!date_lt(cur, snap_date(views.first())));
        assert forall|i: int| 0 <= i < views.drop_first().len() implies !date_lt(
            cur,
            snap_date(#[trigger] views.drop_first()[i]),
        ) by {
            assert(views.drop_first()[i] == views[i + 1]);
        }
        lemma_commit_fold_noop(m, cur, views.drop_first());
    }
}

/// The committed pointer never moves backwards: whatever the window
/// holds, the current date after the walk is no older than before it.
pub proof fn lemma_commit_fold_advances(
    m: Map<Seq<u8>, Seq<u8>>,
    cur: CalendarDate,
    views: Seq<SnapView>,
)
    ensures
        date_le(cur, commit_fold(m, cur, views).1),
    decreases views.len(),
{
    if views.len() > 0 {
        if date_lt(cur, snap_date(views.first())) {
            lemma_commit_fold_advances(
                put_effect(m, injected(views.first())).insert(
                    sentinel_key(),
                    key_of_date(snap_date(views.first())),
                ),
                snap_date(views.first()),
                views.drop_first(),
            );
        } else {
            lemma_commit_fold_advances(m, cur, views.drop_first());
        }
    }
}

/// Applying one more snapshot is one more write.
proof fn lemma_apply_history_snoc(m: Map<Seq<u8>, Seq<u8>>, xs: Seq<SnapView>, x: SnapView)
    ensures
        apply_history(m, xs.push(x)) == put_effect(apply_history(m, xs), injected(x)),
    decreases xs.len(),
{
    if xs.len() == 0 {
        assert(xs.push(x).first() == x);
        assert(xs.push(x).drop_first() =~= Seq::<SnapView>::empty());
        reveal_with_fuel(apply_history, 3);
    } else {
        assert(xs.push(x).first() == xs.first());
        assert(xs.push(x).drop_first() =~= xs.drop_first().push(x));
        lemma_apply_history_snoc(put_effect(m, injected(xs.first())), xs.drop_first(), x);
    }
}

/// Committing one more snapshot is one more guarded write-and-advance.
proof fn lemma_commit_fold_snoc(
    m: Map<Seq<u8>, Seq<u8>>,
    cur: CalendarDate,
    xs: Seq<SnapView>,
    x: SnapView,
)
    ensures
        commit_fold(m, cur, xs.push(x)) == (if date_lt(commit_fold(m, cur, xs).1, snap_date(x)) {
            (
                put_effect(commit_fold(m, cur, xs).0, injected(x)).insert(
                    sentinel_key(),
                    key_of_date(snap_date(x)),
                ),
                snap_date(x),
            )
        } else {
            commit_fold(m, cur, xs)
        }),
    decreases xs.len(),
{
    if xs.len() == 0 {
        assert(xs.push(x).first() == x);
        assert(xs.push(x).drop_first() =~= Seq::<SnapView>::empty());
        reveal_with_fuel(commit_fold, 3);
    } else {
        assert(xs.push(x).first() == xs.first());
        assert(xs.push(x).drop_first() =~= xs.drop_first().push(x));
        if date_lt(cur, snap_date(xs.first())) {
            lemma_commit_fold_snoc(
                put_effect(m, injected(xs.first())).insert(
                    sentinel_key(),
                    key_of_date(snap_date(xs.first())),
                ),
                snap_date(xs.first()),
                xs.drop_first(),
                x,
            );
        } else {
            lemma_commit_fold_snoc(m, cur, xs.drop_first(), x);
        }
    }
}

/// Where an aborted tick can leave the store: at the state of a fully
/// committed prefix of the window, with at most the next snapshot
/// already written but the pointer not yet moved to it.
pub open spec fn aborted_tick_state(
    m0: Map<Seq<u8>, Seq<u8>>,
    cur0: CalendarDate,
    views: Seq<SnapView>,
    m: Map<Seq<u8>, Seq<u8>>,
) -> bool {
    exists|k: int|
        0 <= k <= views.len() && {
            let pre = #[trigger] commit_fold(m0, cur0, views.take(k));
            &&& current_ok(m)
            &&& snap_date(current_snap(m)) == pre.1
            &&& (m == pre.0 || (k < views.len() && m == put_effect(pre.0, injected(views[k]))))
        }
}

/// Writing a strictly newer snapshot leaves the current pointer and its
/// target untouched: the pointer still names the old current date.
proof fn lemma_put_preserves_current(m: Map<Seq<u8>, Seq<u8>>, v: SnapView, cur: CalendarDate)
    requires
        current_ok(m),
        snap_date(current_snap(m)) == cur,
        snap_wf(v),
        date_lt(cur, snap_date(v)),
    ensures
        current_ok(put_effect(m, injected(v))),
        snap_date(current_snap(put_effect(m, injected(v)))) == cur,
{
    let m2 = put_effect(m, injected(v));
    lemma_injected_committed(v);
    let sv0 = choose|sv: SnapView|
        snap_wf(sv) && m[current_pointer(m)] == record_of(sv) && current_pointer(m) == key_of_date(
            snap_date(sv),
        );
    lemma_record_injective(sv0, current_snap(m));
    // the pointer names the old current date's key
    assert(current_pointer(m) == key_of_date(cur));
    lemma_snap_date_valid(current_snap(m));
    lemma_date_key_below_sentinel(snap_date(v));
    lemma_date_key_below_sentinel(cur);
    // the written key is neither the sentinel nor the pointer's target
    if key_of_date(snap_date(v)) == key_of_date(cur) {
        lemma_key_of_date_injective(snap_date(v), cur);
    }
    assert(m2.contains_key(sentinel_key()));
    assert(current_pointer(m2) == current_pointer(m));
    assert(m2[current_pointer(m2)] == m[current_pointer(m)]);
    assert(snap_wf(current_snap(m)) && m2[current_pointer(m2)] == record_of(current_snap(m))
        && current_pointer(m2) == key_of_date(snap_date(current_snap(m))));
    assert(current_ok(m2));
    lemma_record_injective(current_snap(m2), current_snap(m));
}

/// The state reached by fully committing `k` snapshots, with at most
/// the next one written but not yet pointed to, is an aborted-tick
/// state.
proof fn lemma_abort_witness_at(
    m0: Map<Seq<u8>, Seq<u8>>,
    cur0: CalendarDate,
    views: Seq<SnapView>,
    k: int,
    m: Map<Seq<u8>, Seq<u8>>,
)
    requires
        0 <= k <= views.len(),
        current_ok(m),
        snap_date(current_snap(m)) == commit_fold(m0, cur0, views.take(k)).1,
        m == commit_fold(m0, cur0, views.take(k)).0 || (k < views.len() && m == put_effect(
            commit_fold(m0, cur0, views.take(k)).0,
            injected(views[k]),
        )),
    ensures
        aborted_tick_state(m0, cur0, views, m),
{
}

/// After a snapshot is written and the pointer moved to its date, the
/// pointer names exactly that snapshot.
proof fn lemma_committed_state(mprev: Map<Seq<u8>, Seq<u8>>, v: SnapView, sd: CalendarDate)
    requires
        snap_wf(v),
        snap_date(v) == sd,
        sd.valid(),
    ensures
        ({
            let m = put_effect(mprev, injected(v)).insert(sentinel_key(), key_of_date(sd));
            current_ok(m) && snap_date(current_snap(m)) == sd
        }),
{
    lemma_injected_committed(v);
    lemma_date_key_below_sentinel(sd);
    let m = put_effect(mprev, injected(v)).insert(sentinel_key(), key_of_date(sd));
    assert(current_pointer(m) == key_of_date(sd));
    assert(m.contains_key(key_of_date(sd)));
    assert(m[key_of_date(sd)] == record_of(injected(v)));
    assert(snap_wf(injected(v)) && m[current_pointer(m)] == record_of(injected(v))
        && current_pointer(m) == key_of_date(snap_date(injected(v))));
    assert(current_ok(m));
    lemma_record_injective(current_snap(m), injected(v));
}

/// One reconciliation commit: rejects an empty window (a fetch that
/// came back empty is never silently accepted), reads the local current
/// date, walks the window in order committing only the snapshots
/// strictly newer than the advancing current date — self-rate injected,
/// snapshot before pointer, per date — and flushes once after the walk.
/// A failure part-way is safe to abandon: the store stands at a fully
/// committed prefix of the window (at most one further snapshot written
/// but not pointed to), so the pointer names a stored snapshot at the
/// last fully committed date, no older than where the tick began, and
/// the tick can simply be retried whole.
#[verifier::rlimit(100)]
pub fn reconcile_commit(db: &mut Db, fetched: &Vec<Date>) -> (r: Result<(), Error>)
    requires
        forall|i: int| 0 <= i < fetched@.len() ==> snap_wf((#[trigger] fetched@[i])@),
    ensures
        r == Err::<(), Error>(Error::SourceUnavailable) <==> fetched@.len() == 0,
        fetched@.len() == 0 ==> final(db)@ == old(db)@,
        r is Ok ==> {
            let views = views_of(fetched@);
            let cur0 = snap_date(current_snap(old(db)@));
            &&& current_ok(old(db)@)
            &&& final(db)@ == commit_fold(old(db)@, cur0, views).0
            &&& current_ok(final(db)@)
            &&& snap_date(current_snap(final(db)@)) == commit_fold(old(db)@, cur0, views).1
        },
        r is Err ==> r == Err::<(), Error>(Error::StoreIO) || r == Err::<(), Error>(
            Error::MalformedKey,
        ) || r == Err::<(), Error>(Error::StoreCorrupt) || r == Err::<(), Error>(
            Error::SourceUnavailable,
        ),
        (r == Err::<(), Error>(Error::MalformedKey) || r == Err::<(), Error>(Error::StoreCorrupt))
            ==> !current_ok(old(db)@),
        (r is Err && current_ok(old(db)@)) ==> {
            let views = views_of(fetched@);
            let cur0 = snap_date(current_snap(old(db)@));
            &&& current_ok(final(db)@)
            &&& date_le(cur0, snap_date(current_snap(final(db)@)))
            &&& aborted_tick_state(old(db)@, cur0, views, final(db)@)
        },
{
    let ghost views = views_of(fetched@);
    proof {
        assert(views.take(0) =~= Seq::<SnapView>::empty());
        if current_ok(db@) {
            let cur0g = snap_date(current_snap(db@));
            assert(commit_fold(db@, cur0g, views.take(0)) == (db@, cur0g));
            lemma_abort_witness_at(db@, cur0g, views, 0, db@);
        }
    }
    if fetched.len() == 0 {
        return Err(Error::SourceUnavailable);
    }
    let current = match db.get_current_rates() {
        Ok(s) => s,
        Err(e) => {
            return Err(e);
        },
    };
    let mut cur = match current.value_as_date() {
        Ok(d) => d,
        Err(_) => {
            proof {
                assert(snap_wf(current_snap(old(db)@)));
                assert(false);
            }
            return Err(Error::StoreCorrupt);
        },
    };
    let ghost m0 = db@;
    let ghost cur0 = cur;
    let n = fetched.len();
    let mut i: usize = 0;
    while i < n
        invariant
            i <= n,
            n == fetched@.len(),
            forall|k: int| 0 <= k < fetched@.len() ==> snap_wf((#[trigger] fetched@[k])@),
            views == views_of(fetched@),
            cur.valid(),
            m0 == old(db)@,
            cur0 == snap_date(current_snap(old(db)@)),
            current_ok(old(db)@),
            date_le(cur0, cur),
            db@ == commit_fold(m0, cur0, views.take(i as int)).0,
            cur == commit_fold(m0, cur0, views.take(i as int)).1,
            current_ok(db@),
            snap_date(current_snap(db@)) == cur,
        decreases n - i,
    {
        let sd = match fetched[i].value_as_date() {
            Ok(d) => d,
            Err(_) => {
                proof {
                    assert(false);
                }
                return Err(Error::StoreCorrupt);
            },
        };
        proof {
            assert(views.take(i as int + 1) =~= views.take(i as int).push(views[i as int]));
            lemma_commit_fold_snoc(m0, cur0, views.take(i as int), views[i as int]);
        }
        if cur.before(&sd) {
            let ghost pre = commit_fold(m0, cur0, views.take(i as int)).0;
            proof {
                lemma_injected_committed(views[i as int]);
                lemma_put_preserves_current(db@, views[i as int], cur);
            }
            let snap = with_self_rate(&fetched[i]);
            match db.put(&snap) {
                Ok(()) => {},
                Err(e) => {
                    proof {
                        lemma_abort_witness_at(m0, cur0, views, i as int, db@);
                    }
                    return Err(e);
                },
            }
            match db.set_current(&sd) {
                Ok(()) => {},
                Err(e) => {
                    proof {
                        if db@ == put_effect(pre, injected(views[i as int])) {
                            lemma_abort_witness_at(m0, cur0, views, i as int, db@);
                        } else {
                            lemma_committed_state(pre, views[i as int], sd);
                            lemma_abort_witness_at(m0, cur0, views, i as int + 1, db@);
                        }
                    }
                    return Err(e);
                },
            }
            proof {
                lemma_committed_state(pre, views[i as int], sd);
            }
            cur = sd;
        }
        i = i + 1;
    }
    proof {
        assert(views.take(n as int) =~= views);
        lemma_abort_witness_at(m0, cur0, views, n as int, db@);
    }
    match db.flush() {
        Ok(()) => Ok(()),
        Err(e) => Err(e),
    }
}

} // verus!
