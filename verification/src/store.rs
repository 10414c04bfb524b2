use vstd::prelude::*;

use sled::Db as SledTree;
use sled::Error as SledError;

use crate::codec::encode_date_key;
use crate::codec::key_of_date;
use crate::codec::lex_le;
use crate::codec::lex_lt;
use crate::codec::sentinel_key;
use crate::codec::sentinel_key_exec;
use crate::codec::decode_date_key;
use crate::codec::lemma_date_key_below_sentinel;
use crate::codec::lemma_key_of_date_injective;
use crate::codec::lemma_key_order;
use crate::codec::lemma_lex_asymmetric;
use crate::codec::lemma_lex_irreflexive;
use crate::date::CalendarDate;
use crate::date::date_le;
use crate::date::parse_iso_date;
use crate::date::iso_chars;
use crate::date::date_lt;
use crate::error::Error;
use crate::records::decode_record;
use crate::records::lemma_record_injective;
use crate::records::encode_record;
use crate::records::record_of;
use crate::snapshot::Date;
use crate::snapshot::date_of_value;
use crate::snapshot::has_date;
use crate::snapshot::lemma_date_of_value;
use crate::snapshot::SnapView;
use crate::snapshot::snap_date;
use crate::snapshot::snap_wf;

verus! {

#[verifier::external_type_specification]
#[verifier::external_body]
pub struct ExSledDb(SledTree);

#[verifier::external_type_specification]
#[verifier::external_body]
pub struct ExSledError(SledError);

/// What the underlying tree holds: a map from key bytes to value bytes.
pub uninterp spec fn store_map(db: SledTree) -> Map<Seq<u8>, Seq<u8>>;

/// Relies on sled::open: opens the tree at `path`, creating the
/// directory if none exists.  An existing tree holds whatever the disk
/// holds, so nothing is assumed of the contents.
#[verifier::external_body]
fn sled_open(path: &str) -> (r: Result<SledTree, SledError>) {
    sled::open(path)
}

/// Relies on sled::Tree::insert: on success the tree maps `key` to
/// `value` and every other key as before.  On failure the contents are
/// either unchanged or already updated at exactly `key`: sled publishes
/// the write with a page-link compare-and-swap, and completing the log
/// reservation (or paging out) after that swap can still report the
/// storage error, so an Err may come back with the write visible.
#[verifier::external_body]
fn sled_insert(db: &mut SledTree, key: &Vec<u8>, value: &Vec<u8>) -> (r: Result<
    (),
    SledError,
>)
    ensures
        r is Ok ==> store_map(*final(db)) == store_map(*old(db)).insert(key@, value@),
        r is Err ==> store_map(*final(db)) == store_map(*old(db)) || store_map(*final(db))
            == store_map(*old(db)).insert(key@, value@),
{
    db.insert(key.as_slice(), value.clone()).map(|_| ())
}

/// Relies on sled::Tree::get: returns a copy of the value stored at
/// `key`, or `None` when the key is absent.
#[verifier::external_body]
fn sled_get(db: &SledTree, key: &Vec<u8>) -> (r: Result<Option<Vec<u8>>, SledError>)
    ensures
        match r {
            Ok(Some(v)) => store_map(*db).contains_key(key@) && v@ == store_map(*db)[key@],
            Ok(None) => !store_map(*db).contains_key(key@),
            Err(_) => true,
        },
{
    db.get(key.as_slice()).map(|o| o.map(|iv| iv.to_vec()))
}

/// Relies on sled::Tree::range: yields each stored pair whose key lies
/// in `lo..=hi`, exactly once, in ascending lexicographic key order.
#[verifier::external_body]
fn sled_range(db: &SledTree, lo: &Vec<u8>, hi: &Vec<u8>) -> (r: Result<
    Vec<(Vec<u8>, Vec<u8>)>,
    SledError,
>)
    ensures
        match r {
            Ok(pairs) => {
                &&& forall|i: int|
                    0 <= i < pairs.len() ==> lex_le(lo@, (#[trigger] pairs[i]).0@) && lex_le(
                        pairs[i].0@,
                        hi@,
                    ) && store_map(*db).contains_key(pairs[i].0@) && pairs[i].1@ == store_map(
                        *db,
                    )[pairs[i].0@]
                &&& forall|i: int, j: int|
                    0 <= i < j < pairs.len() ==> lex_lt(
                        (#[trigger] pairs[i]).0@,
                        (#[trigger] pairs[j]).0@,
                    )
                &&& forall|k: Seq<u8>|
                    store_map(*db).contains_key(k) && lex_le(lo@, k) && lex_le(k, hi@)
                        ==> exists|i: int| 0 <= i < pairs.len() && (#[trigger] pairs[i]).0@ == k
            },
            Err(_) => true,
        },
{
    db.range(lo.as_slice()..=hi.as_slice()).map(
        |item| item.map(|(k, v)| (k.to_vec(), v.to_vec())),
    ).collect()
}

/// Relies on sled::Tree::flush: fsyncs all prior writes before
/// returning, so a crash after it cannot lose them; the shared borrow
/// already says the contents are untouched.
#[verifier::external_body]
fn sled_flush(db: &SledTree) -> (r: Result<(), SledError>) {
    db.flush().map(|_| ())
}

/// A handle to the snapshot store: one serialized snapshot per date
/// key, plus the sentinel record holding the current pointer.
pub struct Db {
    tree: SledTree,
}

impl View for Db {
    type V = Map<Seq<u8>, Seq<u8>>;

    closed spec fn view(&self) -> Map<Seq<u8>, Seq<u8>> {
        store_map(self.tree)
    }
}

pub open spec fn has_current(m: Map<Seq<u8>, Seq<u8>>) -> bool {
    m.contains_key(sentinel_key())
}

pub open spec fn current_pointer(m: Map<Seq<u8>, Seq<u8>>) -> Seq<u8> {
    m[sentinel_key()]
}

/// The current pointer and its target are intact: the pointer is the
/// key of a valid date, the snapshot for that key is present, its
/// record decodes, and the record's own date is the pointed date.
pub open spec fn current_ok(m: Map<Seq<u8>, Seq<u8>>) -> bool {
    &&& has_current(m)
    &&& exists|d: CalendarDate| d.valid() && current_pointer(m) == key_of_date(d)
    &&& m.contains_key(current_pointer(m))
    &&& exists|sv: SnapView|
        snap_wf(sv) && m[current_pointer(m)] == record_of(sv) && current_pointer(m) == key_of_date(
            snap_date(sv),
        )
}

/// The snapshot the current pointer names; meaningful under
/// `current_ok`, where the record pins it down.
pub open spec fn current_snap(m: Map<Seq<u8>, Seq<u8>>) -> SnapView {
    choose|sv: SnapView| snap_wf(sv) && m[current_pointer(m)] == record_of(sv)
}

/// The observable effect of `put`: the store with the snapshot's record
/// written under its date key.
pub open spec fn put_effect(m: Map<Seq<u8>, Seq<u8>>, s: SnapView) -> Map<Seq<u8>, Seq<u8>> {
    m.insert(key_of_date(snap_date(s)), record_of(s))
}

/// Upserting the same snapshot twice leaves the store exactly as a
/// single upsert does.
pub proof fn lemma_put_idempotent(m: Map<Seq<u8>, Seq<u8>>, s: SnapView)
    ensures
        put_effect(put_effect(m, s), s) == put_effect(m, s),
{
    assert(put_effect(put_effect(m, s), s) =~= put_effect(m, s));
}

/// Every entry between the two keys is a date-keyed, well-formed record
/// whose own date matches its key.
pub open spec fn range_clean(m: Map<Seq<u8>, Seq<u8>>, lo: Seq<u8>, hi: Seq<u8>) -> bool {
    forall|k: Seq<u8>|
        #[trigger] m.contains_key(k) && lex_le(lo, k) && lex_le(k, hi) ==> exists|sv: SnapView|
            snap_wf(sv) && m[k] == record_of(sv) && k == key_of_date(snap_date(sv))
}

impl Db {
    /// Opens (or creates) the store at `path`.  An existing store holds
    /// whatever the disk holds; nothing is assumed of it.
    pub fn open(path: &str) -> (r: Result<Db, Error>)
        ensures
            r is Err ==> r == Err::<Db, Error>(Error::StoreIO),
    {
        match sled_open(path) {
            Ok(tree) => Ok(Db { tree }),
            Err(_) => Err(Error::StoreIO),
        }
    }

    fn put_raw(&mut self, key: &Vec<u8>, value: &Vec<u8>) -> (r: Result<(), Error>)
        ensures
            r is Ok ==> final(self)@ == old(self)@.insert(key@, value@),
            r is Err ==> r == Err::<(), Error>(Error::StoreIO) && (final(self)@ == old(self)@
                || final(self)@ == old(self)@.insert(key@, value@)),
    {
        match sled_insert(&mut self.tree, key, value) {
            Ok(()) => Ok(()),
            Err(_) => Err(Error::StoreIO),
        }
    }

    fn get_raw(&self, key: &Vec<u8>) -> (r: Result<Option<Vec<u8>>, Error>)
        ensures
            match r {
                Ok(Some(v)) => self@.contains_key(key@) && v@ == self@[key@],
                Ok(None) => !self@.contains_key(key@),
                Err(e) => e == Error::StoreIO,
            },
    {
        match sled_get(&self.tree, key) {
            Ok(v) => Ok(v),
            Err(_) => Err(Error::StoreIO),
        }
    }

    /// Serializes a snapshot and writes it under its encoded date key.
    /// Overwriting a date already stored is the idempotent upsert the
    /// reconciler relies on.
    pub fn put(&mut self, s: &Date) -> (r: Result<(), Error>)
        requires
            snap_wf(s@),
        ensures
            r is Ok ==> final(self)@ == put_effect(old(self)@, s@),
            r is Err ==> r == Err::<(), Error>(Error::StoreIO) && (final(self)@ == old(self)@
                || final(self)@ == put_effect(old(self)@, s@)),
    {
        let day = match s.value_as_date() {
            Ok(d) => d,
            Err(_) => {
                proof {
                    assert(false);
                }
                return Err(Error::StoreIO);
            },
        };
        let key = encode_date_key(&day);
        let value = encode_record(s);
        self.put_raw(&key, &value)
    }

    /// Durability barrier: all prior writes are persisted to stable
    /// storage before this returns.
    pub fn flush(&self) -> (r: Result<(), Error>)
        ensures
            r is Err ==> r == Err::<(), Error>(Error::StoreIO),
    {
        match sled_flush(&self.tree) {
            Ok(()) => Ok(()),
            Err(_) => Err(Error::StoreIO),
        }
    }

    /// Moves the current pointer to `day`.  The snapshot for `day` must
    /// already be committed: the pointer must never name a missing
    /// snapshot, so the store writes snapshot before pointer.
    pub fn set_current(&mut self, day: &CalendarDate) -> (r: Result<(), Error>)
        requires
            day.valid(),
            old(self)@.contains_key(key_of_date(*day)),
        ensures
            r is Ok ==> final(self)@ == old(self)@.insert(sentinel_key(), key_of_date(*day)),
            r is Err ==> r == Err::<(), Error>(Error::StoreIO) && (final(self)@ == old(self)@
                || final(self)@ == old(self)@.insert(sentinel_key(), key_of_date(*day))),
    {
        let sentinel = sentinel_key_exec();
        let key = encode_date_key(day);
        self.put_raw(&sentinel, &key)
    }

    /// Point lookup for one date; an absent date is a normal `None`,
    /// a stored value that is no snapshot record is `StoreCorrupt`.
    pub fn get(&self, day: &CalendarDate) -> (r: Result<Option<Date>, Error>)
        requires
            day.valid(),
        ensures
            match r {
                Ok(Some(s)) => snap_wf(s@) && self@.contains_key(key_of_date(*day))
                    && self@[key_of_date(*day)] == record_of(s@),
                Ok(None) => !self@.contains_key(key_of_date(*day)),
                Err(e) => e == Error::StoreIO || (e == Error::StoreCorrupt
                    && self@.contains_key(key_of_date(*day)) && (forall|sv: SnapView| snap_wf(sv)
                    ==> self@[key_of_date(*day)] != record_of(sv))),
            },
    {
        let key = encode_date_key(day);
        match self.get_raw(&key) {
            Ok(None) => Ok(None),
            Ok(Some(bytes)) => match decode_record(bytes.as_slice()) {
                Ok(s) => Ok(Some(s)),
                Err(_) => Err(Error::StoreCorrupt),
            },
            Err(e) => Err(e),
        }
    }
}

/// Keys compare like dates in both directions.
proof fn lemma_key_le_to_date_le(a: CalendarDate, b: CalendarDate)
    requires
        a.valid(),
        b.valid(),
        lex_le(key_of_date(a), key_of_date(b)),
    ensures
        date_le(a, b),
{
    if date_lt(b, a) {
        lemma_key_order(b, a);
        lemma_lex_asymmetric(key_of_date(b), key_of_date(a));
        if key_of_date(a) == key_of_date(b) {
            lemma_key_of_date_injective(a, b);
        }
    }
}

impl Db {
    /// Reads the pointer, then the snapshot it names.  `MalformedKey`
    /// when the pointer bytes are no encoded date; `StoreCorrupt` when
    /// the pointer is absent, its target snapshot is missing (the
    /// invariant violation this read exists to surface), the target
    /// record does not decode, or the record's own date is not the
    /// pointed date.
    pub fn get_current_rates(&self) -> (r: Result<Date, Error>)
        ensures
            match r {
                Ok(s) => current_ok(self@) && s@ == current_snap(self@) && key_of_date(
                    snap_date(s@),
                ) == current_pointer(self@),
                Err(e) => {
                    ||| e == Error::StoreIO
                    ||| (e == Error::MalformedKey && has_current(self@) && (forall|d: CalendarDate|
                        d.valid() ==> current_pointer(self@) != key_of_date(d)))
                    ||| (e == Error::StoreCorrupt && !current_ok(self@))
                },
            },
    {
        let sentinel = sentinel_key_exec();
        let ptr = match self.get_raw(&sentinel) {
            Ok(Some(p)) => p,
            Ok(None) => {
                return Err(Error::StoreCorrupt);
            },
            Err(e) => {
                return Err(e);
            },
        };
        let day = match decode_date_key(ptr.as_slice()) {
            Ok(d) => d,
            Err(_) => {
                return Err(Error::MalformedKey);
            },
        };
        let snap = match self.get(&day) {
            Ok(Some(s)) => s,
            Ok(None) => {
                return Err(Error::StoreCorrupt);
            },
            Err(Error::StoreIO) => {
                return Err(Error::StoreIO);
            },
            Err(_) => {
                return Err(Error::StoreCorrupt);
            },
        };
        let sd = match snap.value_as_date() {
            Ok(d) => d,
            Err(_) => {
                proof {
                    assert(false);
                }
                return Err(Error::StoreCorrupt);
            },
        };
        if sd == day {
            proof {
                assert(current_ok(self@));
                let sv = current_snap(self@);
                assert(snap_wf(sv) && self@[current_pointer(self@)] == record_of(sv));
                lemma_record_injective(snap@, sv);
            }
            Ok(snap)
        } else {
            // the stored record answers to a different date than the
            // pointer names: tampering, surfaced rather than served
            proof {
                assert forall|sv: SnapView|
                    snap_wf(sv) && self@[current_pointer(self@)] == record_of(sv) implies
                    current_pointer(self@) != key_of_date(snap_date(sv)) by {
                    lemma_record_injective(snap@, sv);
                    if current_pointer(self@) == key_of_date(snap_date(sv)) {
                        lemma_key_of_date_injective(snap_date(sv), day);
                    }
                }
            }
            Err(Error::StoreCorrupt)
        }
    }

    /// Whether the current pointer record exists at all.  Its absence
    /// marks a store that was never fully bootstrapped: recovery treats
    /// that exactly like a missing store and bootstraps from scratch.
    pub fn has_current_pointer(&self) -> (r: Result<bool, Error>)
        ensures
            match r {
                Ok(b) => b == has_current(self@),
                Err(e) => e == Error::StoreIO,
            },
    {
        let sentinel = sentinel_key_exec();
        match self.get_raw(&sentinel) {
            Ok(Some(_)) => Ok(true),
            Ok(None) => Ok(false),
            Err(e) => Err(e),
        }
    }

    /// Point lookup by ISO date text, as the read API receives it.
    pub fn get_day_rates(&self, day: &str) -> (r: Result<Option<Date>, Error>)
        ensures
            match r {
                Ok(Some(s)) => has_date(day@) && snap_wf(s@) && self@.contains_key(
                    key_of_date(date_of_value(day@)),
                ) && self@[key_of_date(date_of_value(day@))] == record_of(s@),
                Ok(None) => has_date(day@) && !self@.contains_key(
                    key_of_date(date_of_value(day@)),
                ),
                Err(e) => {
                    ||| (e == Error::InvalidDateFormat && !has_date(day@))
                    ||| (e == Error::StoreIO && has_date(day@))
                    ||| (e == Error::StoreCorrupt && has_date(day@) && self@.contains_key(
                        key_of_date(date_of_value(day@)),
                    ) && (forall|sv: SnapView|
                        snap_wf(sv) ==> self@[key_of_date(date_of_value(day@))] != record_of(sv)))
                },
            },
            !has_date(day@) ==> r == Err::<Option<Date>, Error>(Error::InvalidDateFormat),
    {
        let d = match parse_iso_date(day) {
            Some(d) => d,
            None => {
                return Err(Error::InvalidDateFormat);
            },
        };
        proof {
            lemma_date_of_value(d);
        }
        self.get(&d)
    }

    /// Ascending scan of the stored snapshots between `start` and
    /// `end`, inclusive: exactly the dates in the window that the store
    /// holds, each equal to its stored record, in calendar order.  An
    /// empty window is a normal empty result; a key or record in the
    /// window that is no date-keyed snapshot fails the scan.
    #[verifier::rlimit(80)]
    pub fn get_range_rates(&self, start: &CalendarDate, end: &CalendarDate) -> (r: Result<
        Vec<Date>,
        Error,
    >)
        requires
            start.valid(),
            end.valid(),
        ensures
            match r {
                Ok(v) => range_result_ok(self@, *start, *end, v@) && range_clean(
                    self@,
                    key_of_date(*start),
                    key_of_date(*end),
                ),
                Err(e) => e == Error::StoreIO || ((e == Error::MalformedKey || e
                    == Error::StoreCorrupt) && !range_clean(
                    self@,
                    key_of_date(*start),
                    key_of_date(*end),
                )),
            },
    {
        let lo = encode_date_key(start);
        let hi = encode_date_key(end);
        let pairs = match sled_range(&self.tree, &lo, &hi) {
            Ok(p) => p,
            Err(_) => {
                return Err(Error::StoreIO);
            },
        };
        let ghost m = self@;
        let mut out: Vec<Date> = Vec::new();
        let n = pairs.len();
        let mut i: usize = 0;
        while i < n
            invariant
                i <= n,
                n == pairs@.len(),
                m == self@,
                lo@ == key_of_date(*start),
                hi@ == key_of_date(*end),
                start.valid(),
                end.valid(),
                forall|k: int|
                    0 <= k < n ==> lex_le(lo@, (#[trigger] pairs@[k]).0@) && lex_le(
                        pairs@[k].0@,
                        hi@,
                    ) && m.contains_key(pairs@[k].0@) && pairs@[k].1@ == m[pairs@[k].0@],
                forall|k: int, l: int|
                    0 <= k < l < n ==> lex_lt((#[trigger] pairs@[k]).0@, (#[trigger] pairs@[l]).0@),
                forall|k: Seq<u8>|
                    m.contains_key(k) && lex_le(lo@, k) && lex_le(k, hi@) ==> exists|x: int|
                        0 <= x < n && (#[trigger] pairs@[x]).0@ == k,
                out@.len() == i,
                forall|k: int|
                    0 <= k < i ==> {
                        let sv = (#[trigger] out@[k])@;
                        &&& snap_wf(sv)
                        &&& snap_date(sv).valid()
                        &&& m[pairs@[k].0@] == record_of(sv)
                        &&& pairs@[k].0@ == key_of_date(snap_date(sv))
                    },
            decreases n - i,
        {
            let key_bytes = &pairs[i].0;
            let dk = match decode_date_key(key_bytes.as_slice()) {
                Ok(dk) => dk,
                Err(_) => {
                    proof {
                        let k = pairs@[i as int].0@;
                        assert(m.contains_key(k) && lex_le(lo@, k) && lex_le(k, hi@));
                        if range_clean(m, lo@, hi@) {
                            let sv = choose|sv: SnapView|
                                snap_wf(sv) && m[k] == record_of(sv) && k == key_of_date(
                                    snap_date(sv),
                                );
                            lemma_snap_date_valid(sv);
                        }
                    }
                    return Err(Error::MalformedKey);
                },
            };
            let s = match decode_record(pairs[i].1.as_slice()) {
                Ok(s) => s,
                Err(_) => {
                    proof {
                        let k = pairs@[i as int].0@;
                        assert(m.contains_key(k) && lex_le(lo@, k) && lex_le(k, hi@));
                    }
                    return Err(Error::StoreCorrupt);
                },
            };
            let sd = match s.value_as_date() {
                Ok(x) => x,
                Err(_) => {
                    proof {
                        assert(false);
                    }
                    return Err(Error::StoreCorrupt);
                },
            };
            if sd == dk {
                out.push(s);
            } else {
                proof {
                    let k = pairs@[i as int].0@;
                    assert(m.contains_key(k) && lex_le(lo@, k) && lex_le(k, hi@));
                    if range_clean(m, lo@, hi@) {
                        let sv = choose|sv: SnapView|
                            snap_wf(sv) && m[k] == record_of(sv) && k == key_of_date(snap_date(sv));
                        lemma_record_injective(s@, sv);
                        lemma_snap_date_valid(sv);
                        lemma_key_of_date_injective(snap_date(sv), dk);
                    }
                }
                return Err(Error::StoreCorrupt);
            }
            i = i + 1;
        }
        proof {
            lemma_range_result(m, *start, *end, pairs@, out@);
        }
        Ok(out)
    }
}

/// What a successful range scan returns: exactly the dates in the
/// window that the store holds, each snapshot equal to its stored
/// record, in strictly ascending calendar order.
pub open spec fn range_result_ok(
    m: Map<Seq<u8>, Seq<u8>>,
    start: CalendarDate,
    end: CalendarDate,
    v: Seq<Date>,
) -> bool {
    &&& forall|i: int|
        0 <= i < v.len() ==> {
            let sv = (#[trigger] v[i])@;
            &&& snap_wf(sv)
            &&& snap_date(sv).valid()
            &&& date_le(start, snap_date(sv))
            &&& date_le(snap_date(sv), end)
            &&& m.contains_key(key_of_date(snap_date(sv)))
            &&& m[key_of_date(snap_date(sv))] == record_of(sv)
        }
    &&& forall|i: int, j: int|
        0 <= i < j < v.len() ==> date_lt(snap_date((#[trigger] v[i])@), snap_date((#[trigger] v[j])@))
    &&& forall|d: CalendarDate|
        d.valid() && date_le(start, d) && date_le(d, end) && #[trigger] m.contains_key(
            key_of_date(d),
        ) ==> exists|i: int| 0 <= i < v.len() && snap_date((#[trigger] v[i])@) == d
}

/// Lifts the raw scan's key facts to the date-level contract of
/// `get_range_rates`.
proof fn lemma_range_result(
    m: Map<Seq<u8>, Seq<u8>>,
    start: CalendarDate,
    end: CalendarDate,
    pairs: Seq<(Vec<u8>, Vec<u8>)>,
    out: Seq<Date>,
)
    requires
        start.valid(),
        end.valid(),
        out.len() == pairs.len(),
        forall|k: int|
            0 <= k < pairs.len() ==> lex_le(key_of_date(start), (#[trigger] pairs[k]).0@)
                && lex_le(pairs[k].0@, key_of_date(end)) && m.contains_key(pairs[k].0@),
        forall|k: int, l: int|
            0 <= k < l < pairs.len() ==> lex_lt((#[trigger] pairs[k]).0@, (#[trigger] pairs[l]).0@),
        forall|k: Seq<u8>|
            m.contains_key(k) && lex_le(key_of_date(start), k) && lex_le(k, key_of_date(end))
                ==> exists|x: int| 0 <= x < pairs.len() && (#[trigger] pairs[x]).0@ == k,
        forall|k: int|
            0 <= k < out.len() ==> {
                let sv = (#[trigger] out[k])@;
                &&& snap_wf(sv)
                &&& snap_date(sv).valid()
                &&& m[pairs[k].0@] == record_of(sv)
                &&& pairs[k].0@ == key_of_date(snap_date(sv))
            },
    ensures
        range_result_ok(m, start, end, out),
        range_clean(m, key_of_date(start), key_of_date(end)),
{
    assert forall|k: Seq<u8>|
        m.contains_key(k) && lex_le(key_of_date(start), k) && lex_le(
            k,
            key_of_date(end),
        ) implies exists|sv: SnapView|
        snap_wf(sv) && m[k] == record_of(sv) && k == key_of_date(snap_date(sv)) by {
        let x = choose|x: int| 0 <= x < pairs.len() && (#[trigger] pairs[x]).0@ == k;
        let sv = out[x]@;
        assert(snap_wf(sv) && m[k] == record_of(sv) && k == key_of_date(snap_date(sv)));
    }
    assert forall|a: int, b: int| 0 <= a < b < out.len() implies date_lt(
        snap_date((#[trigger] out[a])@),
        snap_date((#[trigger] out[b])@),
    ) by {
        let da = snap_date(out[a]@);
        let db = snap_date(out[b]@);
        assert(lex_lt(key_of_date(da), key_of_date(db)));
        lemma_lex_irreflexive(key_of_date(da));
        if da == db {
        } else if date_lt(db, da) {
            lemma_key_order(db, da);
            lemma_lex_asymmetric(key_of_date(db), key_of_date(da));
        }
    }
    assert forall|k: int| 0 <= k < out.len() implies date_le(start, snap_date((#[trigger] out[k])@))
        && date_le(snap_date(out[k]@), end) by {
        let dk = snap_date(out[k]@);
        lemma_key_le_to_date_le(start, dk);
        lemma_key_le_to_date_le(dk, end);
    }
    assert forall|d: CalendarDate|
        d.valid() && date_le(start, d) && date_le(d, end) && #[trigger] m.contains_key(
            key_of_date(d),
        ) implies exists|i: int| 0 <= i < out.len() && snap_date((#[trigger] out[i])@) == d by {
        if date_lt(start, d) {
            lemma_key_order(start, d);
        }
        if date_lt(d, end) {
            lemma_key_order(d, end);
        }
        assert(lex_le(key_of_date(start), key_of_date(d)) && lex_le(
            key_of_date(d),
            key_of_date(end),
        ));
        let x = choose|x: int| 0 <= x < pairs.len() && (#[trigger] pairs[x]).0@ == key_of_date(d);
        lemma_key_of_date_injective(snap_date(out[x]@), d);
        assert(snap_date(out[x]@) == d);
    }
}

/// A well-formed snapshot's date is a valid date.
pub proof fn lemma_snap_date_valid(sv: SnapView)
    requires
        snap_wf(sv),
    ensures
        snap_date(sv).valid(),
        sv.value == iso_chars(snap_date(sv)),
{
    let d = choose|d: CalendarDate| d.valid() && sv.value == iso_chars(d);
    lemma_date_of_value(d);
}

} // verus!
