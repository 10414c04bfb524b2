use vstd::prelude::*;

use crate::date::CalendarDate;
use crate::date::iso_chars;
use crate::date::lemma_iso_chars_injective;
use crate::date::parse_iso_date;
use crate::error::Error;

verus! {

/// The IEEE-754 bit pattern of the rate 1.0, the reference currency's
/// rate relative to itself.  Rates live in the store as raw `f64` bits;
/// the unverified boundary converts them with `f64::to_bits` and
/// `f64::from_bits`, which lose nothing.
pub const RATE_ONE: u64 = 0x3FF0000000000000;

/// One quoted rate: a three-letter uppercase currency code and the raw
/// bits of its (positive) rate relative to the reference currency.
#[derive(Clone, Debug)]
pub struct Currency {
    pub name: String,
    pub rate: u64,
}

/// All known exchange rates for one calendar date.  `value` holds the
/// date as canonical ISO-8601 text, as it arrives from the remote
/// source and as it is serialized.
#[derive(Clone, Debug)]
pub struct Date {
    pub value: String,
    pub currencies: Vec<Currency>,
}

/// The mathematical shape of a snapshot: the date text and the quoted
/// rates, in order.
pub struct SnapView {
    pub value: Seq<char>,
    pub rates: Seq<(Seq<char>, u64)>,
}

impl View for Currency {
    type V = (Seq<char>, u64);

    open spec fn view(&self) -> (Seq<char>, u64) {
        (self.name@, self.rate)
    }
}

/// The rate entries of a currency list, as the model sees them.
pub open spec fn rates_of(cs: Seq<Currency>) -> Seq<(Seq<char>, u64)> {
    Seq::new(cs.len(), |i: int| (cs[i].name@, cs[i].rate))
}

impl View for Date {
    type V = SnapView;

    open spec fn view(&self) -> SnapView {
        SnapView { value: self.value@, rates: rates_of(self.currencies@) }
    }
}

impl PartialEq for Currency {
    fn eq(&self, other: &Currency) -> (r: bool) {
        self.name.eq(&other.name) && self.rate == other.rate
    }
}

impl vstd::std_specs::cmp::PartialEqSpecImpl for Currency {
    open spec fn obeys_eq_spec() -> bool {
        true
    }

    open spec fn eq_spec(&self, other: &Currency) -> bool {
        self.name@ == other.name@ && self.rate == other.rate
    }
}

impl PartialEq for Date {
    fn eq(&self, other: &Date) -> (r: bool) {
        if !self.value.eq(&other.value) {
            return false;
        }
        let n = self.currencies.len();
        if n != other.currencies.len() {
            proof {
                assert(rates_of(self.currencies@).len() != rates_of(other.currencies@).len());
            }
            return false;
        }
        let mut i: usize = 0;
        while i < n
            invariant
                i <= n,
                n == self.currencies@.len(),
                n == other.currencies@.len(),
                self.value@ == other.value@,
                forall|k: int|
                    0 <= k < i ==> (#[trigger] rates_of(self.currencies@)[k]) == rates_of(
                        other.currencies@,
                    )[k],
            decreases n - i,
        {
            let a = &self.currencies[i];
            let b = &other.currencies[i];
            if !(a.name.eq(&b.name) && a.rate == b.rate) {
                proof {
                    assert(rates_of(self.currencies@)[i as int] != rates_of(
                        other.currencies@,
                    )[i as int]);
                }
                return false;
            }
            i = i + 1;
        }
        proof {
            assert(rates_of(self.currencies@) =~= rates_of(other.currencies@));
        }
        true
    }
}

impl vstd::std_specs::cmp::PartialEqSpecImpl for Date {
    open spec fn obeys_eq_spec() -> bool {
        true
    }

    open spec fn eq_spec(&self, other: &Date) -> bool {
        self.value@ == other.value@ && rates_of(self.currencies@) == rates_of(other.currencies@)
    }
}

/// The reference currency's code.
pub open spec fn eur_name() -> Seq<char> {
    seq!['E', 'U', 'R']
}

/// A currency code: exactly three uppercase ASCII letters.
pub open spec fn wf_name(n: Seq<char>) -> bool {
    n.len() == 3 && (forall|i: int| 0 <= i < 3 ==> 'A' <= #[trigger] n[i] <= 'Z')
}

/// Whether some valid date renders to this text.
pub open spec fn has_date(v: Seq<char>) -> bool {
    exists|d: CalendarDate| d.valid() && v == iso_chars(d)
}

/// The date whose ISO text `v` is; meaningful only under `has_date(v)`,
/// where it is unique.
pub open spec fn date_of_value(v: Seq<char>) -> CalendarDate {
    choose|d: CalendarDate| d.valid() && v == iso_chars(d)
}

/// The ISO text of a valid date names that date and no other.
pub proof fn lemma_date_of_value(d: CalendarDate)
    requires
        d.valid(),
    ensures
        has_date(iso_chars(d)),
        date_of_value(iso_chars(d)) == d,
{
    assert(has_date(iso_chars(d)));
    lemma_iso_chars_injective(date_of_value(iso_chars(d)), d);
}

/// A structurally sound snapshot: a real date, well-formed currency
/// codes, and no code quoted twice.
pub open spec fn snap_wf(s: SnapView) -> bool {
    &&& has_date(s.value)
    &&& forall|i: int| 0 <= i < s.rates.len() ==> wf_name(#[trigger] s.rates[i].0)
    &&& forall|i: int, j: int|
        0 <= i < j < s.rates.len() ==> (#[trigger] s.rates[i].0) != (#[trigger] s.rates[j].0)
}

pub open spec fn snap_date(s: SnapView) -> CalendarDate {
    date_of_value(s.value)
}

/// The storage-layer invariant on a snapshot: sound, and the reference
/// currency is present with rate exactly one.
pub open spec fn snap_committed(s: SnapView) -> bool {
    snap_wf(s) && exists|i: int|
        0 <= i < s.rates.len() && #[trigger] s.rates[i] == (eur_name(), RATE_ONE)
}

impl Date {
    /// The snapshot's date, parsed from its ISO text.
    pub fn value_as_date(&self) -> (r: Result<CalendarDate, Error>)
        ensures
            match r {
                Ok(d) => d.valid() && self.value@ == iso_chars(d) && has_date(self.value@)
                    && snap_date(self@) == d,
                Err(e) => e == Error::InvalidDateFormat && !has_date(self.value@),
            },
    {
        match parse_iso_date(self.value.as_str()) {
            Some(d) => {
                proof {
                    lemma_date_of_value(d);
                }
                Ok(d)
            },
            None => {
                proof {
                    assert forall|d: CalendarDate| d.valid() implies self.value@ != iso_chars(
                        d,
                    ) by {}
                }
                Err(Error::InvalidDateFormat)
            },
        }
    }
}

/// `rates` with every entry for the reference currency removed,
/// otherwise in order.
pub open spec fn drop_eur(rs: Seq<(Seq<char>, u64)>) -> Seq<(Seq<char>, u64)>
    decreases rs.len(),
{
    if rs.len() == 0 {
        Seq::empty()
    } else if rs.last().0 == eur_name() {
        drop_eur(rs.drop_last())
    } else {
        drop_eur(rs.drop_last()).push(rs.last())
    }
}

/// What self-rate injection leaves behind: the original rates minus any
/// reference-currency entry, then the synthetic reference entry.
pub open spec fn injected(s: SnapView) -> SnapView {
    SnapView { value: s.value, rates: drop_eur(s.rates).push((eur_name(), RATE_ONE)) }
}

/// Every entry that `drop_eur` keeps is an entry of the input, none of
/// them names the reference currency, and soundness carries over.
proof fn lemma_drop_eur(rs: Seq<(Seq<char>, u64)>)
    ensures
        forall|i: int| 0 <= i < drop_eur(rs).len() ==> (#[trigger] drop_eur(rs)[i]).0 != eur_name(),
        forall|i: int|
            0 <= i < drop_eur(rs).len() ==> exists|j: int|
                0 <= j < rs.len() && #[trigger] drop_eur(rs)[i] == rs[j],
        drop_eur(rs).len() <= rs.len(),
        (forall|i: int| 0 <= i < rs.len() ==> wf_name(#[trigger] rs[i].0)) ==> (forall|i: int|
            0 <= i < drop_eur(rs).len() ==> wf_name(#[trigger] drop_eur(rs)[i].0)),
        (forall|i: int, j: int|
            0 <= i < j < rs.len() ==> (#[trigger] rs[i].0) != (#[trigger] rs[j].0)) ==> (forall|
            i: int,
            j: int,
        |
            0 <= i < j < drop_eur(rs).len() ==> (#[trigger] drop_eur(rs)[i].0) != (#[trigger]
            drop_eur(rs)[j].0)),
    decreases rs.len(),
{
    if rs.len() > 0 {
        lemma_drop_eur(rs.drop_last());
        assert(forall|i: int|
            0 <= i < rs.len() - 1 ==> #[trigger] rs.drop_last()[i] == rs[i]);
    }
}

/// Injection preserves soundness and establishes the committed
/// invariant: the reference currency is present with rate one,
/// unconditionally, whatever the remote payload held.
pub proof fn lemma_injected_committed(s: SnapView)
    requires
        snap_wf(s),
    ensures
        snap_committed(injected(s)),
        snap_date(injected(s)) == snap_date(s),
        injected(s).value == s.value,
{
    lemma_drop_eur(s.rates);
    let out = injected(s).rates;
    assert(out.last() == (eur_name(), RATE_ONE));
    assert(wf_name(eur_name()));
    assert forall|i: int, j: int| 0 <= i < j < out.len() implies (#[trigger] out[i].0)
        != (#[trigger] out[j].0) by {
        if j == out.len() - 1 {
            assert(out[i] == drop_eur(s.rates)[i]);
        } else {
            assert(out[i] == drop_eur(s.rates)[i]);
            assert(out[j] == drop_eur(s.rates)[j]);
        }
    }
    assert(exists|i: int|
        0 <= i < out.len() && #[trigger] out[i] == (eur_name(), RATE_ONE)) by {
        assert(out[out.len() - 1] == (eur_name(), RATE_ONE));
    }
}

/// Removes any reference-currency entries and appends the synthetic
/// self-rate, so that every committed snapshot quotes the reference
/// currency at exactly one.
pub fn with_self_rate(s: &Date) -> (r: Date)
    ensures
        r@ == injected(s@),
{
    let eur: String = eur_string();
    let mut kept: Vec<Currency> = Vec::new();
    let n = s.currencies.len();
    let mut i: usize = 0;
    while i < n
        invariant
            0 <= i <= n,
            n == s.currencies@.len(),
            kept@.len() <= i,
            eur@ == eur_name(),
            Seq::new(kept@.len(), |k: int| (kept@[k].name@, kept@[k].rate)) == drop_eur(
                Seq::new(i as nat, |k: int| (s.currencies@[k].name@, s.currencies@[k].rate)),
            ),
        decreases n - i,
    {
        let ghost prefix = Seq::new(i as nat, |k: int| (s.currencies@[k].name@,
            s.currencies@[k].rate));
        let ghost prefix1 = Seq::new((i + 1) as nat, |k: int| (s.currencies@[k].name@,
            s.currencies@[k].rate));
        proof {
            assert(prefix1.drop_last() =~= prefix);
        }
        let c = &s.currencies[i];
        if !c.name.eq(&eur) {
            kept.push(Currency { name: c.name.clone(), rate: c.rate });
            proof {
                assert(Seq::new(kept@.len(), |k: int| (kept@[k].name@, kept@[k].rate))
                    =~= drop_eur(prefix).push((s.currencies@[i as int].name@,
                    s.currencies@[i as int].rate)));
            }
        } else {
            proof {
                assert(Seq::new(kept@.len(), |k: int| (kept@[k].name@, kept@[k].rate))
                    =~= drop_eur(prefix1));
            }
        }
        i = i + 1;
    }
    kept.push(Currency { name: eur, rate: RATE_ONE });
    let r = Date { value: s.value.clone(), currencies: kept };
    proof {
        assert(Seq::new(s.currencies@.len(), |k: int| (s.currencies@[k].name@,
            s.currencies@[k].rate)) =~= s@.rates);
        assert(r@.rates =~= injected(s@).rates);
    }
    r
}

/// The reference currency's code as a string.
pub fn eur_string() -> (r: String)
    ensures
        r@ == eur_name(),
{
    proof {
        reveal_strlit("EUR");
    }
    let r = String::from_str("EUR");
    proof {
        assert(r@ =~= eur_name());
    }
    r
}

} // verus!
