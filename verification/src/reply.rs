use vstd::prelude::*;

use crate::date::CalendarDate;
use crate::date::date_lt;
use crate::date::iso_chars;
use crate::date::parse_iso_date;
use crate::error::Error;
use crate::snapshot::Currency;
use crate::snapshot::Date;
use crate::snapshot::SnapView;
use crate::snapshot::RATE_ONE;
use crate::snapshot::eur_name;
use crate::snapshot::eur_string;
use crate::snapshot::rates_of;

verus! {

/// A reply that is either JSON (the API) or HTML (the index page); the
/// unverified web layer gives each arm its response conversion.
pub enum RecoverReply<A, B> {
    Json(A),
    Html(B),
}

/// The HTTP status code the API answers for each error: bad request
/// for a malformed query, not found for a missing day, internal server
/// error for store and source faults.
pub open spec fn status_spec(e: Error) -> u16 {
    match e {
        Error::InvalidDateFormat => 400,
        Error::PastDate => 400,
        Error::InvalidSymbol => 400,
        Error::MissingDateBoundaries => 400,
        Error::InvalidDateRange => 400,
        Error::InvalidBase => 400,
        Error::EmpyDataset => 400,
        Error::DateNotFound => 404,
        _ => 500,
    }
}

pub fn status_for(e: &Error) -> (code: u16)
    ensures
        code == status_spec(*e),
{
    match e {
        Error::InvalidDateFormat => 400,
        Error::PastDate => 400,
        Error::InvalidSymbol => 400,
        Error::MissingDateBoundaries => 400,
        Error::InvalidDateRange => 400,
        Error::InvalidBase => 400,
        Error::EmpyDataset => 400,
        Error::DateNotFound => 404,
        _ => 500,
    }
}

/// The operator-facing text of each error.
pub open spec fn message_spec(e: Error) -> Seq<char> {
    match e {
        Error::MalformedKey => "on-disk key is not a validly encoded date"@,
        Error::StoreCorrupt => "pointer or snapshot invariant violated in the store"@,
        Error::StoreIO => "storage engine failure"@,
        Error::SourceUnavailable => "remote fetch failed or returned no data"@,
        Error::SourceRegressed => "remote latest date is older than the local current date"@,
        Error::DateNotFound => "no currencies found for that date"@,
        Error::PastDate => "there are no currency rates for dates older than 1999-01-04"@,
        Error::InvalidDateRange => "start_at must be older than end_at"@,
        Error::InvalidDateFormat => "dates must be in the format %Y-%m-%d"@,
        Error::InvalidBase => "invalid base currency"@,
        Error::EmpyDataset => "empty currency dataset, should have at least 1 element"@,
        Error::InvalidSymbol => "symbol list contains invalid symbols"@,
        Error::MissingDateBoundaries => "both start_at and end_at parameters must be present"@,
    }
}

impl Error {
    pub fn message(&self) -> (r: String)
        ensures
            r@ == message_spec(*self),
    {
        match self {
            Error::MalformedKey => String::from_str("on-disk key is not a validly encoded date"),
            Error::StoreCorrupt => String::from_str(
                "pointer or snapshot invariant violated in the store",
            ),
            Error::StoreIO => String::from_str("storage engine failure"),
            Error::SourceUnavailable => String::from_str("remote fetch failed or returned no data"),
            Error::SourceRegressed => String::from_str(
                "remote latest date is older than the local current date",
            ),
            Error::DateNotFound => String::from_str("no currencies found for that date"),
            Error::PastDate => String::from_str(
                "there are no currency rates for dates older than 1999-01-04",
            ),
            Error::InvalidDateRange => String::from_str("start_at must be older than end_at"),
            Error::InvalidDateFormat => String::from_str("dates must be in the format %Y-%m-%d"),
            Error::InvalidBase => String::from_str("invalid base currency"),
            Error::EmpyDataset => String::from_str(
                "empty currency dataset, should have at least 1 element",
            ),
            Error::InvalidSymbol => String::from_str("symbol list contains invalid symbols"),
            Error::MissingDateBoundaries => String::from_str(
                "both start_at and end_at parameters must be present",
            ),
        }
    }
}

/// The earliest date the published series covers; queries before it are
/// rejected at the API boundary.
pub fn series_start() -> (d: CalendarDate)
    ensures
        d == (CalendarDate { year: 1999, month: 1, day: 4 }),
        d.valid(),
{
    CalendarDate { year: 1999, month: 1, day: 4 }
}

/// Checks a single-day query: the text must be a date, and not before
/// the start of the series.
pub fn validate_day_query(date: &str) -> (r: Result<CalendarDate, Error>)
    ensures
        match r {
            Ok(d) => d.valid() && date@ == iso_chars(d) && !date_lt(
                d,
                CalendarDate { year: 1999, month: 1, day: 4 },
            ),
            Err(e) => {
                ||| (e == Error::InvalidDateFormat && (forall|d: CalendarDate|
                    d.valid() ==> date@ != iso_chars(d)))
                ||| (e == Error::PastDate && (exists|d: CalendarDate|
                    d.valid() && date@ == iso_chars(d) && date_lt(
                        d,
                        CalendarDate { year: 1999, month: 1, day: 4 },
                    )))
            },
        },
{
    let d = match parse_iso_date(date) {
        Some(d) => d,
        None => {
            return Err(Error::InvalidDateFormat);
        },
    };
    let start = series_start();
    if d.before(&start) {
        return Err(Error::PastDate);
    }
    Ok(d)
}

/// Checks a history query's boundaries in a fixed order: both present,
/// the start a date, the end a date, the start not before the series,
/// the end not before the start.  On a query with several defects the
/// earliest failed check names the error.
pub fn validate_history_range(start_at: &Option<String>, end_at: &Option<String>) -> (r: Result<
    (CalendarDate, CalendarDate),
    Error,
>)
    ensures
        match r {
            Ok((s, e)) => {
                &&& start_at matches Some(st) && s.valid() && st@ == iso_chars(s)
                &&& end_at matches Some(en) && e.valid() && en@ == iso_chars(e)
                &&& !date_lt(s, CalendarDate { year: 1999, month: 1, day: 4 })
                &&& !date_lt(e, s)
            },
            Err(err) => {
                ||| (err == Error::MissingDateBoundaries && (start_at is None || end_at is None))
                ||| (err == Error::InvalidDateFormat && (start_at matches Some(st) && end_at
                    matches Some(en) && forall|d: CalendarDate|
                    d.valid() ==> st@ != iso_chars(d)))
                ||| (err == Error::InvalidDateFormat && (start_at matches Some(st) && end_at
                    matches Some(en) && (exists|d: CalendarDate|
                    d.valid() && st@ == iso_chars(d)) && (forall|d: CalendarDate|
                    d.valid() ==> en@ != iso_chars(d))))
                ||| (err == Error::PastDate && (start_at matches Some(st) && end_at matches Some(
                    en,
                ) && exists|ds: CalendarDate, de: CalendarDate|
                    ds.valid() && de.valid() && st@ == iso_chars(ds) && en@ == iso_chars(de)
                        && date_lt(ds, CalendarDate { year: 1999, month: 1, day: 4 })))
                ||| (err == Error::InvalidDateRange && (start_at matches Some(st) && end_at
                    matches Some(en) && exists|ds: CalendarDate, de: CalendarDate|
                    ds.valid() && de.valid() && st@ == iso_chars(ds) && en@ == iso_chars(de)
                        && !date_lt(ds, CalendarDate { year: 1999, month: 1, day: 4 })
                        && date_lt(de, ds)))
            },
        },
{
    let st = match start_at {
        Some(st) => st,
        None => {
            return Err(Error::MissingDateBoundaries);
        },
    };
    let en = match end_at {
        Some(en) => en,
        None => {
            return Err(Error::MissingDateBoundaries);
        },
    };
    let s = match parse_iso_date(st.as_str()) {
        Some(d) => d,
        None => {
            return Err(Error::InvalidDateFormat);
        },
    };
    let e = match parse_iso_date(en.as_str()) {
        Some(d) => d,
        None => {
            return Err(Error::InvalidDateFormat);
        },
    };
    let start = series_start();
    if s.before(&start) {
        return Err(Error::PastDate);
    }
    if e.before(&s) {
        return Err(Error::InvalidDateRange);
    }
    Ok((s, e))
}

/// Display priority of a currency on the index page: the reference
/// currency first, then the two majors (equal between themselves, so a
/// stable order keeps their incoming order), then everything else.
pub open spec fn currency_priority(name: Seq<char>) -> int {
    if name == seq!['E', 'U', 'R'] {
        0
    } else if name == seq!['U', 'S', 'D'] || name == seq!['G', 'B', 'P'] {
        1
    } else {
        2
    }
}

/// The currencies of priority `p`, in their incoming order.
pub open spec fn priority_bucket(cs: Seq<Currency>, p: int) -> Seq<Currency>
    decreases cs.len(),
{
    if cs.len() == 0 {
        Seq::empty()
    } else if currency_priority(cs.last().name@) == p {
        priority_bucket(cs.drop_last(), p).push(cs.last())
    } else {
        priority_bucket(cs.drop_last(), p)
    }
}

fn priority_of(name: &String) -> (p: u8)
    ensures
        p as int == currency_priority(name@),
{
    proof {
        reveal_strlit("EUR");
        reveal_strlit("USD");
        reveal_strlit("GBP");
    }
    let eur = String::from_str("EUR");
    let usd = String::from_str("USD");
    let gbp = String::from_str("GBP");
    if name.eq(&eur) {
        proof {
            assert(name@ =~= seq!['E', 'U', 'R']);
        }
        0
    } else if name.eq(&usd) {
        proof {
            assert(name@ =~= seq!['U', 'S', 'D']);
        }
        1
    } else if name.eq(&gbp) {
        proof {
            assert(name@ =~= seq!['G', 'B', 'P']);
        }
        1
    } else {
        proof {
            assert(eur@ =~= seq!['E', 'U', 'R']);
            assert(usd@ =~= seq!['U', 'S', 'D']);
            assert(gbp@ =~= seq!['G', 'B', 'P']);
        }
        2
    }
}

fn bucket_pass(src: &Vec<Currency>, out: &mut Vec<Currency>, p: u8)
    requires
        p < 3,
    ensures
        final(out)@ == old(out)@ + priority_bucket(src@, p as int),
{
    let n = src.len();
    let mut i: usize = 0;
    while i < n
        invariant
            i <= n,
            n == src@.len(),
            p < 3,
            out@ == old(out)@ + priority_bucket(src@.take(i as int), p as int),
        decreases n - i,
    {
        let ghost pre = src@.take(i as int);
        let ghost pre1 = src@.take(i as int + 1);
        proof {
            assert(pre1.drop_last() =~= pre);
            assert(pre1.last() == src@[i as int]);
        }
        let c = &src[i];
        if priority_of(&c.name) == p {
            out.push(Currency { name: c.name.clone(), rate: c.rate });
            proof {
                assert(out@ =~= old(out)@ + priority_bucket(pre1, p as int));
            }
        }
        i = i + 1;
    }
    proof {
        assert(src@.take(n as int) =~= src@);
    }
}

/// Orders currencies for display: the reference currency first, then
/// the two majors in their incoming order, then the rest in their
/// incoming order.
pub fn sort_currencies(currencies: &mut Vec<Currency>)
    ensures
        final(currencies)@ == priority_bucket(old(currencies)@, 0) + priority_bucket(
            old(currencies)@,
            1,
        ) + priority_bucket(old(currencies)@, 2),
{
    let mut out: Vec<Currency> = Vec::new();
    bucket_pass(currencies, &mut out, 0);
    bucket_pass(currencies, &mut out, 1);
    bucket_pass(currencies, &mut out, 2);
    *currencies = out;
}

/// The request parameters of the read API: the history window, the
/// base currency to rebase to, and the symbols to keep.
#[derive(Debug)]
pub struct Params {
    pub start_at: Option<String>,
    pub end_at: Option<String>,
    pub base: Option<String>,
    pub symbols: Option<String>,
}

impl Default for Params {
    /// An empty query: no window, no base, no symbols.
    fn default() -> (r: Params)
        ensures
            r.start_at is None,
            r.end_at is None,
            r.base is None,
            r.symbols is None,
    {
        Params { start_at: None, end_at: None, base: None, symbols: None }
    }
}

/// One day of a reply: the date text, the raw bits of the base
/// currency's rate (the divisor the renderer applies), and the selected
/// quotes.
#[derive(Debug)]
pub struct DayRates {
    pub date: String,
    pub base_rate: u64,
    pub rates: Vec<Currency>,
}

/// Everything the renderer needs: whether to answer the single-day or
/// the multi-day shape, the base currency's name, and one entry per
/// requested day.
#[derive(Debug)]
pub struct ReplyPlan {
    pub single: bool,
    pub base: String,
    pub entries: Vec<DayRates>,
}

pub open spec fn comma_free(p: Seq<char>) -> bool {
    forall|i: int| 0 <= i < p.len() ==> p[i] != ','
}

pub open spec fn join_commas(parts: Seq<Seq<char>>) -> Seq<char>
    decreases parts.len(),
{
    if parts.len() == 0 {
        Seq::empty()
    } else if parts.len() == 1 {
        parts[0]
    } else {
        join_commas(parts.drop_last()) + seq![','] + parts.last()
    }
}

/// `parts` is the comma-split of `s`: comma-free pieces that rejoin to
/// it.  Such a decomposition is unique.
pub open spec fn is_split(s: Seq<char>, parts: Seq<Seq<char>>) -> bool {
    &&& parts.len() >= 1
    &&& join_commas(parts) == s
    &&& forall|j: int| 0 <= j < parts.len() ==> comma_free(#[trigger] parts[j])
}

pub open spec fn strs_view(ps: Seq<String>) -> Seq<Seq<char>> {
    Seq::new(ps.len(), |i: int| ps[i]@)
}

pub open spec fn contains_name(currs: Seq<(Seq<char>, u64)>, n: Seq<char>) -> bool {
    exists|i: int| 0 <= i < currs.len() && (#[trigger] currs[i]).0 == n
}

pub open spec fn contains_sym(parts: Seq<Seq<char>>, n: Seq<char>) -> bool {
    exists|j: int| 0 <= j < parts.len() && #[trigger] parts[j] == n
}

/// The first quoted rate for a currency code, as a scan from the front
/// finds it.
pub open spec fn find_rate(currs: Seq<(Seq<char>, u64)>, n: Seq<char>) -> Option<u64>
    decreases currs.len(),
{
    if currs.len() == 0 {
        None
    } else if currs.first().0 == n {
        Some(currs.first().1)
    } else {
        find_rate(currs.drop_first(), n)
    }
}

/// The quotes that survive the symbols filter: all of them when no
/// symbols were asked for, otherwise those whose code was asked for,
/// in their incoming order.
pub open spec fn selected(currs: Seq<(Seq<char>, u64)>, parts: Seq<Seq<char>>) -> Seq<
    (Seq<char>, u64),
>
    decreases currs.len(),
{
    if currs.len() == 0 {
        Seq::empty()
    } else if parts.len() == 0 || contains_sym(parts, currs.last().0) {
        selected(currs.drop_last(), parts).push(currs.last())
    } else {
        selected(currs.drop_last(), parts)
    }
}

/// The divisor for one day: one when no base was asked for, else the
/// day's first quote of the base currency.
pub open spec fn base_rate_spec(sv: SnapView, base: Option<Seq<char>>) -> Option<u64> {
    match base {
        None => Some(RATE_ONE),
        Some(b) => find_rate(sv.rates, b),
    }
}

pub open spec fn all_same_date(dates: Seq<SnapView>) -> bool {
    forall|i: int| 0 <= i < dates.len() ==> (#[trigger] dates[i]).value == dates[0].value
}

pub open spec fn snap_views(dates: Seq<Date>) -> Seq<SnapView> {
    Seq::new(dates.len(), |i: int| dates[i]@)
}

pub open spec fn opt_str_view(o: Option<String>) -> Option<Seq<char>> {
    match o {
        Some(b) => Some(b@),
        None => None,
    }
}

/// What a well-formed reply plan says of its inputs.
pub open spec fn reply_plan_ok(
    dates: Seq<SnapView>,
    base: Option<Seq<char>>,
    parts: Seq<Seq<char>>,
    plan: ReplyPlan,
) -> bool {
    &&& plan.single == all_same_date(dates)
    &&& plan.base@ == (match base {
        Some(b) => b,
        None => eur_name(),
    })
    &&& plan.entries@.len() == dates.len()
    &&& forall|i: int|
        0 <= i < dates.len() ==> {
            let e = #[trigger] plan.entries@[i];
            &&& e.date@ == dates[i].value
            &&& Some(e.base_rate) == base_rate_spec(dates[i], base)
            &&& rates_of(e.rates@) == selected(dates[i].rates, parts)
        }
}

/// The exact outcome of a reply over a non-empty day list: unknown
/// symbols (checked against the first day) are rejected first, then a
/// base missing from any day, and otherwise the plan is as
/// `reply_plan_ok` says.
pub open spec fn reply_outcome(
    dates: Seq<SnapView>,
    base: Option<Seq<char>>,
    parts: Seq<Seq<char>>,
    r: Result<ReplyPlan, Error>,
) -> bool {
    if parts.len() > 0 && (exists|j: int|
        0 <= j < parts.len() && !contains_name(dates[0].rates, #[trigger] parts[j])) {
        r matches Err(e) && e == Error::InvalidSymbol
    } else if exists|i: int|
        0 <= i < dates.len() && base_rate_spec(#[trigger] dates[i], base) is None {
        r matches Err(e) && e == Error::InvalidBase
    } else {
        r matches Ok(plan) && reply_plan_ok(dates, base, parts, plan)
    }
}

/// Splits a symbols parameter at commas; every piece is comma-free and
/// the pieces rejoin to the input, which pins the split down.
pub fn parse_symbols(s: &str) -> (parts: Vec<String>)
    ensures
        is_split(s@, strs_view(parts@)),
{
    let len = s.unicode_len();
    let mut parts: Vec<String> = Vec::new();
    let mut start: usize = 0;
    let mut i: usize = 0;
    while i < len
        invariant
            start <= i <= len,
            len == s@.len(),
            forall|k: int| start <= k < i ==> s@[k] != ',',
            forall|j: int| 0 <= j < parts@.len() ==> comma_free(#[trigger] strs_view(parts@)[j]),
            join_commas(strs_view(parts@).push(s@.subrange(start as int, i as int))) == s@.subrange(
                0,
                i as int,
            ),
        decreases len - i,
    {
        let c = s.get_char(i);
        if c == ',' {
            let piece = s.substring_char(start, i);
            let ghost old_parts = strs_view(parts@);
            parts.push(String::from_str(piece));
            proof {
                assert(strs_view(parts@) =~= old_parts.push(s@.subrange(
                    start as int,
                    i as int,
                )));
                lemma_join_push(old_parts, s@.subrange(start as int, i as int));
                lemma_join_push(strs_view(parts@), Seq::empty());
                assert(s@.subrange(0, i as int) + seq![','] =~= s@.subrange(0, i as int + 1));
                assert(join_commas(strs_view(parts@).push(Seq::empty())) =~= s@.subrange(
                    0,
                    i as int + 1,
                ));
                assert(s@.subrange(i as int + 1, i as int + 1) =~= Seq::<char>::empty());
            }
            start = i + 1;
        } else {
            proof {
                assert(s@.subrange(start as int, i as int + 1) =~= s@.subrange(
                    start as int,
                    i as int,
                ).push(s@[i as int]));
                lemma_join_push(strs_view(parts@), s@.subrange(start as int, i as int));
                lemma_join_push(strs_view(parts@), s@.subrange(start as int, i as int + 1));
                assert(join_commas(strs_view(parts@).push(s@.subrange(
                    start as int,
                    i as int + 1,
                ))) =~= s@.subrange(0, i as int + 1));
            }
        }
        i = i + 1;
    }
    let piece = s.substring_char(start, len);
    let ghost old_parts = strs_view(parts@);
    parts.push(String::from_str(piece));
    proof {
        assert(strs_view(parts@) =~= old_parts.push(s@.subrange(start as int, len as int)));
        assert(s@.subrange(0, len as int) =~= s@);
    }
    parts
}

/// Appending a piece extends the joined text by a comma and the piece,
/// except for the very first piece.
proof fn lemma_join_push(parts: Seq<Seq<char>>, x: Seq<char>)
    ensures
        join_commas(parts.push(x)) == if parts.len() == 0 {
            x
        } else {
            join_commas(parts) + seq![','] + x
        },
{
    if parts.len() == 0 {
        assert(parts.push(x).len() == 1);
        assert(parts.push(x)[0] == x);
    } else {
        assert(parts.push(x).drop_last() =~= parts);
        assert(parts.push(x).last() == x);
    }
}

fn has_currency(list: &Vec<Currency>, name: &String) -> (r: bool)
    ensures
        r == contains_name(rates_of(list@), name@),
{
    let n = list.len();
    let mut i: usize = 0;
    while i < n
        invariant
            i <= n,
            n == list@.len(),
            forall|k: int| 0 <= k < i ==> (#[trigger] rates_of(list@)[k]).0 != name@,
        decreases n - i,
    {
        if list[i].name.eq(name) {
            proof {
                assert(rates_of(list@)[i as int].0 == name@);
            }
            return true;
        }
        i = i + 1;
    }
    false
}

fn contains_string(list: &Vec<String>, name: &String) -> (r: bool)
    ensures
        r == contains_sym(strs_view(list@), name@),
{
    let n = list.len();
    let mut i: usize = 0;
    while i < n
        invariant
            i <= n,
            n == list@.len(),
            forall|k: int| 0 <= k < i ==> (#[trigger] strs_view(list@)[k]) != name@,
        decreases n - i,
    {
        if list[i].eq(name) {
            proof {
                assert(strs_view(list@)[i as int] == name@);
            }
            return true;
        }
        i = i + 1;
    }
    false
}

fn first_rate(list: &Vec<Currency>, name: &String) -> (r: Option<u64>)
    ensures
        r == find_rate(rates_of(list@), name@),
{
    proof {
        assert(rates_of(list@).skip(0) =~= rates_of(list@));
    }
    let n = list.len();
    let mut i: usize = 0;
    while i < n
        invariant
            i <= n,
            n == list@.len(),
            find_rate(rates_of(list@).skip(i as int), name@) == find_rate(rates_of(list@), name@),
        decreases n - i,
    {
        proof {
            assert(rates_of(list@).skip(i as int).first() == rates_of(list@)[i as int]);
            assert(rates_of(list@).skip(i as int).drop_first() =~= rates_of(list@).skip(
                i as int + 1,
            ));
        }
        if list[i].name.eq(name) {
            return Some(list[i].rate);
        }
        i = i + 1;
    }
    proof {
        assert(rates_of(list@).skip(n as int) =~= Seq::<(Seq<char>, u64)>::empty());
    }
    None
}

/// Builds the reply for a non-empty list of days: validates the symbols
/// against the first day, finds each day's base rate, filters each
/// day's quotes, and decides the single-day or multi-day shape (days
/// answering to one date collapse to the single shape, as the response
/// is keyed by date).  The rebasing division itself is the renderer's:
/// it is floating-point work on the raw bits carried here.
pub fn try_reply(dates: &Vec<Date>, params: &Params) -> (r: Result<ReplyPlan, Error>)
    ensures
        dates@.len() == 0 <==> r == Err::<ReplyPlan, Error>(Error::EmpyDataset),
        dates@.len() > 0 ==> (match params.symbols {
            Some(sy) => exists|parts: Seq<Seq<char>>| #[trigger] is_split(sy@, parts)
                && reply_outcome(snap_views(dates@), opt_str_view(params.base), parts, r),
            None => reply_outcome(snap_views(dates@), opt_str_view(params.base), Seq::empty(), r),
        }),
{
    if dates.len() == 0 {
        return Err(Error::EmpyDataset);
    }
    let ghost dviews = snap_views(dates@);
    let ghost gbase = opt_str_view(params.base);
    let parts: Vec<String> = match &params.symbols {
        Some(sy) => parse_symbols(sy.as_str()),
        None => Vec::new(),
    };
    let ghost gparts = strs_view(parts@);
    proof {
        if params.symbols is None {
            assert(gparts =~= Seq::<Seq<char>>::empty());
        }
    }
    let np = parts.len();
    let mut j: usize = 0;
    while j < np
        invariant
            j <= np,
            np == parts@.len(),
            gparts == strs_view(parts@),
            dviews == snap_views(dates@),
            gbase == opt_str_view(params.base),
            dates@.len() > 0,
            params.symbols matches Some(sy) ==> is_split(sy@, gparts),
            params.symbols is None ==> gparts == Seq::<Seq<char>>::empty(),
            forall|k: int| 0 <= k < j ==> contains_name(dviews[0].rates, #[trigger] gparts[k]),
        decreases np - j,
    {
        if !has_currency(&dates[0].currencies, &parts[j]) {
            proof {
                assert(dviews[0] == dates@[0]@);
                assert(!contains_name(dviews[0].rates, gparts[j as int]));
            }
            return Err(Error::InvalidSymbol);
        }
        j = j + 1;
    }
    let base_is_some = params.base.is_some();
    let mut entries: Vec<DayRates> = Vec::new();
    let nd = dates.len();
    let mut i: usize = 0;
    while i < nd
        invariant
            i <= nd,
            nd == dates@.len(),
            nd > 0,
            gparts == strs_view(parts@),
            dviews == snap_views(dates@),
            gbase == opt_str_view(params.base),
            params.symbols matches Some(sy) ==> is_split(sy@, gparts),
            params.symbols is None ==> gparts == Seq::<Seq<char>>::empty(),
            forall|k: int| 0 <= k < gparts.len() ==> contains_name(dviews[0].rates, #[trigger] gparts[k]),
            entries@.len() == i,
            forall|k: int|
                0 <= k < i ==> {
                    let e = #[trigger] entries@[k];
                    &&& e.date@ == dviews[k].value
                    &&& Some(e.base_rate) == base_rate_spec(dviews[k], gbase)
                    &&& rates_of(e.rates@) == selected(dviews[k].rates, gparts)
                },
        decreases nd - i,
    {
        let d = &dates[i];
        proof {
            assert(dviews[i as int] == dates@[i as int]@);
        }
        let base_rate: u64 = match &params.base {
            None => RATE_ONE,
            Some(b) => match first_rate(&d.currencies, b) {
                Some(x) => x,
                None => {
                    proof {
                        assert(base_rate_spec(dviews[i as int], gbase) is None);
                    }
                    return Err(Error::InvalidBase);
                },
            },
        };
        let mut kept: Vec<Currency> = Vec::new();
        let nc = d.currencies.len();
        let mut k: usize = 0;
        while k < nc
            invariant
                k <= nc,
                nc == d.currencies@.len(),
                gparts == strs_view(parts@),
                d@ == dates@[i as int]@ && 0 <= i < dates@.len(),
                rates_of(kept@) == selected(rates_of(d.currencies@).take(k as int), gparts),
            decreases nc - k,
        {
            let ghost pre = rates_of(d.currencies@).take(k as int);
            let ghost pre1 = rates_of(d.currencies@).take(k as int + 1);
            proof {
                assert(pre1.drop_last() =~= pre);
                assert(pre1.last() == rates_of(d.currencies@)[k as int]);
            }
            let keep = if parts.len() == 0 {
                true
            } else {
                contains_string(&parts, &d.currencies[k].name)
            };
            if keep {
                kept.push(
                    Currency { name: d.currencies[k].name.clone(), rate: d.currencies[k].rate },
                );
                proof {
                    assert(rates_of(kept@) =~= selected(pre, gparts).push(rates_of(
                        d.currencies@,
                    )[k as int]));
                }
            }
            k = k + 1;
        }
        proof {
            assert(rates_of(d.currencies@).take(nc as int) =~= rates_of(d.currencies@));
            assert(rates_of(d.currencies@) == dviews[i as int].rates);
        }
        entries.push(DayRates { date: d.value.clone(), base_rate, rates: kept });
        i = i + 1;
    }
    let mut single = true;
    let mut t: usize = 1;
    while t < nd
        invariant
            1 <= t <= nd,
            nd == dates@.len(),
            dviews == snap_views(dates@),
            single == (forall|k: int| 0 <= k < t ==> (#[trigger] dviews[k]).value
                == dviews[0].value),
        decreases nd - t,
    {
        let same = dates[t].value.eq(&dates[0].value);
        proof {
            assert(dviews[t as int].value == dates@[t as int]@.value);
        }
        single = single && same;
        t = t + 1;
    }
    let base_str: String = match &params.base {
        Some(b) => b.clone(),
        None => eur_string(),
    };
    let plan = ReplyPlan { single, base: base_str, entries };
    proof {
        assert(reply_plan_ok(dviews, gbase, gparts, plan));
        assert forall|ii: int| 0 <= ii < dviews.len() implies (base_rate_spec(
            #[trigger] dviews[ii],
            gbase,
        ) is Some) by {
            assert(Some(plan.entries@[ii].base_rate) == base_rate_spec(dviews[ii], gbase));
        }
        assert(reply_outcome(dviews, gbase, gparts, Ok(plan)));
    }
    Ok(plan)
}

} // verus!
