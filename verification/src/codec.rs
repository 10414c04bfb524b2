use vstd::prelude::*;

use crate::date::CalendarDate;
use crate::date::day_number;
use crate::date::date_lt;
use crate::date::days_before_year;
use crate::date::lemma_day_number_strict_mono;
use crate::date::lemma_day_number_injective;
use crate::date::lemma_day_number_limit;
use crate::date::lemma_days_before_year_bound;
use crate::date::date_from_day_index;
use crate::date::parse_iso_date;
use crate::date::iso_chars;
use crate::error::Error;

verus! {

/// Seconds in one day; a date's key is its midnight-UTC timestamp.
pub const SECONDS_PER_DAY: u64 = 86400;

/// Strict lexicographic order on byte strings, as the storage engine
/// compares keys: a proper prefix sorts before its extensions.
pub open spec fn lex_lt(a: Seq<u8>, b: Seq<u8>) -> bool
    decreases a.len(),
{
    if b.len() == 0 {
        false
    } else if a.len() == 0 {
        true
    } else if a[0] < b[0] {
        true
    } else if a[0] > b[0] {
        false
    } else {
        lex_lt(a.drop_first(), b.drop_first())
    }
}

pub open spec fn lex_le(a: Seq<u8>, b: Seq<u8>) -> bool {
    lex_lt(a, b) || a == b
}

pub proof fn lemma_lex_irreflexive(a: Seq<u8>)
    ensures
        !lex_lt(a, a),
    decreases a.len(),
{
    if a.len() > 0 {
        lemma_lex_irreflexive(a.drop_first());
    }
}

pub proof fn lemma_lex_asymmetric(a: Seq<u8>, b: Seq<u8>)
    requires
        lex_lt(a, b),
    ensures
        !lex_lt(b, a),
        a != b,
    decreases a.len(),
{
    lemma_lex_irreflexive(a);
    if a.len() > 0 && b.len() > 0 && a[0] == b[0] {
        lemma_lex_asymmetric(a.drop_first(), b.drop_first());
    }
}

/// Byte strings that agree up to position `i` and differ there compare
/// by that position.
proof fn lemma_lex_lt_at(a: Seq<u8>, b: Seq<u8>, i: int)
    requires
        0 <= i < a.len(),
        i < b.len(),
        forall|j: int| 0 <= j < i ==> a[j] == b[j],
        a[i] < b[i],
    ensures
        lex_lt(a, b),
    decreases i,
{
    if i > 0 {
        lemma_lex_lt_at(a.drop_first(), b.drop_first(), i - 1);
    }
}

/// The eight big-endian bytes of a 64-bit integer.
pub open spec fn be_bytes(x: u64) -> Seq<u8> {
    seq![
        (x >> 56) as u8,
        (x >> 48) as u8,
        (x >> 40) as u8,
        (x >> 32) as u8,
        (x >> 24) as u8,
        (x >> 16) as u8,
        (x >> 8) as u8,
        x as u8,
    ]
}

pub fn u64_to_be(x: u64) -> (r: Vec<u8>)
    ensures
        r@ == be_bytes(x),
{
    let mut r: Vec<u8> = Vec::new();
    r.push((x >> 56) as u8);
    r.push((x >> 48) as u8);
    r.push((x >> 40) as u8);
    r.push((x >> 32) as u8);
    r.push((x >> 24) as u8);
    r.push((x >> 16) as u8);
    r.push((x >> 8) as u8);
    r.push(x as u8);
    proof {
        assert(r@ =~= be_bytes(x));
    }
    r
}

pub fn be_to_u64(b: &[u8]) -> (x: u64)
    requires
        b@.len() == 8,
    ensures
        be_bytes(x) == b@,
{
    let x = ((b[0] as u64) << 56) | ((b[1] as u64) << 48) | ((b[2] as u64) << 40) | ((b[3]
        as u64) << 32) | ((b[4] as u64) << 24) | ((b[5] as u64) << 16) | ((b[6] as u64) << 8) | (
    b[7] as u64);
    proof {
        let b0 = b@[0];
        let b1 = b@[1];
        let b2 = b@[2];
        let b3 = b@[3];
        let b4 = b@[4];
        let b5 = b@[5];
        let b6 = b@[6];
        let b7 = b@[7];
        assert((x >> 56) as u8 == b0 && (x >> 48) as u8 == b1 && (x >> 40) as u8 == b2 && (x >> 32)
            as u8 == b3 && (x >> 24) as u8 == b4 && (x >> 16) as u8 == b5 && (x >> 8) as u8 == b6
            && x as u8 == b7) by (bit_vector)
            requires
                x == ((b0 as u64) << 56) | ((b1 as u64) << 48) | ((b2 as u64) << 40) | ((b3
                    as u64) << 32) | ((b4 as u64) << 24) | ((b5 as u64) << 16) | ((b6 as u64) << 8)
                    | (b7 as u64),
        ;
        assert(be_bytes(x) =~= b@);
    }
    x
}

/// Reads eight big-endian bytes inside a buffer.
pub fn read_be_u64(b: &[u8], off: usize) -> (x: u64)
    requires
        off + 8 <= b@.len(),
    ensures
        be_bytes(x) == b@.subrange(off as int, off as int + 8),
{
    let x = ((b[off] as u64) << 56) | ((b[off + 1] as u64) << 48) | ((b[off + 2] as u64) << 40) | ((
    b[off + 3] as u64) << 32) | ((b[off + 4] as u64) << 24) | ((b[off + 5] as u64) << 16) | ((b[off
        + 6] as u64) << 8) | (b[off + 7] as u64);
    proof {
        let b0 = b@[off as int];
        let b1 = b@[off + 1];
        let b2 = b@[off + 2];
        let b3 = b@[off + 3];
        let b4 = b@[off + 4];
        let b5 = b@[off + 5];
        let b6 = b@[off + 6];
        let b7 = b@[off + 7];
        assert((x >> 56) as u8 == b0 && (x >> 48) as u8 == b1 && (x >> 40) as u8 == b2 && (x >> 32)
            as u8 == b3 && (x >> 24) as u8 == b4 && (x >> 16) as u8 == b5 && (x >> 8) as u8 == b6
            && x as u8 == b7) by (bit_vector)
            requires
                x == ((b0 as u64) << 56) | ((b1 as u64) << 48) | ((b2 as u64) << 40) | ((b3
                    as u64) << 32) | ((b4 as u64) << 24) | ((b5 as u64) << 16) | ((b6 as u64) << 8)
                    | (b7 as u64),
        ;
        assert(be_bytes(x) =~= b@.subrange(off as int, off as int + 8));
    }
    x
}

pub proof fn lemma_be_bytes_injective(x: u64, y: u64)
    requires
        be_bytes(x) == be_bytes(y),
    ensures
        x == y,
{
    assert(be_bytes(x)[0] == be_bytes(y)[0] && be_bytes(x)[1] == be_bytes(y)[1] && be_bytes(x)[2]
        == be_bytes(y)[2] && be_bytes(x)[3] == be_bytes(y)[3] && be_bytes(x)[4] == be_bytes(y)[4]
        && be_bytes(x)[5] == be_bytes(y)[5] && be_bytes(x)[6] == be_bytes(y)[6] && be_bytes(x)[7]
        == be_bytes(y)[7]);
    assert(x == y) by (bit_vector)
        requires
            (x >> 56) as u8 == (y >> 56) as u8 && (x >> 48) as u8 == (y >> 48) as u8 && (x >> 40)
                as u8 == (y >> 40) as u8 && (x >> 32) as u8 == (y >> 32) as u8 && (x >> 24) as u8
                == (y >> 24) as u8 && (x >> 16) as u8 == (y >> 16) as u8 && (x >> 8) as u8 == (y
                >> 8) as u8 && x as u8 == y as u8,
    ;
}

/// Big-endian bytes compare like the integers they encode.
pub proof fn lemma_be_bytes_order(x: u64, y: u64)
    requires
        x < y,
    ensures
        lex_lt(be_bytes(x), be_bytes(y)),
{
    let a = be_bytes(x);
    let b = be_bytes(y);
    assert({
        let f0 = (x >> 56) as u8 == (y >> 56) as u8;
        let f1 = (x >> 48) as u8 == (y >> 48) as u8;
        let f2 = (x >> 40) as u8 == (y >> 40) as u8;
        let f3 = (x >> 32) as u8 == (y >> 32) as u8;
        let f4 = (x >> 24) as u8 == (y >> 24) as u8;
        let f5 = (x >> 16) as u8 == (y >> 16) as u8;
        let f6 = (x >> 8) as u8 == (y >> 8) as u8;
        false
        || (((x >> 56) as u8) < ((y >> 56) as u8))
        || (f0 && ((x >> 48) as u8) < ((y >> 48) as u8))
        || (f0 && f1 && ((x >> 40) as u8) < ((y >> 40) as u8))
        || (f0 && f1 && f2 && ((x >> 32) as u8) < ((y >> 32) as u8))
        || (f0 && f1 && f2 && f3 && ((x >> 24) as u8) < ((y >> 24) as u8))
        || (f0 && f1 && f2 && f3 && f4 && ((x >> 16) as u8) < ((y >> 16) as u8))
        || (f0 && f1 && f2 && f3 && f4 && f5 && ((x >> 8) as u8) < ((y >> 8) as u8))
        || (f0 && f1 && f2 && f3 && f4 && f5 && f6 && ((x as u8) < (y as u8)))
    }) by (bit_vector)
        requires
            x < y,
    ;
    if a[0] < b[0] {
        lemma_lex_lt_at(a, b, 0);
    } else if a[1] < b[1] {
        lemma_lex_lt_at(a, b, 1);
    } else if a[2] < b[2] {
        lemma_lex_lt_at(a, b, 2);
    } else if a[3] < b[3] {
        lemma_lex_lt_at(a, b, 3);
    } else if a[4] < b[4] {
        lemma_lex_lt_at(a, b, 4);
    } else if a[5] < b[5] {
        lemma_lex_lt_at(a, b, 5);
    } else if a[6] < b[6] {
        lemma_lex_lt_at(a, b, 6);
    } else {
        lemma_lex_lt_at(a, b, 7);
    }
}

/// The store key of a date: its midnight timestamp, big-endian.
pub open spec fn key_of_date(d: CalendarDate) -> Seq<u8> {
    be_bytes((day_number(d) * SECONDS_PER_DAY) as u64)
}

/// A valid date's timestamp stays far below `2^38`, so the encoding
/// cast loses nothing and the key's high bytes are zero.
pub proof fn lemma_ts_bound(d: CalendarDate)
    requires
        d.valid(),
    ensures
        0 <= day_number(d) * SECONDS_PER_DAY < 0x4000000000,
        day_number(d) < 0x100000000,
{
    lemma_day_number_limit(d);
    lemma_days_before_year_bound(10000);
}

/// Two valid dates with the same key are the same date.
pub proof fn lemma_key_of_date_injective(a: CalendarDate, b: CalendarDate)
    requires
        a.valid(),
        b.valid(),
        key_of_date(a) == key_of_date(b),
    ensures
        a == b,
{
    lemma_ts_bound(a);
    lemma_ts_bound(b);
    lemma_be_bytes_injective(
        (day_number(a) * SECONDS_PER_DAY) as u64,
        (day_number(b) * SECONDS_PER_DAY) as u64,
    );
    lemma_day_number_injective(a, b);
}

/// Keys compare by calendar order: the heart of the range scan working
/// without a custom comparator.
pub proof fn lemma_key_order(a: CalendarDate, b: CalendarDate)
    requires
        a.valid(),
        b.valid(),
        date_lt(a, b),
    ensures
        lex_lt(key_of_date(a), key_of_date(b)),
{
    lemma_day_number_strict_mono(a, b);
    lemma_ts_bound(a);
    lemma_ts_bound(b);
    lemma_be_bytes_order(
        (day_number(a) * SECONDS_PER_DAY) as u64,
        (day_number(b) * SECONDS_PER_DAY) as u64,
    );
}

/// Encodes a valid date into its fixed-width, order-preserving key.
pub fn encode_date_key(d: &CalendarDate) -> (k: Vec<u8>)
    requires
        d.valid(),
    ensures
        k@ == key_of_date(*d),
{
    proof {
        lemma_ts_bound(*d);
    }
    let n = d.day_index();
    u64_to_be((n as u64) * SECONDS_PER_DAY)
}

/// Decodes a stored key back into the date it encodes.  Fails with
/// `MalformedKey` exactly when the bytes are not the key of any valid
/// date: wrong length, a timestamp not at midnight, or a date out of
/// range.
pub fn decode_date_key(k: &[u8]) -> (r: Result<CalendarDate, Error>)
    ensures
        match r {
            Ok(d) => d.valid() && k@ == key_of_date(d),
            Err(e) => e == Error::MalformedKey && (forall|d: CalendarDate| d.valid() ==> k@
                != key_of_date(d)),
        },
        forall|d0: CalendarDate| d0.valid() && k@ == key_of_date(d0) ==> r == Ok::<
            CalendarDate,
            Error,
        >(d0),
{
    if k.len() != 8 {
        return Err(Error::MalformedKey);
    }
    let x = be_to_u64(k);
    proof {
        assert forall|d: CalendarDate| d.valid() && k@ == key_of_date(d) implies x as int
            == day_number(d) * SECONDS_PER_DAY && x % SECONDS_PER_DAY == 0 && x / SECONDS_PER_DAY
            == day_number(d) && day_number(d) < 0x100000000 by {
            lemma_ts_bound(d);
            lemma_be_bytes_injective(x, (day_number(d) * SECONDS_PER_DAY) as u64);
            vstd::arithmetic::div_mod::lemma_mod_multiples_basic(
                day_number(d),
                SECONDS_PER_DAY as int,
            );
            vstd::arithmetic::div_mod::lemma_div_multiples_vanish(
                day_number(d),
                SECONDS_PER_DAY as int,
            );
        }
    }
    if x % SECONDS_PER_DAY != 0 {
        return Err(Error::MalformedKey);
    }
    let n = x / SECONDS_PER_DAY;
    if n >= 0x100000000 {
        return Err(Error::MalformedKey);
    }
    match date_from_day_index(n as u32) {
        Some(d) => {
            proof {
                lemma_ts_bound(d);
                vstd::arithmetic::div_mod::lemma_fundamental_div_mod(
                    x as int,
                    SECONDS_PER_DAY as int,
                );
                assert(day_number(d) * SECONDS_PER_DAY == x as int);
                assert(k@ =~= key_of_date(d));
                assert forall|d0: CalendarDate| d0.valid() && k@ == key_of_date(d0) implies d0
                    == d by {
                    lemma_key_of_date_injective(d0, d);
                }
            }
            Ok(d)
        },
        None => Err(Error::MalformedKey),
    }
}

/// Parses an ISO-8601 date string and encodes its store key; rejects
/// text that is not a canonical date with `InvalidDateFormat`.
pub fn date_as_key(date: &str) -> (r: Result<Vec<u8>, Error>)
    ensures
        match r {
            Ok(k) => exists|d: CalendarDate| d.valid() && date@ == iso_chars(d) && k@
                == key_of_date(d),
            Err(e) => e == Error::InvalidDateFormat && (forall|d: CalendarDate| d.valid() ==> date@
                != iso_chars(d)),
        },
{
    match parse_iso_date(date) {
        Some(d) => {
            let k = encode_date_key(&d);
            proof {
                assert(d.valid() && date@ == iso_chars(d) && k@ == key_of_date(d));
            }
            Ok(k)
        },
        None => Err(Error::InvalidDateFormat),
    }
}

/// The reserved key under which the current pointer is stored: the
/// ASCII bytes of "current".  Its first byte is nonzero while every
/// date key opens with zero bytes, so it can never collide with, nor
/// fall inside a range scan between, encoded dates.
pub open spec fn sentinel_key() -> Seq<u8> {
    seq![99u8, 117u8, 114u8, 114u8, 101u8, 110u8, 116u8]
}

pub fn sentinel_key_exec() -> (k: Vec<u8>)
    ensures
        k@ == sentinel_key(),
{
    let mut k: Vec<u8> = Vec::new();
    k.push(99);
    k.push(117);
    k.push(114);
    k.push(114);
    k.push(101);
    k.push(110);
    k.push(116);
    proof {
        assert(k@ =~= sentinel_key());
    }
    k
}

/// Every date key sorts strictly below the sentinel, so the pointer
/// record stays out of every date range scan.
pub proof fn lemma_date_key_below_sentinel(d: CalendarDate)
    requires
        d.valid(),
    ensures
        lex_lt(key_of_date(d), sentinel_key()),
        key_of_date(d) != sentinel_key(),
{
    lemma_ts_bound(d);
    let x = (day_number(d) * SECONDS_PER_DAY) as u64;
    assert(((x >> 56) as u8) < 99) by (bit_vector)
        requires
            x < 0x4000000000,
    ;
    lemma_lex_lt_at(key_of_date(d), sentinel_key(), 0);
    lemma_lex_asymmetric(key_of_date(d), sentinel_key());
}

} // verus!
