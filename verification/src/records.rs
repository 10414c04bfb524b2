use vstd::prelude::*;

use crate::codec::be_bytes;
use crate::codec::lemma_be_bytes_injective;
use crate::codec::read_be_u64;
use crate::codec::u64_to_be;
use crate::date::CalendarDate;
use crate::date::iso_chars;
use crate::date::lemma_decimal_digits;
use crate::date::lemma_digit_char_code;
use crate::date::lemma_iso_chars_ascii;
use crate::date::lemma_iso_chars_injective;
use crate::date::lemma_iso_inverse;
use crate::error::Error;
use crate::snapshot::Currency;
use crate::snapshot::Date;
use crate::snapshot::SnapView;
use crate::snapshot::lemma_date_of_value;
use crate::snapshot::rates_of;
use crate::snapshot::snap_wf;
use crate::snapshot::wf_name;

verus! {

/// The single record format version this crate writes and reads, so a
/// future format change is detected rather than misread.
pub const RECORD_VERSION: u8 = 1;

/// ASCII text as raw bytes.
pub open spec fn chars_to_bytes(s: Seq<char>) -> Seq<u8> {
    Seq::new(s.len(), |i: int| s[i] as u8)
}

/// ASCII text is recovered from its bytes.
pub proof fn lemma_chars_to_bytes_injective(a: Seq<char>, b: Seq<char>)
    requires
        vstd::utf8::is_ascii_chars(a),
        vstd::utf8::is_ascii_chars(b),
        chars_to_bytes(a) == chars_to_bytes(b),
    ensures
        a == b,
{
    assert(chars_to_bytes(a).len() == chars_to_bytes(b).len());
    assert(chars_to_bytes(a).len() == a.len());
    assert(chars_to_bytes(b).len() == b.len());
    assert(a.len() == b.len());
    assert forall|i: int| 0 <= i < a.len() implies a[i] == b[i] by {
        assert(chars_to_bytes(a)[i] == chars_to_bytes(b)[i]);
        assert(chars_to_bytes(a)[i] == (a[i] as u8));
        assert(chars_to_bytes(b)[i] == (b[i] as u8));
        assert((a[i] as u8) == (b[i] as u8));
        assert('\0' <= a[i] <= '\u{7f}');
        assert('\0' <= b[i] <= '\u{7f}');
        assert((a[i] as nat) < 128);
        assert((b[i] as nat) < 128);
    }
    assert(a =~= b);
}

/// The bytes of one serialized rate entry: the three code letters, then
/// the rate bits, big-endian.
pub open spec fn entry_bytes(r: (Seq<char>, u64)) -> Seq<u8> {
    chars_to_bytes(r.0) + be_bytes(r.1)
}

pub open spec fn entries_bytes(rs: Seq<(Seq<char>, u64)>) -> Seq<u8>
    decreases rs.len(),
{
    if rs.len() == 0 {
        Seq::empty()
    } else {
        entries_bytes(rs.drop_last()) + entry_bytes(rs.last())
    }
}

/// The version-tagged binary record of a snapshot: one version byte,
/// ten bytes of ISO date text, eight bytes of entry count, then eleven
/// bytes per rate entry.
pub open spec fn record_of(s: SnapView) -> Seq<u8> {
    seq![RECORD_VERSION] + chars_to_bytes(s.value) + be_bytes(s.rates.len() as u64)
        + entries_bytes(s.rates)
}

/// Entry blocks sit at fixed offsets inside `entries_bytes`.
proof fn lemma_entries_index(rs: Seq<(Seq<char>, u64)>, i: int)
    requires
        forall|k: int| 0 <= k < rs.len() ==> (#[trigger] rs[k].0).len() == 3,
        0 <= i < rs.len(),
    ensures
        entries_bytes(rs).len() == 11 * rs.len(),
        entries_bytes(rs).subrange(11 * i, 11 * i + 3) == chars_to_bytes(rs[i].0),
        entries_bytes(rs).subrange(11 * i + 3, 11 * i + 11) == be_bytes(rs[i].1),
    decreases rs.len(),
{
    lemma_entries_len(rs);
    if i == rs.len() - 1 {
        lemma_entries_len(rs.drop_last());
        assert(entries_bytes(rs).subrange(11 * i, 11 * i + 3) =~= chars_to_bytes(rs[i].0));
        assert(entries_bytes(rs).subrange(11 * i + 3, 11 * i + 11) =~= be_bytes(rs[i].1));
    } else {
        lemma_entries_index(rs.drop_last(), i);
        lemma_entries_len(rs.drop_last());
        assert(rs.drop_last()[i] == rs[i]);
        assert(entries_bytes(rs).subrange(11 * i, 11 * i + 3) =~= entries_bytes(
            rs.drop_last(),
        ).subrange(11 * i, 11 * i + 3));
        assert(entries_bytes(rs).subrange(11 * i + 3, 11 * i + 11) =~= entries_bytes(
            rs.drop_last(),
        ).subrange(11 * i + 3, 11 * i + 11));
    }
}

proof fn lemma_entries_len(rs: Seq<(Seq<char>, u64)>)
    requires
        forall|k: int| 0 <= k < rs.len() ==> (#[trigger] rs[k].0).len() == 3,
    ensures
        entries_bytes(rs).len() == 11 * rs.len(),
    decreases rs.len(),
{
    if rs.len() > 0 {
        lemma_entries_len(rs.drop_last());
    }
}

/// Where each part of a well-formed snapshot's record lies.
pub proof fn lemma_record_shape(s: SnapView)
    requires
        snap_wf(s),
    ensures
        record_of(s).len() == 19 + 11 * s.rates.len(),
        record_of(s)[0] == RECORD_VERSION,
        s.value.len() == 10,
        record_of(s).subrange(1, 11) == chars_to_bytes(s.value),
        record_of(s).subrange(11, 19) == be_bytes(s.rates.len() as u64),
{
    let d = choose|d: CalendarDate| d.valid() && s.value == iso_chars(d);
    assert(s.value.len() == 10);
    assert(forall|k: int| 0 <= k < s.rates.len() ==> (#[trigger] s.rates[k].0).len() == 3);
    lemma_entries_len(s.rates);
    let b = record_of(s);
    assert(b.subrange(1, 11) =~= chars_to_bytes(s.value));
    assert(b.subrange(11, 19) =~= be_bytes(s.rates.len() as u64));
}

/// Where the `i`-th rate entry lies inside a well-formed snapshot's
/// record.
pub proof fn lemma_record_entry(s: SnapView, i: int)
    requires
        snap_wf(s),
        0 <= i < s.rates.len(),
    ensures
        record_of(s).subrange(19 + 11 * i, 19 + 11 * i + 3) == chars_to_bytes(s.rates[i].0),
        record_of(s).subrange(19 + 11 * i + 3, 19 + 11 * i + 11) == be_bytes(s.rates[i].1),
{
    lemma_record_shape(s);
    assert(forall|k: int| 0 <= k < s.rates.len() ==> (#[trigger] s.rates[k].0).len() == 3);
    lemma_entries_index(s.rates, i);
    assert(record_of(s).subrange(19 + 11 * i, 19 + 11 * i + 3) =~= entries_bytes(
        s.rates,
    ).subrange(11 * i, 11 * i + 3));
    assert(record_of(s).subrange(19 + 11 * i + 3, 19 + 11 * i + 11) =~= entries_bytes(
        s.rates,
    ).subrange(11 * i + 3, 11 * i + 11));
}

/// Well-formed currency codes are ASCII.
proof fn lemma_wf_name_ascii(n: Seq<char>)
    requires
        wf_name(n),
    ensures
        vstd::utf8::is_ascii_chars(n),
{
}

/// A record determines its snapshot: two well-formed snapshots with the
/// same bytes are the same snapshot.
pub proof fn lemma_record_injective(s1: SnapView, s2: SnapView)
    requires
        snap_wf(s1),
        snap_wf(s2),
        record_of(s1) == record_of(s2),
    ensures
        s1 == s2,
{
    lemma_record_shape(s1);
    lemma_record_shape(s2);
    assert(s1.rates.len() == s2.rates.len());
    let d1 = choose|d: CalendarDate| d.valid() && s1.value == iso_chars(d);
    let d2 = choose|d: CalendarDate| d.valid() && s2.value == iso_chars(d);
    lemma_iso_chars_ascii(d1);
    lemma_iso_chars_ascii(d2);
    lemma_chars_to_bytes_injective(s1.value, s2.value);
    assert forall|i: int| 0 <= i < s1.rates.len() implies s1.rates[i] == s2.rates[i] by {
        lemma_record_entry(s1, i);
        lemma_record_entry(s2, i);
        lemma_wf_name_ascii(s1.rates[i].0);
        lemma_wf_name_ascii(s2.rates[i].0);
        lemma_chars_to_bytes_injective(s1.rates[i].0, s2.rates[i].0);
        lemma_be_bytes_injective(s1.rates[i].1, s2.rates[i].1);
        assert(s1.rates[i].0 == s2.rates[i].0 && s1.rates[i].1 == s2.rates[i].1);
    }
    assert(s1.rates =~= s2.rates);
}

/// Serializes a well-formed snapshot into its binary record.
#[verifier::rlimit(30)]
pub fn encode_record(s: &Date) -> (b: Vec<u8>)
    requires
        snap_wf(s@),
    ensures
        b@ == record_of(s@),
{
    let ghost sv = s@;
    proof {
        let d = choose|d: CalendarDate| d.valid() && sv.value == iso_chars(d);
        lemma_iso_chars_ascii(d);
    }
    let mut b: Vec<u8> = Vec::new();
    b.push(RECORD_VERSION);
    let vs = s.value.as_str();
    b.push(vs.get_ascii(0));
    b.push(vs.get_ascii(1));
    b.push(vs.get_ascii(2));
    b.push(vs.get_ascii(3));
    b.push(vs.get_ascii(4));
    b.push(vs.get_ascii(5));
    b.push(vs.get_ascii(6));
    b.push(vs.get_ascii(7));
    b.push(vs.get_ascii(8));
    b.push(vs.get_ascii(9));
    let n = s.currencies.len();
    let mut cnt = u64_to_be(n as u64);
    b.append(&mut cnt);
    proof {
        assert(b@ =~= seq![RECORD_VERSION] + chars_to_bytes(sv.value) + be_bytes(
            sv.rates.len() as u64,
        ));
    }
    let ghost head = b@;
    let mut i: usize = 0;
    while i < n
        invariant
            i <= n,
            n == s.currencies@.len(),
            sv == s@,
            snap_wf(sv),
            head == seq![RECORD_VERSION] + chars_to_bytes(sv.value) + be_bytes(
                sv.rates.len() as u64,
            ),
            b@ == head + entries_bytes(sv.rates.take(i as int)),
        decreases n - i,
    {
        proof {
            assert(sv.rates[i as int].0 == s.currencies@[i as int].name@);
            assert(wf_name(sv.rates[i as int].0));
            lemma_wf_name_ascii(sv.rates[i as int].0);
        }
        let name = s.currencies[i].name.as_str();
        b.push(name.get_ascii(0));
        b.push(name.get_ascii(1));
        b.push(name.get_ascii(2));
        let mut rb = u64_to_be(s.currencies[i].rate);
        b.append(&mut rb);
        proof {
            assert(sv.rates.take(i + 1).drop_last() =~= sv.rates.take(i as int));
            assert(sv.rates.take(i + 1).last() == sv.rates[i as int]);
            assert(b@ =~= head + entries_bytes(sv.rates.take(i + 1)));
        }
        i = i + 1;
    }
    proof {
        assert(sv.rates.take(n as int) =~= sv.rates);
        assert(b@ =~= record_of(sv));
    }
    b
}

/// What the ten record bytes of a valid date's ISO text look like, and
/// how they determine the date's fields.
proof fn lemma_iso_bytes_inverse(w: Seq<u8>, d: CalendarDate)
    requires
        d.valid(),
        w == chars_to_bytes(iso_chars(d)),
    ensures
        w.len() == 10,
        w[4] == 45 && w[7] == 45,
        48 <= w[0] <= 57 && 48 <= w[1] <= 57 && 48 <= w[2] <= 57 && 48 <= w[3] <= 57,
        48 <= w[5] <= 57 && 48 <= w[6] <= 57 && 48 <= w[8] <= 57 && 48 <= w[9] <= 57,
        d.year as int == (w[0] - 48) * 1000 + (w[1] - 48) * 100 + (w[2] - 48) * 10 + (w[3] - 48),
        d.month as int == (w[5] - 48) * 10 + (w[6] - 48),
        d.day as int == (w[8] - 48) * 10 + (w[9] - 48),
{
    let s = iso_chars(d);
    lemma_iso_inverse(s, d);
    lemma_iso_chars_ascii(d);
    assert forall|i: int| 0 <= i < 10 implies w[i] as int == s[i] as int by {
        assert(w[i] == s[i] as u8);
        assert('\0' <= s[i] <= '\u{7f}');
        assert((s[i] as nat) < 128);
    }
}

/// Reads ten bytes of ISO date text inside a record; `None` exactly
/// when they are not the canonical text of any date this crate accepts.
#[verifier::rlimit(30)]
fn parse_iso_bytes(b: &[u8], off: usize) -> (r: Option<CalendarDate>)
    requires
        off + 10 <= b@.len(),
    ensures
        match r {
            Some(d) => d.valid() && b@.subrange(off as int, off as int + 10) == chars_to_bytes(
                iso_chars(d),
            ),
            None => forall|d: CalendarDate| d.valid() ==> b@.subrange(off as int, off as int + 10)
                != chars_to_bytes(iso_chars(d)),
        },
{
    let ghost w = b@.subrange(off as int, off as int + 10);
    let b0 = b[off];
    let b1 = b[off + 1];
    let b2 = b[off + 2];
    let b3 = b[off + 3];
    let b4 = b[off + 4];
    let b5 = b[off + 5];
    let b6 = b[off + 6];
    let b7 = b[off + 7];
    let b8 = b[off + 8];
    let b9 = b[off + 9];
    if b4 != 45 || b7 != 45 {
        proof {
            assert forall|d: CalendarDate| d.valid() implies w != chars_to_bytes(iso_chars(d)) by {
                if w == chars_to_bytes(iso_chars(d)) {
                    lemma_iso_bytes_inverse(w, d);
                }
            }
        }
        return None;
    }
    if !(digit_byte(b0) && digit_byte(b1) && digit_byte(b2) && digit_byte(b3) && digit_byte(b5)
        && digit_byte(b6) && digit_byte(b8) && digit_byte(b9)) {
        proof {
            assert forall|d: CalendarDate| d.valid() implies w != chars_to_bytes(iso_chars(d)) by {
                if w == chars_to_bytes(iso_chars(d)) {
                    lemma_iso_bytes_inverse(w, d);
                }
            }
        }
        return None;
    }
    let year: u16 = (b0 - 48) as u16 * 1000 + (b1 - 48) as u16 * 100 + (b2 - 48) as u16 * 10 + (b3
        - 48) as u16;
    let month: u8 = (b5 - 48) * 10 + (b6 - 48);
    let day: u8 = (b8 - 48) * 10 + (b9 - 48);
    let d = CalendarDate { year, month, day };
    if d.is_valid() {
        proof {
            lemma_decimal_digits(
                (b0 - 48) as int,
                (b1 - 48) as int,
                (b2 - 48) as int,
                (b3 - 48) as int,
            );
            lemma_decimal_digits(0, 0, (b5 - 48) as int, (b6 - 48) as int);
            lemma_decimal_digits(0, 0, (b8 - 48) as int, (b9 - 48) as int);
            lemma_digit_char_code((b0 - 48) as int);
            lemma_digit_char_code((b1 - 48) as int);
            lemma_digit_char_code((b2 - 48) as int);
            lemma_digit_char_code((b3 - 48) as int);
            lemma_digit_char_code((b5 - 48) as int);
            lemma_digit_char_code((b6 - 48) as int);
            lemma_digit_char_code((b8 - 48) as int);
            lemma_digit_char_code((b9 - 48) as int);
            assert(w =~= chars_to_bytes(iso_chars(d)));
        }
        Some(d)
    } else {
        proof {
            assert forall|dv: CalendarDate| dv.valid() implies w != chars_to_bytes(
                iso_chars(dv),
            ) by {
                if w == chars_to_bytes(iso_chars(dv)) {
                    lemma_iso_bytes_inverse(w, dv);
                }
            }
        }
        None
    }
}

fn digit_byte(b: u8) -> (r: bool)
    ensures
        r == (48 <= b <= 57),
{
    48 <= b && b <= 57
}

fn upper_byte(b: u8) -> (r: bool)
    ensures
        r == (65 <= b <= 90),
{
    65 <= b && b <= 90
}

/// The one-letter string of an uppercase ASCII code.
fn upper_piece(c: u8) -> (r: &'static str)
    requires
        65 <= c <= 90,
    ensures
        r@.len() == 1,
        (r@[0] as int) == c as int,
{
    let a = "ABCDEFGHIJKLMNOPQRSTUVWXYZ";
    proof {
        reveal_strlit("ABCDEFGHIJKLMNOPQRSTUVWXYZ");
        assert(a@.len() == 26);
        assert(vstd::string::is_ascii(a));
    }
    let i = (c - 65) as usize;
    let r = a.substring_ascii(i, i + 1);
    proof {
        assert(r@[0] == a@[c - 65]);
        assert((a@[c - 65] as int) == c as int);
    }
    r
}

/// Rebuilds a currency code from its three record bytes.
fn name_from_bytes(c0: u8, c1: u8, c2: u8) -> (r: String)
    requires
        65 <= c0 <= 90,
        65 <= c1 <= 90,
        65 <= c2 <= 90,
    ensures
        r@.len() == 3,
        (r@[0] as int) == c0 as int,
        (r@[1] as int) == c1 as int,
        (r@[2] as int) == c2 as int,
        wf_name(r@),
{
    let mut r = String::new();
    r.append(upper_piece(c0));
    r.append(upper_piece(c1));
    r.append(upper_piece(c2));
    proof {
        assert(('A' as int) == 65 && ('Z' as int) == 90);
        assert forall|i: int| 0 <= i < 3 implies 'A' <= #[trigger] r@[i] <= 'Z' by {}
    }
    r
}

/// Deserializes a binary record; fails with `StoreCorrupt` exactly when
/// the bytes are not the record of any well-formed snapshot.
pub fn decode_record(b: &[u8]) -> (r: Result<Date, Error>)
    ensures
        match r {
            Ok(s) => snap_wf(s@) && b@ == record_of(s@),
            Err(e) => e == Error::StoreCorrupt,
        },
        forall|sv: SnapView| snap_wf(sv) && b@ == record_of(sv) ==> (r matches Ok(s) && s@ == sv),
{
    if b.len() < 19 {
        proof {
            assert forall|sv: SnapView| snap_wf(sv) implies b@ != record_of(sv) by {
                lemma_record_shape(sv);
            }
        }
        return Err(Error::StoreCorrupt);
    }
    if b[0] != RECORD_VERSION {
        proof {
            assert forall|sv: SnapView| snap_wf(sv) implies b@ != record_of(sv) by {
                lemma_record_shape(sv);
            }
        }
        return Err(Error::StoreCorrupt);
    }
    let date = match parse_iso_bytes(b, 1) {
        Some(d) => d,
        None => {
            proof {
                assert forall|sv: SnapView| snap_wf(sv) implies b@ != record_of(sv) by {
                    if b@ == record_of(sv) {
                        lemma_record_shape(sv);
                        let dv = choose|dv: CalendarDate| dv.valid() && sv.value == iso_chars(dv);
                        assert(b@.subrange(1, 11) == chars_to_bytes(iso_chars(dv)));
                    }
                }
            }
            return Err(Error::StoreCorrupt);
        },
    };
    let x = read_be_u64(b, 11);
    proof {
        assert forall|sv: SnapView| snap_wf(sv) && b@ == record_of(sv) implies x as int
            == sv.rates.len() by {
            lemma_record_shape(sv);
            assert(b@.len() == 19 + 11 * sv.rates.len());
            assert(sv.rates.len() < 0x10000000000000000);
            lemma_be_bytes_injective(x, sv.rates.len() as u64);
        }
    }
    let blen: u64 = b.len() as u64;
    if x > (blen - 19) / 11 {
        proof {
            assert forall|sv: SnapView| snap_wf(sv) implies b@ != record_of(sv) by {
                if b@ == record_of(sv) {
                    lemma_record_shape(sv);
                    vstd::arithmetic::div_mod::lemma_div_multiples_vanish(
                        sv.rates.len() as int,
                        11,
                    );
                }
            }
        }
        return Err(Error::StoreCorrupt);
    }
    proof {
        vstd::arithmetic::div_mod::lemma_fundamental_div_mod(blen as int - 19, 11);
    }
    let n = x as usize;
    if b.len() != 19 + n * 11 {
        proof {
            assert forall|sv: SnapView| snap_wf(sv) implies b@ != record_of(sv) by {
                if b@ == record_of(sv) {
                    lemma_record_shape(sv);
                }
            }
        }
        return Err(Error::StoreCorrupt);
    }
    let mut currencies: Vec<Currency> = Vec::new();
    let mut i: usize = 0;
    while i < n
        invariant
            i <= n,
            19 + 11 * (n as int) == b@.len(),
            b@.len() <= usize::MAX,
            currencies@.len() == i,
            forall|k: int| 0 <= k < i ==> wf_name((#[trigger] currencies@[k]).name@),
            forall|k: int, l: int|
                0 <= k < l < i ==> (#[trigger] currencies@[k]).name@ != (#[trigger]
                currencies@[l]).name@,
            forall|k: int|
                0 <= k < i ==> chars_to_bytes((#[trigger] currencies@[k]).name@) == b@.subrange(19
                    + 11 * k, 19 + 11 * k + 3) && be_bytes(currencies@[k].rate) == b@.subrange(19
                    + 11 * k + 3, 19 + 11 * k + 11),
            entries_bytes(rates_of(currencies@)) == b@.subrange(19, 19 + 11 * (i as int)),
        decreases n - i,
    {
        let off = 19 + i * 11;
        let c0 = b[off];
        let c1 = b[off + 1];
        let c2 = b[off + 2];
        if !(upper_byte(c0) && upper_byte(c1) && upper_byte(c2)) {
            proof {
                assert forall|sv: SnapView| snap_wf(sv) implies b@ != record_of(sv) by {
                    if b@ == record_of(sv) {
                        lemma_record_shape(sv);
                        lemma_record_entry(sv, i as int);
                        let nm = sv.rates[i as int].0;
                        assert(wf_name(nm));
                        assert(b@[off as int] == chars_to_bytes(nm)[0]);
                        assert(b@[off + 1] == chars_to_bytes(nm)[1]);
                        assert(b@[off + 2] == chars_to_bytes(nm)[2]);
                        assert(('A' as int) == 65 && ('Z' as int) == 90);
                        assert(65 <= nm[0] as int <= 90);
                        assert(65 <= nm[1] as int <= 90);
                        assert(65 <= nm[2] as int <= 90);
                    }
                }
            }
            return Err(Error::StoreCorrupt);
        }
        let name = name_from_bytes(c0, c1, c2);
        let mut dup = false;
        let m = currencies.len();
        let mut j: usize = 0;
        while j < m
            invariant
                j <= m,
                m == currencies@.len(),
                dup == exists|k: int| 0 <= k < j && (#[trigger] currencies@[k]).name@ == name@,
            decreases m - j,
        {
            if currencies[j].name.eq(&name) {
                dup = true;
            }
            j = j + 1;
        }
        if dup {
            proof {
                let k = choose|k: int| 0 <= k < m && (#[trigger] currencies@[k]).name@ == name@;
                assert forall|sv: SnapView| snap_wf(sv) implies b@ != record_of(sv) by {
                    if b@ == record_of(sv) {
                        lemma_record_shape(sv);
                        lemma_record_entry(sv, i as int);
                        lemma_record_entry(sv, k);
                        lemma_wf_name_ascii(sv.rates[i as int].0);
                        lemma_wf_name_ascii(sv.rates[k].0);
                        lemma_wf_name_ascii(currencies@[k].name@);
                        lemma_wf_name_ascii(name@);
                        assert(chars_to_bytes(currencies@[k].name@) == chars_to_bytes(
                            sv.rates[k].0,
                        ));
                        lemma_chars_to_bytes_injective(currencies@[k].name@, sv.rates[k].0);
                        assert(chars_to_bytes(name@) =~= b@.subrange(19 + 11 * (i as int), 19 + 11
                            * (i as int) + 3));
                        lemma_chars_to_bytes_injective(name@, sv.rates[i as int].0);
                        assert(sv.rates[k].0 == sv.rates[i as int].0);
                    }
                }
            }
            return Err(Error::StoreCorrupt);
        }
        let rate = read_be_u64(b, off + 3);
        let ghost old_currencies = currencies@;
        currencies.push(Currency { name, rate });
        proof {
            assert(rates_of(currencies@).drop_last() =~= rates_of(old_currencies));
            assert(chars_to_bytes(currencies@[i as int].name@) =~= b@.subrange(19 + 11
                * (i as int), 19 + 11 * (i as int) + 3));
            assert(entries_bytes(rates_of(currencies@)) =~= b@.subrange(19, 19 + 11 * (i as int
                + 1)));
        }
        i = i + 1;
    }
    let value = date.to_string();
    let snap = Date { value, currencies };
    proof {
        lemma_date_of_value(date);
        assert(snap@.value == iso_chars(date));
        assert(snap_wf(snap@));
        assert(chars_to_bytes(snap@.value) =~= b@.subrange(1, 11));
        assert(b@ =~= record_of(snap@));
        assert forall|sv: SnapView| snap_wf(sv) && b@ == record_of(sv) implies snap@ == sv by {
            lemma_record_injective(snap@, sv);
        }
    }
    Ok(snap)
}

} // verus!
