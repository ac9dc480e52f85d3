//! What holds of the way times are written.

use vstd::prelude::*;
use vstd::utf8::{encode_utf8, is_ascii_chars, is_ascii_chars_encode_utf8};

use crate::calendar::{
    date_of, day_number, earlier, is_date, law_day_numbers_rise, law_every_day_has_a_date,
};
use crate::format::{
    cache_after, filetime_text, local_text, padded, time_shown, DateTime,
    FILETIME_UNIX_OFFSET_SECS,
};
use crate::text::lex_less;

verus! {

/// Whole seconds from 1970-01-01 to a time.
pub open spec fn unix_secs(ft: u64) -> int {
    ft as int / 10_000_000 - FILETIME_UNIX_OFFSET_SECS as int
}

/// Ten to the power `k`.
spec fn tens(k: nat) -> nat
    decreases k,
{
    if k == 0 {
        1
    } else {
        10 * tens((k - 1) as nat)
    }
}

proof fn lemma_padded_width(n: nat, w: nat)
    requires
        w >= 1,
        n < tens(w),
    ensures
        padded(n, w).len() == w,
        forall|i: int| 0 <= i < w ==> '0' <= #[trigger] padded(n, w)[i] <= '9',
    decreases w,
{
    if w == 1 {
        assert(tens(1) == 10 * tens(0));
    } else {
        lemma_padded_width(n / 10, (w - 1) as nat);
        let rest = padded(n / 10, (w - 1) as nat);
        assert forall|i: int| 0 <= i < w implies '0' <= #[trigger] padded(n, w)[i] <= '9' by {
            if i < w - 1 {
                assert(padded(n, w)[i] == rest[i]);
            }
        }
    }
}

/// The first place where two texts differ has the smaller character in the first.
spec fn falls_at(x: Seq<char>, y: Seq<char>, k: int) -> bool {
    &&& 0 <= k < x.len()
    &&& k < y.len()
    &&& x.take(k) == y.take(k)
    &&& x[k] < y[k]
}

spec fn below(x: Seq<char>, y: Seq<char>) -> bool {
    exists|k: int| falls_at(x, y, k)
}

proof fn lemma_padded_below(a: nat, b: nat, w: nat)
    requires
        w >= 1,
        a < b < tens(w),
    ensures
        below(padded(a, w), padded(b, w)),
    decreases w,
{
    lemma_padded_width(a, w);
    lemma_padded_width(b, w);
    let x = padded(a, w);
    let y = padded(b, w);
    if w == 1 {
        assert(tens(1) == 10 * tens(0));
        assert(x.take(0) =~= y.take(0));
        assert(falls_at(x, y, 0));
    } else {
        let v = (w - 1) as nat;
        let (p, q) = (padded(a / 10, v), padded(b / 10, v));
        lemma_padded_width(a / 10, v);
        lemma_padded_width(b / 10, v);
        if a / 10 < b / 10 {
            lemma_padded_below(a / 10, b / 10, v);
            let k = choose|k: int| falls_at(p, q, k);
            assert(x.take(k) =~= p.take(k));
            assert(y.take(k) =~= q.take(k));
            assert(falls_at(x, y, k));
        } else {
            assert(x.take(v as int) =~= p);
            assert(y.take(v as int) =~= q);
            assert(falls_at(x, y, v as int));
        }
    }
}

proof fn lemma_below_inside(a: Seq<char>, b: Seq<char>, from: int, to: int)
    requires
        0 <= from <= to <= a.len(),
        to <= b.len(),
        a.take(from) == b.take(from),
        below(a.subrange(from, to), b.subrange(from, to)),
    ensures
        below(a, b),
{
    let (x, y) = (a.subrange(from, to), b.subrange(from, to));
    let k = choose|k: int| falls_at(x, y, k);
    assert forall|i: int| 0 <= i < from + k implies a[i] == b[i] by {
        if i < from {
            assert(a.take(from)[i] == a[i]);
            assert(b.take(from)[i] == b[i]);
        } else {
            let j = i - from;
            assert(x.take(k)[j] == x[j] && y.take(k)[j] == y[j]);
            assert(x[j] == a[from + j] && y[j] == b[from + j]);
        }
    }
    assert(a.take(from + k) =~= b.take(from + k));
    assert(falls_at(a, b, from + k));
}

proof fn lemma_lex_at(a: Seq<u8>, b: Seq<u8>, k: int)
    requires
        0 <= k < a.len(),
        k < b.len(),
        forall|i: int| 0 <= i < k ==> a[i] == b[i],
        a[k] < b[k],
    ensures
        lex_less(a, b),
    decreases k,
{
    if k > 0 {
        assert(a[0] == b[0]);
        assert forall|i: int| 0 <= i < k - 1 implies a.skip(1)[i] == b.skip(1)[i] by {
            assert(a[i + 1] == b[i + 1]);
        }
        lemma_lex_at(a.skip(1), b.skip(1), k - 1);
    }
}

proof fn lemma_below_is_less(x: Seq<char>, y: Seq<char>)
    requires
        is_ascii_chars(x),
        is_ascii_chars(y),
        below(x, y),
    ensures
        lex_less(encode_utf8(x), encode_utf8(y)),
{
    let k = choose|k: int| falls_at(x, y, k);
    is_ascii_chars_encode_utf8(x);
    is_ascii_chars_encode_utf8(y);
    let a = encode_utf8(x);
    let b = encode_utf8(y);
    assert forall|i: int| 0 <= i < k implies a[i] == b[i] by {
        assert(x.take(k)[i] == y.take(k)[i]);
        assert(x[i] as u8 == a[i]);
        assert(y[i] as u8 == b[i]);
    }
    assert(x[k] as u8 == a[k]);
    assert(y[k] as u8 == b[k]);
    lemma_lex_at(a, b, k);
}

/// The fields of a day and a time of day are in range.
pub open spec fn in_range(t: DateTime) -> bool {
    t.year <= 9999 && t.month <= 99 && t.day <= 99 && t.hour <= 23 && t.minute <= 59
}

/// Whether a day and time comes before another.
pub open spec fn time_before(a: DateTime, b: DateTime) -> bool {
    ||| a.year < b.year
    ||| a.year == b.year && a.month < b.month
    ||| a.year == b.year && a.month == b.month && a.day < b.day
    ||| a.year == b.year && a.month == b.month && a.day == b.day && a.hour < b.hour
    ||| a.year == b.year && a.month == b.month && a.day == b.day && a.hour == b.hour && a.minute
        < b.minute
}

proof fn lemma_tens()
    ensures
        tens(1) == 10,
        tens(2) == 100,
        tens(4) == 10000,
{
    reveal_with_fuel(tens, 5);
}

/// A day and time up to the year 9999 is written with 16 characters.
pub proof fn law_written_time_is_sixteen_wide(t: DateTime)
    requires
        in_range(t),
    ensures
        t.written().len() == 16,
        is_ascii_chars(t.written()),
        t.written()[4] == '-',
        t.written()[7] == '-',
        t.written()[10] == ' ',
        t.written()[13] == ':',
{
    lemma_tens();
    lemma_padded_width(t.year as nat, 4);
    lemma_padded_width(t.month as nat, 2);
    lemma_padded_width(t.day as nat, 2);
    lemma_padded_width(t.hour as nat, 2);
    lemma_padded_width(t.minute as nat, 2);
    let (y, m, d) = (padded(t.year as nat, 4), padded(t.month as nat, 2), padded(t.day as nat, 2));
    let (h, n) = (padded(t.hour as nat, 2), padded(t.minute as nat, 2));
    let w = t.written();
    assert(w =~= y + seq!['-'] + m + seq!['-'] + d + seq![' '] + h + seq![':'] + n);
    assert forall|i: int| 0 <= i < w.len() implies '\0' <= #[trigger] w[i] <= '\u{7f}' by {
        if i < 4 {
            assert(w[i] == y[i]);
        } else if 5 <= i < 7 {
            assert(w[i] == m[i - 5]);
        } else if 8 <= i < 10 {
            assert(w[i] == d[i - 8]);
        } else if 11 <= i < 13 {
            assert(w[i] == h[i - 11]);
        } else if i >= 14 {
            assert(w[i] == n[i - 14]);
        }
    }
}

spec fn day_part(t: DateTime) -> Seq<char> {
    (padded(t.year as nat, 4).push('-') + padded(t.month as nat, 2)).push('-')
}

proof fn lemma_fields(t: DateTime)
    requires
        in_range(t),
    ensures
        t.written().subrange(0, 4) == padded(t.year as nat, 4),
        t.written().subrange(5, 7) == padded(t.month as nat, 2),
        t.written().subrange(8, 10) == padded(t.day as nat, 2),
        t.written().subrange(11, 13) == padded(t.hour as nat, 2),
        t.written().subrange(14, 16) == padded(t.minute as nat, 2),
        t.written().take(5) == padded(t.year as nat, 4).push('-'),
        t.written().take(8) == day_part(t),
        t.written().take(11) == (day_part(t) + padded(t.day as nat, 2)).push(' '),
        t.written().take(14) == ((day_part(t) + padded(t.day as nat, 2)).push(' ') + padded(
            t.hour as nat,
            2,
        )).push(':'),
{
    lemma_tens();
    law_written_time_is_sixteen_wide(t);
    lemma_padded_width(t.year as nat, 4);
    lemma_padded_width(t.month as nat, 2);
    lemma_padded_width(t.day as nat, 2);
    lemma_padded_width(t.hour as nat, 2);
    lemma_padded_width(t.minute as nat, 2);
    let w = t.written();
    assert(w.subrange(0, 4) =~= padded(t.year as nat, 4));
    assert(w.subrange(5, 7) =~= padded(t.month as nat, 2));
    assert(w.subrange(8, 10) =~= padded(t.day as nat, 2));
    assert(w.subrange(11, 13) =~= padded(t.hour as nat, 2));
    assert(w.subrange(14, 16) =~= padded(t.minute as nat, 2));
    assert(w.take(5) =~= padded(t.year as nat, 4).push('-'));
    assert(w.take(8) =~= day_part(t));
    assert(w.take(11) =~= (day_part(t) + padded(t.day as nat, 2)).push(' '));
    assert(w.take(14) =~= ((day_part(t) + padded(t.day as nat, 2)).push(' ') + padded(
        t.hour as nat,
        2,
    )).push(':'));
}

/// Of two days and times up to the year 9999 the earlier one is written as the smaller text.
pub proof fn law_earlier_times_are_written_first(a: DateTime, b: DateTime)
    requires
        in_range(a),
        in_range(b),
        time_before(a, b),
    ensures
        lex_less(encode_utf8(a.written()), encode_utf8(b.written())),
{
    lemma_tens();
    law_written_time_is_sixteen_wide(a);
    law_written_time_is_sixteen_wide(b);
    lemma_fields(a);
    lemma_fields(b);
    let (x, y) = (a.written(), b.written());
    if a.year < b.year {
        lemma_padded_below(a.year as nat, b.year as nat, 4);
        assert(x.take(0) =~= y.take(0));
        lemma_below_inside(x, y, 0, 4);
    } else if a.month < b.month {
        lemma_padded_below(a.month as nat, b.month as nat, 2);
        lemma_below_inside(x, y, 5, 7);
    } else if a.day < b.day {
        lemma_padded_below(a.day as nat, b.day as nat, 2);
        lemma_below_inside(x, y, 8, 10);
    } else if a.hour < b.hour {
        lemma_padded_below(a.hour as nat, b.hour as nat, 2);
        lemma_below_inside(x, y, 11, 13);
    } else {
        lemma_padded_below(a.minute as nat, b.minute as nat, 2);
        lemma_below_inside(x, y, 14, 16);
    }
    lemma_below_is_less(x, y);
}

/// The UTC day and minute of a time.
pub open spec fn utc_of(ft: u64) -> DateTime {
    let secs = unix_secs(ft);
    let date = date_of(secs / 86400);
    DateTime {
        year: date.year,
        month: date.month,
        day: date.day,
        hour: (secs % 86400 / 3600) as u64,
        minute: (secs % 3600 / 60) as u64,
    }
}

/// A time before 1970 is not written. Every other one is written as its UTC minute: a day that
/// is in the calendar and so many days after 1970-01-01, an hour up to 23 and a minute up to 59,
/// in 16 characters up to the year 9999.
pub proof fn law_file_time_is_a_minute(ft: u64)
    ensures
        filetime_text(ft).len() == 0 <==> ft as int / 10_000_000 < FILETIME_UNIX_OFFSET_SECS,
        unix_secs(ft) >= 0 ==> {
            let date = date_of(unix_secs(ft) / 86400);
            &&& filetime_text(ft) == utc_of(ft).written()
            &&& is_date(date)
            &&& day_number(date) == unix_secs(ft) / 86400
            &&& utc_of(ft).hour <= 23
            &&& utc_of(ft).minute <= 59
            &&& date.year <= 9999 ==> in_range(utc_of(ft)) && filetime_text(ft).len() == 16
        },
{
    if unix_secs(ft) >= 0 {
        let days = unix_secs(ft) / 86400;
        law_every_day_has_a_date(days);
        let t = utc_of(ft);
        assert(filetime_text(ft) =~= t.written());
        assert(t.written().len() > 0);
        if date_of(days).year <= 9999 {
            law_written_time_is_sixteen_wide(t);
        }
    }
}

/// Later times are written later: as texts, of two times that are written, up to the year 9999,
/// the earlier one does not come behind the later one.
pub proof fn law_file_times_are_written_in_order(a: u64, b: u64)
    requires
        a <= b,
        unix_secs(a) >= 0,
        date_of(unix_secs(b) / 86400).year <= 9999,
    ensures
        filetime_text(a) == filetime_text(b) || lex_less(
            encode_utf8(filetime_text(a)),
            encode_utf8(filetime_text(b)),
        ),
{
    law_file_time_is_a_minute(a);
    law_file_time_is_a_minute(b);
    let (sa, sb) = (unix_secs(a), unix_secs(b));
    assert(sa <= sb);
    let (da, db) = (date_of(sa / 86400), date_of(sb / 86400));
    let (ta, tb) = (utc_of(a), utc_of(b));
    if sa / 86400 < sb / 86400 {
        law_day_numbers_rise(da, db);
        assert(earlier(da, db));
        law_earlier_times_are_written_first(ta, tb);
    } else {
        let (ra, rb) = (sa % 86400, sb % 86400);
        assert(ra <= rb);
        assert(sa % 3600 == ra % 3600);
        assert(sb % 3600 == rb % 3600);
        if ta.hour == tb.hour && ta.minute == tb.minute {
            assert(ta == tb);
        } else {
            law_earlier_times_are_written_first(ta, tb);
        }
    }
}

/// Every text in a cache is what is written for its time, as long as the system makes `zone` of
/// times.
pub open spec fn faithful(
    cache: Map<u64, String>,
    zone: spec_fn(u64) -> Option<DateTime>,
) -> bool {
    forall|ft: u64| #[trigger]
        cache.dom().contains(ft) ==> cache[ft]@ == local_text(ft, zone(ft))
}

/// The cache of local times cannot be noticed: as long as the system makes the same of each time,
/// what is shown is what is written without a cache, whatever was shown before; and where the
/// system makes nothing of a time, it is written in UTC.
pub proof fn law_cache_cannot_be_noticed(
    cache: Map<u64, String>,
    zone: spec_fn(u64) -> Option<DateTime>,
    ft: u64,
    text: String,
)
    requires
        faithful(cache, zone),
        text@ == time_shown(cache, ft, zone(ft)),
    ensures
        faithful(Map::<u64, String>::empty(), zone),
        time_shown(cache, ft, zone(ft)) == time_shown(Map::<u64, String>::empty(), ft, zone(ft)),
        ft == 0 ==> text@.len() == 0,
        ft != 0 && zone(ft) is None ==> text@ == filetime_text(ft),
        faithful(cache_after(cache, ft, text), zone),
{
}

} // verus!
