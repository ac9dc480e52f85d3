//! How sizes, times and attributes are written.

use std::collections::HashMap;

use vstd::prelude::*;
use vstd::string::*;

use crate::calendar::{days_to_ymd, date_of};
use crate::text::{
    chars_of, decimal, digit_char, owned, push_decimal, push_decimal_fixed, decimal_fixed,
};

verus! {

broadcast use vstd::std_specs::hash::group_hash_axioms;

/// `n / d`, rounded to the nearest whole number, to the even one of two equally near.
pub open spec fn round_half_even(n: nat, d: nat) -> nat {
    let q = n / d;
    let r = n % d;
    if 2 * r < d || (2 * r == d && q % 2 == 0) {
        q
    } else {
        q + 1
    }
}

/// How far apart the numbers with a 53 bit significand are around `n`, from 1 up.
pub open spec fn spacing(n: nat) -> nat
    decreases n,
{
    if n < 0x20_0000_0000_0000 {
        1
    } else {
        2 * spacing(n / 2)
    }
}

/// The number with a 53 bit significand that is nearest to `n`.
pub open spec fn nearest_double(n: nat) -> nat {
    round_half_even(n, spacing(n)) * spacing(n)
}

/// How many times 1024 goes into a size, at most four times.
pub open spec fn unit_index(n: nat) -> nat {
    if n < 1024 {
        0
    } else if n < 0x10_0000 {
        1
    } else if n < 0x4000_0000 {
        2
    } else if n < 0x100_0000_0000 {
        3
    } else {
        4
    }
}

/// 1024 to the power `u`, for `u` up to four.
pub open spec fn unit_size(u: nat) -> nat {
    if u == 0 {
        1
    } else if u == 1 {
        1024
    } else if u == 2 {
        0x10_0000
    } else if u == 3 {
        0x4000_0000
    } else {
        0x100_0000_0000
    }
}

/// A size in hundredths of its unit.
pub open spec fn hundredths(bytes: nat) -> nat {
    round_half_even(nearest_double(bytes) * 100, unit_size(unit_index(bytes)))
}

/// A number of hundredths with two decimals.
pub open spec fn two_decimals(h: nat) -> Seq<char> {
    decimal(h / 100).push('.') + decimal_fixed(h % 100, 2)
}

/// The name of a unit.
pub open spec fn unit_name(u: nat) -> Seq<char> {
    if u == 0 {
        "B"@
    } else if u == 1 {
        "KB"@
    } else if u == 2 {
        "MB"@
    } else if u == 3 {
        "GB"@
    } else {
        "TB"@
    }
}

/// The one letter name of a unit.
pub open spec fn unit_letter(u: nat) -> char {
    if u == 0 {
        'B'
    } else if u == 1 {
        'K'
    } else if u == 2 {
        'M'
    } else if u == 3 {
        'G'
    } else {
        'T'
    }
}

/// A size with two decimals, a blank and its unit.
pub open spec fn size_text(bytes: nat) -> Seq<char> {
    two_decimals(hundredths(bytes)).push(' ') + unit_name(unit_index(bytes))
}

/// A size and the letter of its unit; bytes come without decimals.
pub open spec fn size_text_compact(bytes: nat) -> Seq<char> {
    if unit_index(bytes) == 0 {
        decimal(bytes).push('B')
    } else {
        two_decimals(hundredths(bytes)).push(unit_letter(unit_index(bytes)))
    }
}

fn rounded(n: u128, d: u128) -> (r: u128)
    requires
        0 < d <= 0x1_0000_0000_0000,
        n <= 0x80_0000_0000_0000_0000_0000,
    ensures
        r == round_half_even(n as nat, d as nat),
        r <= n / d + 1,
{
    let q: u128 = n / d;
    let rest: u128 = n % d;
    assert(q <= n) by (nonlinear_arith)
        requires
            q == n / d,
            d > 0,
            n >= 0,
    ;
    if 2 * rest < d || (2 * rest == d && q % 2 == 0) {
        q
    } else {
        q + 1
    }
}

fn spacing_of(n: u64) -> (s: u128)
    ensures
        s == spacing(n as nat),
        1 <= s <= 4096,
{
    let mut m: u64 = n;
    let mut s: u64 = 1;
    while m >= 0x20_0000_0000_0000
        invariant
            s * spacing(m as nat) == spacing(n as nat),
            1 <= s <= 4096,
            m * s <= n,
        decreases m,
    {
        let ghost m0 = m;
        let ghost s0 = s;
        assert(s < 2048) by (nonlinear_arith)
            requires
                m * s <= n,
                m >= 0x20_0000_0000_0000,
                n <= 0xffff_ffff_ffff_ffff,
        ;
        m = m / 2;
        s = s * 2;
        proof {
            let below = spacing(m as nat);
            assert(s0 * (2 * below) == (s0 * 2) * below) by (nonlinear_arith);
            assert(m * (s0 * 2) <= m0 * s0) by (nonlinear_arith)
                requires
                    m == m0 / 2,
                    s0 >= 1,
            ;
        }
    }
    assert(s * 1 == s);
    s as u128
}

fn nearest(n: u64) -> (r: u128)
    ensures
        r == nearest_double(n as nat),
        r <= n + 4096,
{
    let s: u128 = spacing_of(n);
    let q: u128 = rounded(n as u128, s);
    proof {
        vstd::arithmetic::div_mod::lemma_fundamental_div_mod(n as int, s as int);
        assert(q * s <= n + s) by (nonlinear_arith)
            requires
                q <= n as int / s as int + 1,
                n as int == s as int * (n as int / s as int) + n as int % s as int,
                0 <= n as int % s as int,
                s >= 1,
        ;
    }
    q * s
}

fn hundredths_of(bytes: u64, unit: u128) -> (h: u64)
    requires
        unit == unit_size(unit_index(bytes as nat)),
    ensures
        h == hundredths(bytes as nat),
{
    let v: u128 = nearest(bytes);
    let h: u128 = rounded(v * 100, unit);
    proof {
        assert(h <= 0xffff_ffff_ffff_ffff) by {
            let w = v * 100;
            assert(w / (unit as int) <= 0xffff_ffff_ffff_fff0) by (nonlinear_arith)
                requires
                    w == v * 100,
                    v <= bytes + 4096,
                    (unit == 1 && bytes < 1024) || (unit >= 1024 && bytes <= 0xffff_ffff_ffff_ffff),
            ;
        }
    }
    h as u64
}

fn push_two_decimals(s: &mut String, h: u64)
    ensures
        final(s)@ == old(s)@ + two_decimals(h as nat),
{
    push_decimal(s, h / 100);
    s.push('.');
    push_decimal_fixed(s, h % 100, 2);
    assert(s@ =~= old(s)@ + two_decimals(h as nat));
}

fn unit_of(bytes: u64) -> (r: (u8, u128))
    ensures
        r.0 == unit_index(bytes as nat),
        r.1 == unit_size(unit_index(bytes as nat)),
{
    if bytes < 1024 {
        (0, 1)
    } else if bytes < 0x10_0000 {
        (1, 1024)
    } else if bytes < 0x4000_0000 {
        (2, 0x10_0000)
    } else if bytes < 0x100_0000_0000 {
        (3, 0x4000_0000)
    } else {
        (4, 0x100_0000_0000)
    }
}

/// A size for reading, such as `1.50 MB`.
pub fn human_size(bytes: u64) -> (r: String)
    ensures
        r@ == size_text(bytes as nat),
{
    let (u, unit) = unit_of(bytes);
    let mut s = String::new();
    push_two_decimals(&mut s, hundredths_of(bytes, unit));
    s.push(' ');
    let name = if u == 0 {
        "B"
    } else if u == 1 {
        "KB"
    } else if u == 2 {
        "MB"
    } else if u == 3 {
        "GB"
    } else {
        "TB"
    };
    s.append(name);
    assert(s@ =~= size_text(bytes as nat));
    s
}

/// A size for a narrow column, such as `1.50M`.
pub fn human_size_compact(bytes: u64) -> (r: String)
    ensures
        r@ == size_text_compact(bytes as nat),
{
    let (u, unit) = unit_of(bytes);
    let mut s = String::new();
    if u == 0 {
        push_decimal(&mut s, bytes);
        s.push('B');
        assert(s@ =~= size_text_compact(bytes as nat));
        return s;
    }
    push_two_decimals(&mut s, hundredths_of(bytes, unit));
    s.push(
        if u == 1 {
            'K'
        } else if u == 2 {
            'M'
        } else if u == 3 {
            'G'
        } else {
            'T'
        },
    );
    assert(s@ =~= size_text_compact(bytes as nat));
    s
}

/// A size below eight petabytes is written to within half a hundredth of its unit.
pub proof fn law_size_text_is_near(bytes: nat)
    requires
        bytes < 0x20_0000_0000_0000,
    ensures
        ({
            let unit = unit_size(unit_index(bytes)) as int;
            let h = hundredths(bytes) as int;
            -unit <= 2 * (h * unit - 100 * bytes) <= unit
        }),
{
    let unit = unit_size(unit_index(bytes));
    assert(spacing(bytes) == 1);
    assert(nearest_double(bytes) == bytes);
    let w = bytes * 100;
    vstd::arithmetic::div_mod::lemma_fundamental_div_mod(w as int, unit as int);
    let q = w / unit;
    let r = w % unit;
    assert(unit * q == q * unit) by (nonlinear_arith);
    assert((q + 1) * unit == q * unit + unit) by (nonlinear_arith);
}

/// A number in decimal, with zeros in front up to `width` digits.
pub open spec fn padded(n: nat, width: nat) -> Seq<char>
    decreases width, n,
{
    if n < 10 && width <= 1 {
        seq![digit_char(n as int)]
    } else {
        padded(
            n / 10,
            if width > 0 {
                (width - 1) as nat
            } else {
                0
            },
        ).push(digit_char((n % 10) as int))
    }
}

proof fn lemma_padded(n: nat, width: nat)
    ensures
        width <= 1 ==> padded(n, width) == decimal(n),
    decreases n,
{
    if n >= 10 && width <= 1 {
        lemma_padded(n / 10, 0);
    }
}

fn push_padded(s: &mut String, n: u64, width: u8)
    ensures
        final(s)@ == old(s)@ + padded(n as nat, width as nat),
    decreases width,
{
    if width <= 1 {
        proof {
            lemma_padded(n as nat, width as nat);
        }
        push_decimal(s, n);
    } else {
        push_padded(s, n / 10, width - 1);
        push_decimal(s, n % 10);
        assert(s@ =~= old(s)@ + padded(n as nat, width as nat));
    }
}

/// A day and a time of day.
pub struct DateTime {
    pub year: u64,
    pub month: u64,
    pub day: u64,
    pub hour: u64,
    pub minute: u64,
}

impl DateTime {
    /// Year, month and day with dashes, a blank, hour and minute.
    pub open spec fn written(self) -> Seq<char> {
        (padded(self.year as nat, 4).push('-') + padded(self.month as nat, 2)).push('-') + (padded(
            self.day as nat,
            2,
        ).push(' ') + padded(self.hour as nat, 2)).push(':') + padded(self.minute as nat, 2)
    }

    /// Year, month and day with dashes, a blank, hour and minute.
    pub fn text(&self) -> (r: String)
        ensures
            r@ == self.written(),
    {
        let mut s = String::new();
        push_padded(&mut s, self.year, 4);
        s.push('-');
        push_padded(&mut s, self.month, 2);
        s.push('-');
        push_padded(&mut s, self.day, 2);
        s.push(' ');
        push_padded(&mut s, self.hour, 2);
        s.push(':');
        push_padded(&mut s, self.minute, 2);
        assert(s@ =~= self.written());
        s
    }
}

/// Seconds from 1601-01-01 to 1970-01-01.
pub const FILETIME_UNIX_OFFSET_SECS: u64 = 11_644_473_600;

/// A time in 100 ns since 1601 as a UTC day and minute; nothing for times before 1970.
pub open spec fn filetime_text(ft: u64) -> Seq<char> {
    let secs = ft as int / 10_000_000 - FILETIME_UNIX_OFFSET_SECS as int;
    if secs < 0 {
        Seq::empty()
    } else {
        let date = date_of(secs / 86400);
        (DateTime {
            year: date.year as u64,
            month: date.month as u64,
            day: date.day as u64,
            hour: (secs % 86400 / 3600) as u64,
            minute: (secs % 3600 / 60) as u64,
        }).written()
    }
}

/// A time in 100 ns since 1601 as a UTC day and minute; nothing for times before 1970.
pub fn format_filetime(ft: u64) -> (r: String)
    ensures
        r@ == filetime_text(ft),
{
    let all: u64 = ft / 10_000_000;
    if all < FILETIME_UNIX_OFFSET_SECS {
        return String::new();
    }
    let secs: u64 = all - FILETIME_UNIX_OFFSET_SECS;
    let of_day: u64 = secs % 86400;
    let date = days_to_ymd(secs / 86400);
    proof {
        let s = secs as int;
        assert(s % 86400 % 3600 == s % 3600);
    }
    let t = DateTime {
        year: date.year,
        month: date.month,
        day: date.day,
        hour: of_day / 3600,
        minute: of_day % 3600 / 60,
    };
    t.text()
}

/// How many times a cache of local times holds at most.
pub const FILETIME_LOCAL_CACHE_CAP: usize = 65_536;

/// Local times that were written before.
pub struct TimeCache {
    texts: HashMap<u64, String>,
}

impl View for TimeCache {
    type V = Map<u64, String>;

    closed spec fn view(&self) -> Map<u64, String> {
        self.texts@
    }
}

impl TimeCache {
    /// The cache is no larger than it may be.
    pub open spec fn wf(&self) -> bool {
        &&& self@.dom().finite()
        &&& self@.len() <= FILETIME_LOCAL_CACHE_CAP
    }

    /// A cache that holds nothing.
    pub fn new() -> (r: Self)
        ensures
            r.wf(),
            r@ == Map::<u64, String>::empty(),
    {
        TimeCache { texts: HashMap::new() }
    }

    /// What was written for a time before.
    pub fn known(&self, ft: u64) -> (r: Option<&String>)
        ensures
            match r {
                Some(s) => self@.dom().contains(ft) && *s == self@[ft],
                None => !self@.dom().contains(ft),
            },
    {
        self.texts.get(&ft)
    }
}

/// What is written for a time whose local form is, or is not, known.
pub open spec fn local_text(ft: u64, local: Option<DateTime>) -> Seq<char> {
    match local {
        Some(t) => t.written(),
        None => filetime_text(ft),
    }
}

/// What is shown for a time: nothing for time 0, else what the cache holds, else what is written
/// for it now.
pub open spec fn time_shown(
    cache: Map<u64, String>,
    ft: u64,
    local: Option<DateTime>,
) -> Seq<char> {
    if ft == 0 {
        Seq::empty()
    } else if cache.dom().contains(ft) {
        cache[ft]@
    } else {
        local_text(ft, local)
    }
}

/// The cache once a text was shown for a time: the text is kept, and a cache that is full starts
/// over.
pub open spec fn cache_after(cache: Map<u64, String>, ft: u64, text: String) -> Map<u64, String> {
    if ft == 0 || cache.dom().contains(ft) {
        cache
    } else if cache.len() >= FILETIME_LOCAL_CACHE_CAP {
        Map::<u64, String>::empty().insert(ft, text)
    } else {
        cache.insert(ft, text)
    }
}

/// A time as the local day and minute, from the cache where it is there. `local` is what the
/// system made of the time; without it the time is written in UTC.
pub fn format_filetime_local(
    cache: &mut TimeCache,
    ft: u64,
    local: Option<DateTime>,
) -> (r: String)
    requires
        old(cache).wf(),
    ensures
        final(cache).wf(),
        r@ == time_shown(old(cache)@, ft, local),
        final(cache)@ == cache_after(old(cache)@, ft, r),
{
    if ft == 0 {
        return String::new();
    }
    if let Some(s) = cache.texts.get(&ft) {
        return s.clone();
    }
    let s = match local {
        Some(t) => t.text(),
        None => format_filetime(ft),
    };
    if cache.texts.len() >= FILETIME_LOCAL_CACHE_CAP {
        cache.texts.clear();
    }
    cache.texts.insert(ft, s.clone());
    s
}

/// The letters for the attributes that are shown, or a dash where there is none.
pub open spec fn attributes_text(attrs: u32) -> Seq<char> {
    let s = letter_if(attrs & 0x01 != 0, 'R') + letter_if(attrs & 0x02 != 0, 'H') + letter_if(
        attrs & 0x04 != 0,
        'S',
    ) + letter_if(attrs & 0x20 != 0, 'A') + letter_if(attrs & 0x800 != 0, 'C');
    if s.len() == 0 {
        "—"@
    } else {
        s
    }
}

/// One letter, or none.
pub open spec fn letter_if(b: bool, c: char) -> Seq<char> {
    if b {
        seq![c]
    } else {
        Seq::empty()
    }
}

fn push_if(s: &mut String, b: bool, c: char)
    ensures
        final(s)@ == old(s)@ + letter_if(b, c),
{
    if b {
        s.push(c);
    }
    assert(s@ =~= old(s)@ + letter_if(b, c));
}

/// The letters for the attributes that are shown: read-only, hidden, system, archive and
/// compressed.
pub fn format_attributes(attrs: u32) -> (r: String)
    ensures
        r@ == attributes_text(attrs),
{
    let mut s = String::new();
    push_if(&mut s, attrs & 0x01 != 0, 'R');
    push_if(&mut s, attrs & 0x02 != 0, 'H');
    push_if(&mut s, attrs & 0x04 != 0, 'S');
    push_if(&mut s, attrs & 0x20 != 0, 'A');
    push_if(&mut s, attrs & 0x800 != 0, 'C');
    if attrs & 0x01 != 0 || attrs & 0x02 != 0 || attrs & 0x04 != 0 || attrs & 0x20 != 0 || attrs
        & 0x800 != 0 {
        s
    } else {
        owned("—")
    }
}

/// The first `k` characters of a text and an ellipsis.
pub open spec fn shortened(text: Seq<char>, k: int) -> Seq<char> {
    text.take(k).push('…')
}

/// Whether `fits` may give `answer` for a text.
pub open spec fn may_answer<F: Fn(&str) -> bool>(fits: F, text: Seq<char>, answer: bool) -> bool {
    exists|s: &str| s@ == text && #[trigger] call_ensures(fits, (s,), answer)
}

/// Cuts a text down to what fits: the whole text, or else the longest beginning up to the first
/// that does not fit, with an ellipsis behind it, or else nothing.
pub fn truncate_text<F: Fn(&str) -> bool>(text: &str, fits: F) -> (r: String)
    requires
        forall|s: &str| call_requires(fits, (s,)),
    ensures
        may_answer(fits, text@, true) && r@ == text@ || may_answer(fits, text@, false) && exists|
            k: int,
        |
            {
                &&& 0 <= k <= text@.len()
                &&& r@ == (if k == 0 {
                    Seq::empty()
                } else {
                    #[trigger] shortened(text@, k)
                })
                &&& forall|j: int| 1 <= j <= k ==> may_answer(fits, #[trigger] shortened(text@, j), true)
                &&& k < text@.len() ==> may_answer(fits, shortened(text@, k + 1), false)
            },
{
    if fits(text) {
        return owned(text);
    }
    let v = chars_of(text);
    let mut kept = String::new();
    let mut i: usize = 0;
    while i < v.len()
        invariant
            i <= v.len(),
            v@ == text@,
            kept@ == text@.take(i as int),
            may_answer(fits, text@, false),
            forall|s: &str| call_requires(fits, (s,)),
            forall|j: int| 1 <= j <= i ==> may_answer(fits, #[trigger] shortened(text@, j), true),
        ensures
            i < text@.len() ==> may_answer(fits, shortened(text@, i + 1), false),
        decreases v.len() - i,
    {
        let mut candidate = kept.clone();
        candidate.push(v[i]);
        candidate.push('…');
        assert(candidate@ =~= shortened(text@, i + 1));
        if !fits(candidate.as_str()) {
            break;
        }
        kept.push(v[i]);
        assert(kept@ =~= text@.take(i + 1));
        i += 1;
    }
    assert(shortened(text@, i as int) == shortened(text@, i as int));
    if i == 0 {
        return String::new();
    }
    kept.push('…');
    kept
}

} // verus!
