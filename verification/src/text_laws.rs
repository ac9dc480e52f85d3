//! What written numbers and trimmed texts say when they are read again.

use vstd::prelude::*;

use crate::text::{
    decimal, decimal_fixed, hex_fixed, hex_upper, lower_ascii, trim_end, trim_start,
};

verus! {

/// What a decimal digit stands for; -1 for any other character.
pub open spec fn digit_value(c: char) -> int {
    if '0' <= c <= '9' {
        c as int - '0' as int
    } else {
        -1
    }
}

/// What an upper case hexadecimal digit stands for; -1 for any other character.
pub open spec fn hex_value(c: char) -> int {
    if '0' <= c <= '9' {
        c as int - '0' as int
    } else if 'A' <= c <= 'F' {
        c as int - 'A' as int + 10
    } else {
        -1
    }
}

/// Whether a text consists of decimal digits, at least one.
pub open spec fn all_digits(s: Seq<char>) -> bool {
    s.len() > 0 && forall|i: int| 0 <= i < s.len() ==> digit_value(#[trigger] s[i]) >= 0
}

/// The number that decimal digits stand for.
pub open spec fn number_read(s: Seq<char>) -> int
    decreases s.len(),
{
    if s.len() == 0 {
        0
    } else {
        10 * number_read(s.drop_last()) + digit_value(s.last())
    }
}

/// The number that hexadecimal digits stand for.
pub open spec fn hex_read(s: Seq<char>) -> int
    decreases s.len(),
{
    if s.len() == 0 {
        0
    } else {
        16 * hex_read(s.drop_last()) + hex_value(s.last())
    }
}

/// A number that is written in decimal consists of digits, does not begin with a zero unless it
/// is zero, and reads back as the number.
pub proof fn law_decimal_reads_back(n: nat)
    ensures
        all_digits(decimal(n)),
        number_read(decimal(n)) == n,
        decimal(n)[0] == '0' ==> n == 0 && decimal(n).len() == 1,
    decreases n,
{
    let d = decimal(n);
    if n < 10 {
        assert(d.drop_last() =~= Seq::empty());
        assert(number_read(d.drop_last()) == 0);
    } else {
        law_decimal_reads_back(n / 10);
        let front = decimal(n / 10);
        assert(d.drop_last() =~= front);
        assert forall|i: int| 0 <= i < d.len() implies digit_value(#[trigger] d[i]) >= 0 by {
            if i < front.len() {
                assert(d[i] == front[i]);
            }
        }
        assert(d[0] == front[0]);
    }
}

/// A number that is written with a fixed number of decimal digits has that many, and reads back
/// as the number where it is short enough.
pub proof fn law_fixed_decimal_reads_back(n: nat, width: nat)
    ensures
        decimal_fixed(n, width).len() == width,
        width > 0 ==> all_digits(decimal_fixed(n, width)),
        width == 2 && n < 100 ==> number_read(decimal_fixed(n, width)) == n,
        0 <= number_read(decimal_fixed(n, width)) <= n,
    decreases width,
{
    let d = decimal_fixed(n, width);
    if width > 0 {
        law_fixed_decimal_reads_back(n / 10, (width - 1) as nat);
        let front = decimal_fixed(n / 10, (width - 1) as nat);
        assert(d.drop_last() =~= front);
        assert forall|i: int| 0 <= i < d.len() implies digit_value(#[trigger] d[i]) >= 0 by {
            if i < front.len() {
                assert(d[i] == front[i]);
            }
        }
        if width == 2 && n < 100 {
            let f = decimal_fixed(n / 10, 1);
            assert(decimal_fixed(n / 10 / 10, 0) =~= Seq::<char>::empty());
            assert(f.drop_last() =~= Seq::<char>::empty());
            assert(number_read(f.drop_last()) == 0);
        }
    }
}

/// A number that is written in hexadecimal reads back as the number.
pub proof fn law_hex_reads_back(n: nat)
    ensures
        hex_upper(n).len() > 0,
        forall|i: int| 0 <= i < hex_upper(n).len() ==> hex_value(#[trigger] hex_upper(n)[i]) >= 0,
        hex_read(hex_upper(n)) == n,
    decreases n,
{
    let d = hex_upper(n);
    if n < 16 {
        assert(d.drop_last() =~= Seq::empty());
        assert(hex_read(d.drop_last()) == 0);
    } else {
        law_hex_reads_back(n / 16);
        let front = hex_upper(n / 16);
        assert(d.drop_last() =~= front);
        assert forall|i: int| 0 <= i < d.len() implies hex_value(#[trigger] d[i]) >= 0 by {
            if i < front.len() {
                assert(d[i] == front[i]);
            }
        }
    }
}

/// A number that is written with a fixed number of hexadecimal digits has that many.
pub proof fn law_fixed_hex_is_wide(n: nat, width: nat)
    ensures
        hex_fixed(n, width).len() == width,
        forall|i: int|
            0 <= i < width ==> hex_value(#[trigger] hex_fixed(n, width)[i]) >= 0,
        width > 0 ==> hex_value(hex_fixed(n, width).last()) == n % 16,
    decreases width,
{
    if width > 0 {
        law_fixed_hex_is_wide(n / 16, (width - 1) as nat);
        let front = hex_fixed(n / 16, (width - 1) as nat);
        let d = hex_fixed(n, width);
        assert forall|i: int| 0 <= i < width implies hex_value(#[trigger] d[i]) >= 0 by {
            if i < front.len() {
                assert(d[i] == front[i]);
            }
        }
    }
}

/// Trimming a character off the end of a text takes off that character and nothing else, and
/// leaves none of it at the end.
pub proof fn law_trim_end_takes_the_end(s: Seq<char>, c: char)
    ensures
        trim_end(s, c).len() <= s.len(),
        trim_end(s, c) == s.take(trim_end(s, c).len() as int),
        forall|i: int| trim_end(s, c).len() <= i < s.len() ==> #[trigger] s[i] == c,
        trim_end(s, c).len() > 0 ==> trim_end(s, c).last() != c,
    decreases s.len(),
{
    if s.len() > 0 && s.last() == c {
        law_trim_end_takes_the_end(s.drop_last(), c);
        let n = trim_end(s, c).len() as int;
        assert(s.take(n) =~= s.drop_last().take(n));
        assert forall|i: int| n <= i < s.len() implies #[trigger] s[i] == c by {
            if i < s.len() - 1 {
                assert(s.drop_last()[i] == s[i]);
            }
        }
    } else {
        assert(s.take(s.len() as int) =~= s);
    }
}

/// Whether `folder` is `base` without the backslashes at its end.
pub open spec fn is_bare(folder: Seq<char>, base: Seq<char>) -> bool {
    &&& folder.is_prefix_of(base)
    &&& folder.len() > 0 ==> folder.last() != '\\'
    &&& forall|i: int| folder.len() <= i < base.len() ==> #[trigger] base[i] == '\\'
}

/// There is one such text, and trimming gives it.
pub proof fn lemma_bare(folder: Seq<char>, base: Seq<char>)
    requires
        is_bare(folder, base),
    ensures
        folder == trim_end(base, '\\'),
{
    let t = trim_end(base, '\\');
    law_trim_end_takes_the_end(base, '\\');
    if t.len() < folder.len() {
        assert(base[folder.len() - 1] == '\\');
        assert(folder[folder.len() - 1] == base[folder.len() - 1]);
    }
    if folder.len() < t.len() {
        assert(base[t.len() - 1] == '\\');
        assert(t[t.len() - 1] == base[t.len() - 1]);
    }
    assert(folder =~= t);
}

/// Trimming a character off the start of a text takes off that character and nothing else, and
/// leaves none of it at the start.
pub proof fn law_trim_start_takes_the_start(s: Seq<char>, c: char)
    ensures
        trim_start(s, c).len() <= s.len(),
        trim_start(s, c) == s.skip(s.len() - trim_start(s, c).len()),
        forall|i: int| 0 <= i < s.len() - trim_start(s, c).len() ==> #[trigger] s[i] == c,
        trim_start(s, c).len() > 0 ==> trim_start(s, c)[0] != c,
    decreases s.len(),
{
    if s.len() > 0 && s[0] == c {
        law_trim_start_takes_the_start(s.skip(1), c);
        let n = s.len() - trim_start(s, c).len();
        assert(s.skip(n) =~= s.skip(1).skip(n - 1));
        assert forall|i: int| 0 <= i < n implies #[trigger] s[i] == c by {
            if i > 0 {
                assert(s.skip(1)[i - 1] == s[i]);
            }
        }
    } else {
        assert(s.skip(0) =~= s);
    }
}

/// Lower case keeps the length of a text and every character but the letters from A to Z, which
/// become those from a to z.
pub proof fn law_lower_ascii_changes_capitals(s: Seq<char>, i: int)
    requires
        0 <= i < s.len(),
    ensures
        lower_ascii(s).len() == s.len(),
        !('A' <= s[i] <= 'Z') ==> lower_ascii(s)[i] == s[i],
        'A' <= s[i] <= 'Z' ==> 'a' <= lower_ascii(s)[i] <= 'z' && lower_ascii(s)[i] as int
            - 'a' as int == s[i] as int - 'A' as int,
{
}

} // verus!
