//! What a reader takes a written size for.

use vstd::prelude::*;

use crate::format::{
    hundredths, law_size_text_is_near, size_text, size_text_compact, two_decimals, unit_index,
    unit_size,
};
use crate::text::{decimal, decimal_fixed};
use crate::text_laws::{
    all_digits, law_decimal_reads_back, law_fixed_decimal_reads_back, number_read,
};

verus! {

/// How many bytes a unit stands for, by its name.
pub open spec fn unit_bytes(name: Seq<char>) -> int {
    if name == "B"@ {
        1
    } else if name == "KB"@ {
        1024
    } else if name == "MB"@ {
        1024int * 1024
    } else if name == "GB"@ {
        1024int * 1024 * 1024
    } else if name == "TB"@ {
        1024int * 1024 * 1024 * 1024
    } else {
        0
    }
}

/// Whether a text is a number with two decimals, which is `hundreds` hundredths.
pub open spec fn is_amount(s: Seq<char>, hundreds: int) -> bool {
    exists|whole: Seq<char>, part: Seq<char>|
        s == #[trigger] (whole + seq!['.'] + part) && all_digits(whole) && all_digits(part)
            && whole.len() > 0 && part.len() == 2 && 100 * number_read(whole) + number_read(part)
            == hundreds
}

proof fn lemma_amount(h: nat)
    ensures
        is_amount(two_decimals(h), h as int),
{
    let whole = decimal(h / 100);
    let part = decimal_fixed(h % 100, 2);
    law_decimal_reads_back(h / 100);
    law_fixed_decimal_reads_back(h % 100, 2);
    assert(whole.push('.') + part =~= whole + seq!['.'] + part);
    assert(h == 100 * (h / 100) + h % 100);
}

/// A size is written as a number with two decimals, a blank and a unit, and that many units are
/// the size, to within half a hundredth of the unit. The unit is the largest that goes into the
/// size, but none is larger than TB.
pub proof fn law_size_is_written_in_its_unit(bytes: nat)
    requires
        bytes < 0x20_0000_0000_0000,
    ensures
        exists|amount: Seq<char>, unit: Seq<char>, h: int|
            #![trigger is_amount(amount, h), unit_bytes(unit)]
            size_text(bytes) == amount + seq![' '] + unit && is_amount(amount, h) && unit_bytes(unit)
                > 0 && -unit_bytes(unit) <= 2 * (h * unit_bytes(unit) - 100 * bytes) <= unit_bytes(
                unit,
            ) && (unit_bytes(unit) == 1 || unit_bytes(unit) <= bytes) && (bytes < 1024 * unit_bytes(
                unit,
            ) || unit == "TB"@),
{
    law_size_text_is_near(bytes);
    let h = hundredths(bytes);
    lemma_amount(h);
    let amount = two_decimals(h);
    let unit = crate::format::unit_name(unit_index(bytes));
    reveal_strlit("B");
    reveal_strlit("KB");
    reveal_strlit("MB");
    reveal_strlit("GB");
    reveal_strlit("TB");
    assert("B"@.len() == 1 && "KB"@.len() == 2 && "MB"@.len() == 2 && "GB"@.len() == 2
        && "TB"@.len() == 2);
    assert("KB"@[0] == 'K' && "MB"@[0] == 'M' && "GB"@[0] == 'G' && "TB"@[0] == 'T');
    assert(unit_bytes(unit) == unit_size(unit_index(bytes)));
    assert(amount.push(' ') + unit =~= amount + seq![' '] + unit);
    assert(is_amount(amount, h as int) && unit_bytes(unit) > 0);
}

/// The short form of a size has the same number and the first letter of the same unit behind it;
/// a size below 1024 is written in bytes, without decimals.
pub proof fn law_short_size_is_the_same_size(bytes: nat)
    ensures
        bytes < 1024 ==> size_text_compact(bytes).len() > 0 && size_text_compact(bytes).last() == 'B'
            && all_digits(size_text_compact(bytes).drop_last()) && number_read(
            size_text_compact(bytes).drop_last(),
        ) == bytes,
        bytes >= 1024 ==> exists|amount: Seq<char>, unit: Seq<char>|
            #![trigger amount + seq![' '] + unit]
            size_text(bytes) == amount + seq![' '] + unit && unit.len() == 2 && size_text_compact(
                bytes,
            ) == amount + seq![unit[0]],
{
    reveal_strlit("KB");
    reveal_strlit("MB");
    reveal_strlit("GB");
    reveal_strlit("TB");
    if bytes < 1024 {
        law_decimal_reads_back(bytes);
        assert(size_text_compact(bytes).drop_last() =~= decimal(bytes));
    } else {
        let amount = two_decimals(hundredths(bytes));
        let unit = crate::format::unit_name(unit_index(bytes));
        assert(amount.push(' ') + unit =~= amount + seq![' '] + unit);
        assert("KB"@[0] == 'K' && "MB"@[0] == 'M' && "GB"@[0] == 'G' && "TB"@[0] == 'T');
        assert(unit.len() == 2);
        assert(size_text_compact(bytes) =~= amount + seq![unit[0]]);
        assert(size_text(bytes) == amount + seq![' '] + unit);
    }
}

} // verus!
