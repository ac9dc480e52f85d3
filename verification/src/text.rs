//! Small pieces for building and taking apart text.

use vstd::prelude::*;
use vstd::string::*;
use vstd::utf8::*;

verus! {

/// `String::push` appends one character.
pub assume_specification[ String::push ](s: &mut String, c: char)
    ensures
        final(s)@ == old(s)@.push(c),
;

/// The character that stands for a decimal digit.
pub open spec fn digit_char(d: int) -> char {
    (0x30 + d) as char
}

/// A number in decimal, without leading zeros.
pub open spec fn decimal(n: nat) -> Seq<char>
    decreases n,
{
    if n < 10 {
        seq![digit_char(n as int)]
    } else {
        decimal(n / 10).push(digit_char((n % 10) as int))
    }
}

/// The last `width` decimal digits of a number, zeros in front.
pub open spec fn decimal_fixed(n: nat, width: nat) -> Seq<char>
    decreases width,
{
    if width == 0 {
        Seq::empty()
    } else {
        decimal_fixed(n / 10, (width - 1) as nat).push(digit_char((n % 10) as int))
    }
}

/// The character for an upper case hexadecimal digit.
pub open spec fn hex_char(d: int) -> char {
    if d < 10 {
        (0x30 + d) as char
    } else {
        (0x41 + d - 10) as char
    }
}

/// A number in upper case hexadecimal, without leading zeros.
pub open spec fn hex_upper(n: nat) -> Seq<char>
    decreases n,
{
    if n < 16 {
        seq![hex_char(n as int)]
    } else {
        hex_upper(n / 16).push(hex_char((n % 16) as int))
    }
}

/// The last `width` upper case hexadecimal digits of a number, zeros in front.
pub open spec fn hex_fixed(n: nat, width: nat) -> Seq<char>
    decreases width,
{
    if width == 0 {
        Seq::empty()
    } else {
        hex_fixed(n / 16, (width - 1) as nat).push(hex_char((n % 16) as int))
    }
}

fn digit_of(d: u8) -> (c: char)
    requires
        d < 10,
    ensures
        c == digit_char(d as int),
{
    (0x30u8 + d) as char
}

fn hex_digit_of(d: u8) -> (c: char)
    requires
        d < 16,
    ensures
        c == hex_char(d as int),
{
    if d < 10 {
        (0x30u8 + d) as char
    } else {
        (0x41u8 + (d - 10)) as char
    }
}

/// Appends a number in decimal.
pub fn push_decimal(s: &mut String, n: u64)
    ensures
        final(s)@ == old(s)@ + decimal(n as nat),
    decreases n,
{
    if n >= 10 {
        push_decimal(s, n / 10);
    }
    s.push(digit_of((n % 10) as u8));
    assert(s@ =~= old(s)@ + decimal(n as nat));
}

/// Appends the last `width` decimal digits of a number.
pub fn push_decimal_fixed(s: &mut String, n: u64, width: u8)
    ensures
        final(s)@ == old(s)@ + decimal_fixed(n as nat, width as nat),
    decreases width,
{
    if width > 0 {
        push_decimal_fixed(s, n / 10, width - 1);
        s.push(digit_of((n % 10) as u8));
    }
    assert(s@ =~= old(s)@ + decimal_fixed(n as nat, width as nat));
}

/// Appends a number in upper case hexadecimal.
pub fn push_hex_upper(s: &mut String, n: u64)
    ensures
        final(s)@ == old(s)@ + hex_upper(n as nat),
    decreases n,
{
    if n >= 16 {
        push_hex_upper(s, n / 16);
    }
    s.push(hex_digit_of((n % 16) as u8));
    assert(s@ =~= old(s)@ + hex_upper(n as nat));
}

/// Appends the last `width` upper case hexadecimal digits of a number.
pub fn push_hex_fixed(s: &mut String, n: u64, width: u8)
    ensures
        final(s)@ == old(s)@ + hex_fixed(n as nat, width as nat),
    decreases width,
{
    if width > 0 {
        push_hex_fixed(s, n / 16, width - 1);
        s.push(hex_digit_of((n % 16) as u8));
    }
    assert(s@ =~= old(s)@ + hex_fixed(n as nat, width as nat));
}

/// The characters of a text, one by one.
pub fn chars_of(s: &str) -> (v: Vec<char>)
    ensures
        v@ == s@,
{
    let mut v: Vec<char> = Vec::new();
    let mut it = s.chars();
    loop
        invariant
            v@ + vstd::std_specs::iter::IteratorSpec::remaining(&it) == s@,
            vstd::std_specs::iter::IteratorSpec::obeys_prophetic_iter_laws(&it),
        ensures
            v@ == s@,
        decreases s@.len() - v@.len(),
    {
        let ghost before = vstd::std_specs::iter::IteratorSpec::remaining(&it);
        match it.next() {
            Some(c) => {
                v.push(c);
                assert(v@ + vstd::std_specs::iter::IteratorSpec::remaining(&it) =~= v@.drop_last() + before);
            },
            None => {
                assert(v@ =~= v@ + vstd::std_specs::iter::IteratorSpec::remaining(&it));
                break;
            },
        }
    }
    v
}

/// The text made of the given characters.
pub fn string_of(v: &[char]) -> (s: String)
    ensures
        s@ == v@,
{
    let mut s = String::new();
    let mut i: usize = 0;
    while i < v.len()
        invariant
            i <= v.len(),
            s@ == v@.take(i as int),
        decreases v.len() - i,
    {
        s.push(v[i]);
        i += 1;
        assert(v@.take(i as int) =~= v@.take(i - 1).push(v@[i - 1]));
    }
    assert(v@.take(i as int) =~= v@);
    s
}

/// Whether two byte strings are the same.
pub fn bytes_eq(a: &[u8], b: &[u8]) -> (same: bool)
    ensures
        same == (a@ == b@),
{
    if a.len() != b.len() {
        return false;
    }
    let mut i: usize = 0;
    while i < a.len()
        invariant
            i <= a.len(),
            a.len() == b.len(),
            forall|k: int| 0 <= k < i ==> a@[k] == b@[k],
        decreases a.len() - i,
    {
        if a[i] != b[i] {
            return false;
        }
        i += 1;
    }
    assert(a@ =~= b@);
    true
}

/// Whether two texts are the same.
pub fn str_eq(a: &str, b: &str) -> (same: bool)
    ensures
        same == (a@ == b@),
{
    proof {
        encode_utf8_decode_utf8(a@);
        encode_utf8_decode_utf8(b@);
    }
    bytes_eq(a.as_bytes(), b.as_bytes())
}

/// A copy of a text.
pub fn owned(s: &str) -> (r: String)
    ensures
        r@ == s@,
{
    s.to_owned()
}


/// What `str::to_lowercase` makes of a text.
pub uninterp spec fn str_lowercase(s: Seq<char>) -> Seq<char>;

/// `str::to_lowercase`: the lower case of a text by Unicode's rules, which depend on the text
/// alone. What they are is left to the standard library.
#[verifier::external_body]
pub(crate) fn to_lowercase(s: &str) -> (r: String)
    ensures
        r@ == str_lowercase(s@),
{
    s.to_lowercase()
}

/// What `char::to_lowercase` makes of a character: one character or more.
pub uninterp spec fn char_lowercase(c: char) -> Seq<char>;

/// `char::to_lowercase`: the lower case of one character by Unicode's rules, which depend on
/// the character alone. What they are is left to the standard library.
#[verifier::external_body]
pub(crate) fn char_to_lowercase(c: char) -> (r: Vec<char>)
    ensures
        r@ == char_lowercase(c),
{
    c.to_lowercase().collect()
}

/// `std::str::from_utf8`: the text that bytes encode, or nothing where they are not UTF-8.
#[verifier::external_body]
pub(crate) fn from_utf8(bytes: &[u8]) -> (r: Option<&str>)
    ensures
        match r {
            Some(s) => s.spec_bytes() == bytes@,
            None => !valid_utf8(bytes@),
        },
{
    std::str::from_utf8(bytes).ok()
}

/// The text that bytes known to be the encoding of one stand for.
pub(crate) fn decode(bytes: &[u8], Ghost(text): Ghost<Seq<char>>) -> (r: &str)
    requires
        bytes@ == encode_utf8(text),
    ensures
        r@ == text,
{
    proof {
        encode_utf8_valid_utf8(text);
        encode_utf8_decode_utf8(text);
    }
    match from_utf8(bytes) {
        Some(s) => {
            proof {
                encode_utf8_decode_utf8(s@);
            }
            s
        },
        None => "",
    }
}

/// A byte with an upper case ASCII letter turned into the lower case one.
pub open spec fn ascii_fold(b: u8) -> u8 {
    if 0x41 <= b <= 0x5A {
        (b + 0x20) as u8
    } else {
        b
    }
}

/// A byte with an upper case ASCII letter turned into the lower case one.
pub fn fold_byte(b: u8) -> (r: u8)
    ensures
        r == ascii_fold(b),
{
    if 0x41 <= b && b <= 0x5A {
        b + 0x20
    } else {
        b
    }
}

/// Bytes with every upper case ASCII letter turned into the lower case one.
pub open spec fn folded(s: Seq<u8>) -> Seq<u8> {
    Seq::new(s.len(), |i: int| ascii_fold(s[i]))
}

/// Dictionary order of byte strings.
pub open spec fn lex_less(a: Seq<u8>, b: Seq<u8>) -> bool
    decreases a.len(),
{
    if b.len() == 0 {
        false
    } else if a.len() == 0 {
        true
    } else if a[0] == b[0] {
        lex_less(a.skip(1), b.skip(1))
    } else {
        a[0] < b[0]
    }
}

pub proof fn lemma_lex_asymmetric(a: Seq<u8>, b: Seq<u8>)
    ensures
        lex_less(a, b) ==> !lex_less(b, a),
    decreases a.len(),
{
    if a.len() > 0 && b.len() > 0 && a[0] == b[0] {
        lemma_lex_asymmetric(a.skip(1), b.skip(1));
    }
}

pub proof fn lemma_lex_transitive(a: Seq<u8>, b: Seq<u8>, c: Seq<u8>)
    ensures
        !lex_less(a, b) && !lex_less(b, c) ==> !lex_less(a, c),
    decreases a.len(),
{
    if a.len() > 0 && b.len() > 0 && c.len() > 0 && a[0] == b[0] && b[0] == c[0] {
        lemma_lex_transitive(a.skip(1), b.skip(1), c.skip(1));
    }
}

/// The order of texts that takes upper and lower case ASCII letters for the same: dictionary
/// order of the folded UTF-8 bytes.
pub open spec fn text_less(a: Seq<char>, b: Seq<char>) -> bool {
    lex_less(folded(encode_utf8(a)), folded(encode_utf8(b)))
}

/// Whether `a` comes before `b`, upper and lower case ASCII letters taken for the same.
pub fn less_ignore_ascii_case(a: &str, b: &str) -> (r: bool)
    ensures
        r == text_less(a@, b@),
{
    let x = a.as_bytes();
    let y = b.as_bytes();
    let ghost fx = folded(x@);
    let ghost fy = folded(y@);
    let mut i: usize = 0;
    assert(fx.skip(0) =~= fx);
    assert(fy.skip(0) =~= fy);
    while i < x.len() && i < y.len()
        invariant
            i <= x.len(),
            i <= y.len(),
            fx == folded(x@),
            fy == folded(y@),
            lex_less(fx.skip(i as int), fy.skip(i as int)) == text_less(a@, b@),
        decreases x.len() - i,
    {
        let p: u8 = fold_byte(x[i]);
        let q: u8 = fold_byte(y[i]);
        assert(fx.skip(i as int)[0] == p);
        assert(fy.skip(i as int)[0] == q);
        if p != q {
            return p < q;
        }
        assert(fx.skip(i as int).skip(1) =~= fx.skip(i + 1));
        assert(fy.skip(i as int).skip(1) =~= fy.skip(i + 1));
        i += 1;
    }
    i == x.len() && i < y.len()
}

/// A text without the given character at its end, however often it stands there.
pub open spec fn trim_end(s: Seq<char>, c: char) -> Seq<char>
    decreases s.len(),
{
    if s.len() > 0 && s.last() == c {
        trim_end(s.drop_last(), c)
    } else {
        s
    }
}

/// A text without the given character at its end, however often it stands there.
pub fn trim_end_char(s: &str, c: char) -> (r: String)
    ensures
        r@ == trim_end(s@, c),
{
    let mut v = chars_of(s);
    while v.len() > 0 && v[v.len() - 1] == c
        invariant
            trim_end(v@, c) == trim_end(s@, c),
        ensures
            trim_end(v@, c) == trim_end(s@, c),
            !(v@.len() > 0 && v@.last() == c),
        decreases v@.len(),
    {
        v.pop();
    }
    string_of(v.as_slice())
}

/// Of two byte strings that differ, one comes before the other.
pub proof fn lemma_lex_connected(a: Seq<u8>, b: Seq<u8>)
    ensures
        !lex_less(a, b) && !lex_less(b, a) ==> a == b,
    decreases a.len(),
{
    if a.len() > 0 && b.len() > 0 {
        if a[0] == b[0] {
            lemma_lex_connected(a.skip(1), b.skip(1));
            if a.skip(1) == b.skip(1) {
                assert(a =~= seq![a[0]] + a.skip(1));
                assert(b =~= seq![b[0]] + b.skip(1));
            }
        }
    } else {
        assert(!lex_less(a, b) && !lex_less(b, a) ==> a =~= b);
    }
}

/// Whether one byte string comes before another in dictionary order.
pub fn bytes_less(a: &[u8], b: &[u8]) -> (r: bool)
    ensures
        r == lex_less(a@, b@),
{
    let mut i: usize = 0;
    assert(a@.skip(0) =~= a@);
    assert(b@.skip(0) =~= b@);
    while i < a.len() && i < b.len()
        invariant
            i <= a.len(),
            i <= b.len(),
            lex_less(a@.skip(i as int), b@.skip(i as int)) == lex_less(a@, b@),
        decreases a.len() - i,
    {
        assert(a@.skip(i as int)[0] == a@[i as int]);
        assert(b@.skip(i as int)[0] == b@[i as int]);
        if a[i] != b[i] {
            return a[i] < b[i];
        }
        assert(a@.skip(i as int).skip(1) =~= a@.skip(i + 1));
        assert(b@.skip(i as int).skip(1) =~= b@.skip(i + 1));
        i += 1;
    }
    i == a.len() && i < b.len()
}

/// The encoding of two texts in a row.
pub proof fn lemma_encode_concat(a: Seq<char>, b: Seq<char>)
    ensures
        encode_utf8(a + b) == encode_utf8(a) + encode_utf8(b),
    decreases a.len(),
{
    if a.len() == 0 {
        assert(a + b =~= b);
        assert(encode_utf8(a) + encode_utf8(b) =~= encode_utf8(b));
    } else {
        lemma_encode_concat(a.drop_first(), b);
        assert((a + b).drop_first() =~= a.drop_first() + b);
        assert(encode_utf8(a + b) =~= encode_utf8(a) + encode_utf8(b));
    }
}

/// A character with an upper case ASCII letter turned into the lower case one.
pub open spec fn lower_char(c: char) -> char {
    if 'A' <= c <= 'Z' {
        (c as u8 + 0x20) as char
    } else {
        c
    }
}

/// A text with every upper case ASCII letter turned into the lower case one.
pub open spec fn lower_ascii(s: Seq<char>) -> Seq<char> {
    Seq::new(s.len(), |i: int| lower_char(s[i]))
}

/// A text with every upper case ASCII letter turned into the lower case one.
pub fn to_lower_ascii(s: &str) -> (r: String)
    ensures
        r@ == lower_ascii(s@),
{
    let v = chars_of(s);
    let mut r = String::new();
    let mut i: usize = 0;
    while i < v.len()
        invariant
            i <= v.len(),
            v@ == s@,
            r@ == lower_ascii(s@.take(i as int)),
        decreases v.len() - i,
    {
        let c: char = v[i];
        r.push(
            if 'A' <= c && c <= 'Z' {
                (c as u8 + 0x20u8) as char
            } else {
                c
            },
        );
        i += 1;
        assert(r@ =~= lower_ascii(s@.take(i as int)));
    }
    assert(s@.take(i as int) =~= s@);
    r
}

/// A text without the given character at its start, however often it stands there.
pub open spec fn trim_start(s: Seq<char>, c: char) -> Seq<char>
    decreases s.len(),
{
    if s.len() > 0 && s[0] == c {
        trim_start(s.skip(1), c)
    } else {
        s
    }
}

/// The characters of a list from `from` on, without the given one at their start.
pub fn trim_start_from(v: &Vec<char>, from: usize, c: char) -> (r: String)
    requires
        from <= v@.len(),
    ensures
        r@ == trim_start(v@.skip(from as int), c),
{
    let mut i: usize = from;
    while i < v.len() && v[i] == c
        invariant
            i <= v@.len(),
            trim_start(v@.skip(i as int), c) == trim_start(v@.skip(from as int), c),
        ensures
            trim_start(v@.skip(i as int), c) == trim_start(v@.skip(from as int), c),
            i <= v@.len(),
            !(i < v@.len() && v@[i as int] == c),
        decreases v@.len() - i,
    {
        assert(v@.skip(i as int)[0] == c);
        assert(v@.skip(i as int).skip(1) =~= v@.skip(i + 1));
        i += 1;
    }
    if i < v.len() {
        assert(v@.skip(i as int)[0] == v@[i as int]);
    }
    let mut r = String::new();
    let mut k: usize = i;
    while k < v.len()
        invariant
            i <= k <= v@.len(),
            r@ == v@.subrange(i as int, k as int),
        decreases v@.len() - k,
    {
        r.push(v[k]);
        k += 1;
        assert(v@.subrange(i as int, k as int) =~= v@.subrange(i as int, k - 1).push(v@[k - 1]));
    }
    assert(r@ =~= v@.skip(i as int));
    r
}

/// Whether a text starts with another.
pub fn starts_with(v: &Vec<char>, p: &str) -> (r: bool)
    ensures
        r == p@.is_prefix_of(v@),
{
    let q = chars_of(p);
    if q.len() > v.len() {
        return false;
    }
    let mut i: usize = 0;
    while i < q.len()
        invariant
            i <= q.len(),
            q@ == p@,
            q@.len() <= v@.len(),
            forall|k: int| 0 <= k < i ==> q@[k] == v@[k],
        decreases q.len() - i,
    {
        if q[i] != v[i] {
            assert(!p@.is_prefix_of(v@)) by {
                if p@.is_prefix_of(v@) {
                    assert(v@.subrange(0, p@.len() as int)[i as int] == p@[i as int]);
                }
            }
            return false;
        }
        i += 1;
    }
    assert(p@ =~= v@.subrange(0, p@.len() as int));
    true
}

/// The last `width` lower case hexadecimal digits of a number, zeros in front.
pub open spec fn hex_lower_fixed(n: nat, width: nat) -> Seq<char>
    decreases width,
{
    if width == 0 {
        Seq::empty()
    } else {
        hex_lower_fixed(n / 16, (width - 1) as nat).push(
            if n % 16 < 10 {
                (0x30 + n % 16) as char
            } else {
                (0x61 + n % 16 - 10) as char
            },
        )
    }
}

/// Appends the last `width` lower case hexadecimal digits of a number.
pub fn push_hex_lower_fixed(s: &mut String, n: u64, width: u8)
    ensures
        final(s)@ == old(s)@ + hex_lower_fixed(n as nat, width as nat),
    decreases width,
{
    if width > 0 {
        push_hex_lower_fixed(s, n / 16, width - 1);
        let d: u8 = (n % 16) as u8;
        s.push(
            if d < 10 {
                (0x30u8 + d) as char
            } else {
                (0x61u8 + (d - 10)) as char
            },
        );
    }
    assert(s@ =~= old(s)@ + hex_lower_fixed(n as nat, width as nat));
}

/// Several texts with another between them.
pub open spec fn joined_by(parts: Seq<Seq<char>>, sep: Seq<char>) -> Seq<char>
    decreases parts.len(),
{
    if parts.len() == 0 {
        Seq::empty()
    } else if parts.len() == 1 {
        parts[0]
    } else {
        joined_by(parts.drop_last(), sep) + sep + parts.last()
    }
}

} // verus!
