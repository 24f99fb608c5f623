//! Scanning of short texts: trimming, searching, and unsigned decimal numbers.
//!
//! A text is a sequence of characters. The executable functions work on a
//! range of a character slice and are stated over the sub-sequence that the
//! range holds.

use vstd::prelude::*;

verus! {

/// Whether a character is white space: the code points that Unicode gives the
/// property `White_Space`.
pub open spec fn is_whitespace(c: char) -> bool {
    let u = c as u32;
    (0x09 <= u <= 0x0D) || u == 0x20 || u == 0x85 || u == 0xA0 || u == 0x1680 || (0x2000 <= u
        <= 0x200A) || u == 0x2028 || u == 0x2029 || u == 0x202F || u == 0x205F || u == 0x3000
}

/// A text without the white space at its end.
pub open spec fn trim_end(s: Seq<char>) -> Seq<char>
    decreases s.len(),
{
    if s.len() > 0 && is_whitespace(s.last()) {
        trim_end(s.drop_last())
    } else {
        s
    }
}

/// A text without the white space at its start.
pub open spec fn trim_start(s: Seq<char>) -> Seq<char>
    decreases s.len(),
{
    if s.len() > 0 && is_whitespace(s[0]) {
        trim_start(s.skip(1))
    } else {
        s
    }
}

/// A text without the white space at its start and at its end.
pub open spec fn trim(s: Seq<char>) -> Seq<char> {
    trim_end(trim_start(s))
}

/// The index of the first occurrence of an item in a sequence, or the length
/// of the sequence if it does not occur.
pub open spec fn first_index<A>(s: Seq<A>, c: A) -> int
    decreases s.len(),
{
    if s.len() == 0 {
        0
    } else if s[0] == c {
        0
    } else {
        1 + first_index(s.skip(1), c)
    }
}

/// Whether a sequence begins with another.
pub open spec fn has_prefix<A>(s: Seq<A>, prefix: Seq<A>) -> bool {
    prefix.len() <= s.len() && s.take(prefix.len() as int) == prefix
}

/// Whether a character is one of the decimal digits `0` to `9`.
pub open spec fn is_digit(c: char) -> bool {
    0x30 <= c as u32 <= 0x39
}

/// Whether a text holds decimal digits only.
pub open spec fn all_digits(s: Seq<char>) -> bool {
    forall|i: int| 0 <= i < s.len() ==> is_digit(#[trigger] s[i])
}

/// The number that a text of decimal digits stands for.
pub open spec fn digits_value(s: Seq<char>) -> nat
    decreases s.len(),
{
    if s.len() == 0 {
        0
    } else {
        (digits_value(s.drop_last()) * 10 + (s.last() as u32 - 0x30)) as nat
    }
}

/// The digits of an unsigned decimal number: the text itself, or what follows
/// a single leading `+`.
pub open spec fn unsigned_digits(s: Seq<char>) -> Seq<char> {
    if s.len() > 0 && s[0] == '+' {
        s.skip(1)
    } else {
        s
    }
}

/// The 32-bit number that a text stands for, if it stands for one: an
/// optional `+`, then one or more decimal digits whose value fits in 32 bits.
pub open spec fn parse_u32(s: Seq<char>) -> Option<u32> {
    let digits = unsigned_digits(s);
    if digits.len() > 0 && all_digits(digits) && digits_value(digits) <= u32::MAX {
        Some(digits_value(digits) as u32)
    } else {
        None
    }
}

/// The code of a character is its value as a 32-bit number.
pub proof fn lemma_char_code(c: char)
    ensures
        0 <= c as int <= 0x10FFFF,
        (c as u32) as int == c as int,
{
}

/// The decimal digits of a number as ASCII bytes, most significant first,
/// without leading zeros.
pub open spec fn decimal_digits(n: nat) -> Seq<u8>
    decreases n,
{
    if n < 10 {
        seq![(0x30 + n) as u8]
    } else {
        decimal_digits(n / 10).push((0x30 + n % 10) as u8)
    }
}

/// The decimal digits of a number as characters.
pub open spec fn decimal_text(n: nat) -> Seq<char> {
    decimal_digits(n).map_values(|b: u8| b as char)
}

/// The decimal digits of a number are one or more digit bytes.
pub proof fn lemma_decimal_digits(n: nat)
    ensures
        decimal_digits(n).len() >= 1,
        forall|i: int|
            0 <= i < decimal_digits(n).len() ==> 0x30 <= #[trigger] decimal_digits(n)[i] <= 0x39,
    decreases n,
{
    if n >= 10 {
        lemma_decimal_digits(n / 10);
    }
}

/// The decimal text of a number is made of digits and stands for the number.
pub proof fn lemma_decimal_text_value(n: nat)
    ensures
        decimal_text(n).len() >= 1,
        all_digits(decimal_text(n)),
        digits_value(decimal_text(n)) == n,
    decreases n,
{
    lemma_decimal_digits(n);
    let text = decimal_text(n);
    assert forall|i: int| 0 <= i < text.len() implies is_digit(#[trigger] text[i]) by {
        let b = decimal_digits(n)[i];
        assert(0x30 <= b <= 0x39);
        assert((b as char) as u32 == b);
    }
    if n < 10 {
        assert(text.drop_last().len() == 0);
        assert(digits_value(text.drop_last()) == 0);
        assert(text.last() == ((0x30 + n) as u8) as char);
        assert((((0x30 + n) as u8) as char) as u32 == 0x30 + n);
    } else {
        lemma_decimal_text_value(n / 10);
        assert(text.drop_last() =~= decimal_text(n / 10));
        assert(text.last() == ((0x30 + n % 10) as u8) as char);
        assert((((0x30 + n % 10) as u8) as char) as u32 == 0x30 + n % 10);
    }
}

/// Reading the decimal text of a 32-bit number gives the number back.
pub proof fn lemma_parse_decimal_text(n: u32)
    ensures
        parse_u32(decimal_text(n as nat)) == Some(n),
{
    lemma_decimal_text_value(n as nat);
    let text = decimal_text(n as nat);
    assert(is_digit(text[0]));
    assert(text[0] != '+');
}

/// The first index of an item is where it first occurs: no earlier place
/// holds it, and that place does unless the sequence has been passed.
pub proof fn lemma_first_index<A>(s: Seq<A>, c: A)
    ensures
        0 <= first_index(s, c) <= s.len(),
        forall|j: int| 0 <= j < first_index(s, c) ==> s[j] != c,
        first_index(s, c) < s.len() ==> s[first_index(s, c)] == c,
    decreases s.len(),
{
    if s.len() > 0 && s[0] != c {
        let rest = s.skip(1);
        lemma_first_index(rest, c);
        assert forall|j: int| 0 <= j < first_index(s, c) implies s[j] != c by {
            if j > 0 {
                assert(s[j] == rest[j - 1]);
            }
        }
        if first_index(s, c) < s.len() {
            assert(s[first_index(s, c)] == rest[first_index(rest, c)]);
        }
    }
}

/// A place that holds the item, with no earlier place that does, is the
/// first index; so is the length of a sequence that does not hold it.
pub proof fn lemma_first_index_is<A>(s: Seq<A>, c: A, i: int)
    requires
        0 <= i <= s.len(),
        forall|j: int| 0 <= j < i ==> s[j] != c,
        i < s.len() ==> s[i] == c,
    ensures
        first_index(s, c) == i,
{
    lemma_first_index(s, c);
    let f = first_index(s, c);
    if f < i {
        assert(s[f] != c);
    } else if i < f {
        assert(s[i] != c);
    }
}

/// In a sequence that starts with items other than the one looked for, the
/// first index lies behind them: at their number plus the first index in the
/// rest.
pub proof fn lemma_first_index_after<A>(head: Seq<A>, tail: Seq<A>, c: A)
    requires
        forall|i: int| 0 <= i < head.len() ==> head[i] != c,
    ensures
        first_index(head + tail, c) == head.len() + first_index(tail, c),
{
    lemma_first_index(tail, c);
    let whole = head + tail;
    let at = head.len() + first_index(tail, c);
    assert forall|j: int| 0 <= j < at implies whole[j] != c by {
        if j >= head.len() {
            assert(whole[j] == tail[j - head.len()]);
        }
    }
    if at < whole.len() {
        assert(whole[at] == tail[at - head.len()]);
    }
    lemma_first_index_is(whole, c, at);
}

/// The value of a text of digits does not fall when digits are added at its
/// end.
pub proof fn lemma_digits_value_grows(s: Seq<char>, k: int)
    requires
        0 <= k <= s.len(),
        all_digits(s),
    ensures
        digits_value(s.take(k)) <= digits_value(s),
    decreases s.len() - k,
{
    if k < s.len() {
        lemma_digits_value_grows(s, k + 1);
        let longer = s.take(k + 1);
        assert(longer.drop_last() =~= s.take(k));
        assert(is_digit(s[k]) && longer.last() == s[k]);
        assert(digits_value(longer) == digits_value(s.take(k)) * 10 + (s[k] as u32 - 0x30));
    } else {
        assert(s.take(k) =~= s);
    }
}

/// The characters of a string, as a vector.
pub fn chars_of(s: &str) -> (v: Vec<char>)
    ensures
        v@ == s@,
{
    let mut v: Vec<char> = Vec::new();
    let chars_it = s.chars();
    for c in it: chars_it
        invariant
            v@ == it.seq().take(it.index()),
            it.seq() == s@,
    {
        v.push(c);
    }
    v
}

/// Tells whether a character is white space.
pub fn char_is_whitespace(c: char) -> (b: bool)
    ensures
        b == is_whitespace(c),
{
    let u = c as u32;
    (0x09 <= u && u <= 0x0D) || u == 0x20 || u == 0x85 || u == 0xA0 || u == 0x1680 || (0x2000 <= u
        && u <= 0x200A) || u == 0x2028 || u == 0x2029 || u == 0x202F || u == 0x205F || u
        == 0x3000
}

/// Finds where the range `from..to` of a text ends once the white space at
/// its end is left out.
pub fn trim_end_at(s: &[char], from: usize, to: usize) -> (end: usize)
    requires
        from <= to <= s@.len(),
    ensures
        from <= end <= to,
        s@.subrange(from as int, end as int) == trim_end(s@.subrange(from as int, to as int)),
{
    let mut end = to;
    while end > from && char_is_whitespace(s[end - 1])
        invariant
            from <= end <= to <= s@.len(),
            trim_end(s@.subrange(from as int, end as int)) == trim_end(
                s@.subrange(from as int, to as int),
            ),
        decreases end,
    {
        assert(s@.subrange(from as int, end as int).drop_last() =~= s@.subrange(
            from as int,
            end - 1,
        ));
        end -= 1;
    }
    end
}

/// Finds where the range `from..to` of a text starts once the white space at
/// its start is left out.
pub fn trim_start_at(s: &[char], from: usize, to: usize) -> (start: usize)
    requires
        from <= to <= s@.len(),
    ensures
        from <= start <= to,
        s@.subrange(start as int, to as int) == trim_start(s@.subrange(from as int, to as int)),
{
    let mut start = from;
    while start < to && char_is_whitespace(s[start])
        invariant
            from <= start <= to <= s@.len(),
            trim_start(s@.subrange(start as int, to as int)) == trim_start(
                s@.subrange(from as int, to as int),
            ),
        decreases to - start,
    {
        assert(s@.subrange(start as int, to as int).skip(1) =~= s@.subrange(
            start + 1,
            to as int,
        ));
        start += 1;
    }
    start
}

/// Finds the first occurrence of a character in the range `from..to` of a
/// text. Gives `to` if the range does not hold it.
pub fn find_char(s: &[char], from: usize, to: usize, c: char) -> (at: usize)
    requires
        from <= to <= s@.len(),
    ensures
        from <= at <= to,
        at - from == first_index(s@.subrange(from as int, to as int), c),
{
    let mut at = from;
    while at < to && s[at] != c
        invariant
            from <= at <= to <= s@.len(),
            forall|j: int| from <= j < at ==> s@[j] != c,
        decreases to - at,
    {
        at += 1;
    }
    proof {
        lemma_first_index_is(s@.subrange(from as int, to as int), c, at - from);
    }
    at
}

/// Finds the first occurrence of a byte in the range `from..to` of a byte
/// slice. Gives `to` if the range does not hold it.
pub fn find_byte(s: &[u8], from: usize, to: usize, b: u8) -> (at: usize)
    requires
        from <= to <= s@.len(),
    ensures
        from <= at <= to,
        at - from == first_index(s@.subrange(from as int, to as int), b),
{
    let mut at = from;
    while at < to && s[at] != b
        invariant
            from <= at <= to <= s@.len(),
            forall|j: int| from <= j < at ==> s@[j] != b,
        decreases to - at,
    {
        at += 1;
    }
    proof {
        lemma_first_index_is(s@.subrange(from as int, to as int), b, at - from);
    }
    at
}

/// Tells whether the range `from..to` of a text begins with `prefix`.
pub fn starts_with_at(s: &[char], from: usize, to: usize, prefix: &[char]) -> (b: bool)
    requires
        from <= to <= s@.len(),
    ensures
        b == has_prefix(s@.subrange(from as int, to as int), prefix@),
{
    let n = prefix.len();
    if n > to - from {
        return false;
    }
    let ghost range = s@.subrange(from as int, to as int);
    let mut i: usize = 0;
    while i < n
        invariant
            i <= n == prefix@.len(),
            n <= to - from,
            from <= to <= s@.len(),
            range == s@.subrange(from as int, to as int),
            range.take(i as int) == prefix@.take(i as int),
        decreases n - i,
    {
        if s[from + i] != prefix[i] {
            assert(range.take(n as int)[i as int] != prefix@[i as int]);
            return false;
        }
        assert(range.take(i + 1) =~= range.take(i as int).push(range[i as int]));
        assert(prefix@.take(i + 1) =~= prefix@.take(i as int).push(prefix@[i as int]));
        i += 1;
    }
    assert(prefix@.take(n as int) =~= prefix@);
    true
}

/// Tells whether the range `from..to` of a byte slice begins with `prefix`.
pub fn bytes_start_with_at(s: &[u8], from: usize, to: usize, prefix: &[u8]) -> (b: bool)
    requires
        from <= to <= s@.len(),
    ensures
        b == has_prefix(s@.subrange(from as int, to as int), prefix@),
{
    let n = prefix.len();
    if n > to - from {
        return false;
    }
    let ghost range = s@.subrange(from as int, to as int);
    let mut i: usize = 0;
    while i < n
        invariant
            i <= n == prefix@.len(),
            n <= to - from,
            from <= to <= s@.len(),
            range == s@.subrange(from as int, to as int),
            range.take(i as int) == prefix@.take(i as int),
        decreases n - i,
    {
        if s[from + i] != prefix[i] {
            assert(range.take(n as int)[i as int] != prefix@[i as int]);
            return false;
        }
        assert(range.take(i + 1) =~= range.take(i as int).push(range[i as int]));
        assert(prefix@.take(i + 1) =~= prefix@.take(i as int).push(prefix@[i as int]));
        i += 1;
    }
    assert(prefix@.take(n as int) =~= prefix@);
    true
}

/// Tells whether the range `from..to` of a text is the text `key`.
pub fn range_equals(s: &[char], from: usize, to: usize, key: &[char]) -> (b: bool)
    requires
        from <= to <= s@.len(),
    ensures
        b == (s@.subrange(from as int, to as int) == key@),
{
    if key.len() != to - from {
        return false;
    }
    let b = starts_with_at(s, from, to, key);
    assert(s@.subrange(from as int, to as int).take(key@.len() as int) =~= s@.subrange(
        from as int,
        to as int,
    ));
    b
}

/// Reads the range `from..to` of a text as an unsigned decimal number of 32
/// bits: an optional `+`, then digits. Gives `None` for anything else, and for
/// a number that does not fit.
pub fn parse_u32_at(s: &[char], from: usize, to: usize) -> (r: Option<u32>)
    requires
        from <= to <= s@.len(),
    ensures
        r == parse_u32(s@.subrange(from as int, to as int)),
{
    let ghost text = s@.subrange(from as int, to as int);
    let start = if from < to && s[from] == '+' {
        from + 1
    } else {
        from
    };
    let ghost digits = s@.subrange(start as int, to as int);
    assert(digits =~= unsigned_digits(text));
    if start == to {
        return None;
    }
    let mut acc: u64 = 0;
    let mut i = start;
    while i < to
        invariant
            start <= i <= to <= s@.len(),
            digits == s@.subrange(start as int, to as int),
            digits == unsigned_digits(s@.subrange(from as int, to as int)),
            all_digits(digits.take(i - start)),
            acc == digits_value(digits.take(i - start)),
            acc <= u32::MAX,
        decreases to - i,
    {
        let c = s[i];
        let u = c as u32;
        if u < 0x30 || u > 0x39 {
            assert(!is_digit(digits[i - start]));
            return None;
        }
        let ghost next = digits.take(i - start + 1);
        assert(next.drop_last() =~= digits.take(i - start));
        assert(next.last() == c);
        assert forall|j: int| 0 <= j < next.len() implies is_digit(#[trigger] next[j]) by {
            if j < i - start {
                assert(next[j] == digits.take(i - start)[j]);
            }
        }
        let wide = acc * 10 + (u - 0x30) as u64;
        if wide > 0xFFFF_FFFF {
            proof {
                if all_digits(digits) {
                    lemma_digits_value_grows(digits, i - start + 1);
                }
            }
            return None;
        }
        acc = wide;
        i += 1;
    }
    assert(digits.take(to - start) =~= digits);
    Some(acc as u32)
}

/// Ten to the power `k`.
pub open spec fn pow10(k: nat) -> nat
    decreases k,
{
    if k == 0 {
        1
    } else {
        10 * pow10((k - 1) as nat)
    }
}

/// Ten to the power 20 is more than 64 bits hold.
proof fn lemma_pow10_20()
    ensures
        pow10(20) == 100_000_000_000_000_000_000,
{
    reveal_with_fuel(pow10, 21);
}

/// Appends the decimal digits of a number to a byte buffer.
pub fn push_decimal(buffer: &mut Vec<u8>, n: u64)
    ensures
        final(buffer)@ == old(buffer)@ + decimal_digits(n as nat),
{
    if n == 0 {
        buffer.push(0x30);
        assert(buffer@ =~= old(buffer)@ + decimal_digits(0));
        return ;
    }
    // The digits, least significant first. A 64-bit number has at most 20.
    let mut reversed: [u8; 20] = [0u8;20];
    let mut len: usize = 0;
    let mut rest: u64 = n;
    assert(pow10(0) == 1);
    while rest > 0
        invariant
            len <= 20,
            rest * pow10(len as nat) <= n,
            rest > 0 ==> decimal_digits(n as nat) == decimal_digits(rest as nat) + reversed@.take(
                len as int,
            ).reverse(),
            rest == 0 ==> len > 0 && decimal_digits(n as nat) == reversed@.take(
                len as int,
            ).reverse(),
        decreases rest,
    {
        proof {
            if len == 20 {
                lemma_pow10_20();
                assert(rest * pow10(20) >= pow10(20)) by (nonlinear_arith)
                    requires
                        rest >= 1,
                ;
            }
        }
        let digit: u8 = 0x30 + (rest % 10) as u8;
        let ghost before = reversed@.take(len as int);
        reversed[len] = digit;
        proof {
            let after = reversed@.take(len + 1);
            assert(after =~= before.push(digit));
            assert(after.reverse() =~= seq![digit] + before.reverse());
            if rest >= 10 {
                assert(decimal_digits(rest as nat) == decimal_digits((rest / 10) as nat).push(
                    digit,
                ));
                assert(decimal_digits((rest / 10) as nat).push(digit) + before.reverse()
                    =~= decimal_digits((rest / 10) as nat) + after.reverse());
            } else {
                assert(decimal_digits(rest as nat) =~= seq![digit]);
            }
            assert((rest / 10) * pow10((len + 1) as nat) <= rest * pow10(len as nat))
                by (nonlinear_arith)
                requires
                    pow10((len + 1) as nat) == 10 * pow10(len as nat),
                    (rest / 10) * 10 <= rest,
            ;
        }
        len += 1;
        rest = rest / 10;
    }
    let ghost digits = reversed@.take(len as int).reverse();
    let mut i: usize = len;
    while i > 0
        invariant
            i <= len <= 20,
            digits == reversed@.take(len as int).reverse(),
            buffer@ == old(buffer)@ + digits.take(len - i),
        decreases i,
    {
        i -= 1;
        buffer.push(reversed[i]);
        assert(digits[len - 1 - i] == reversed@[i as int]);
        assert(buffer@ =~= old(buffer)@ + digits.take(len - i));
    }
    assert(digits.take(len as int) =~= digits);
}

} // verus!
