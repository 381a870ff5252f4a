//! Decimal numbers and the text that is built from pieces.

use vstd::prelude::*;

verus! {

/// `String::push` appends one character and keeps the text before it.
pub assume_specification[ String::push ](s: &mut String, c: char)
    ensures
        final(s)@ == old(s)@.push(c),
;

// ---------------------------------------------------------------------------
// Decimal numbers
// ---------------------------------------------------------------------------

/// Whether a character is a decimal digit.
pub open spec fn digit(c: char) -> bool {
    '0' <= c && c <= '9'
}

/// The number that a row of digits writes.
pub open spec fn decimal_value(s: Seq<char>) -> nat
    decreases s.len(),
{
    if s.len() == 0 {
        0
    } else {
        decimal_value(s.drop_last()) * 10 + (s.last() as u32 - '0' as u32) as nat
    }
}

/// A text without one leading plus sign.
pub open spec fn unsigned_part(s: Seq<char>) -> Seq<char> {
    if s.len() > 0 && s[0] == '+' {
        s.drop_first()
    } else {
        s
    }
}

/// The number that a text writes: an optional plus sign and at least one digit,
/// where the value fits in 32 bits.
pub open spec fn number(s: Seq<char>) -> Option<u32> {
    let t = unsigned_part(s);
    if t.len() > 0 && (forall|i: int| 0 <= i < t.len() ==> digit(#[trigger] t[i]))
        && decimal_value(t) <= u32::MAX {
        Some(decimal_value(t) as u32)
    } else {
        None
    }
}

/// The decimal digits of a number, without leading zeros.
pub open spec fn digits(n: nat) -> Seq<char>
    decreases n,
{
    if n < 10 {
        seq![digit_char(n)]
    } else {
        digits(n / 10).push(digit_char(n % 10))
    }
}

/// The character of one digit.
pub open spec fn digit_char(n: nat) -> char {
    ('0' as u32 + n) as char
}

/// Leading digits only make the value larger.
proof fn lemma_value_grows(s: Seq<char>, n: int)
    requires
        0 <= n <= s.len(),
    ensures
        decimal_value(s.take(n)) <= decimal_value(s),
    decreases s.len(),
{
    if n == s.len() {
        assert(s.take(n) =~= s);
    } else {
        lemma_value_grows(s.drop_last(), n);
        assert(s.drop_last().take(n) =~= s.take(n));
    }
}

/// Reads a decimal number.
pub fn parse_number(s: &str) -> (r: Option<u32>)
    ensures
        r == number(s@),
{
    let all = crate::text::chars_of(s);
    let start: usize = if all.len() > 0 && all[0] == '+' {
        1
    } else {
        0
    };
    let ghost t = unsigned_part(s@);
    proof {
        assert(t =~= s@.skip(start as int));
    }
    if start == all.len() {
        return None;
    }
    let mut value: u64 = 0;
    let mut i: usize = start;
    while i < all.len()
        invariant
            start <= i <= all@.len(),
            start <= 1,
            all@ == s@,
            t == s@.skip(start as int),
            t == unsigned_part(s@),
            value == decimal_value(t.take(i - start)),
            value <= u32::MAX,
            forall|j: int| 0 <= j < i - start ==> digit(#[trigger] t[j]),
        decreases all@.len() - i,
    {
        let c = all[i];
        proof {
            assert(t[i - start] == c);
        }
        if !('0' <= c && c <= '9') {
            return None;
        }
        let d: u64 = (c as u32 - '0' as u32) as u64;
        proof {
            let k = i - start;
            assert(t.take(k + 1).drop_last() =~= t.take(k));
            assert(t.take(k + 1).last() == c);
            lemma_value_grows(t, k + 1);
        }
        value = value * 10 + d;
        if value > 0xffff_ffff {
            return None;
        }
        i += 1;
    }
    proof {
        assert(t.take(i - start) =~= t);
    }
    Some(value as u32)
}

/// Writes a number in decimal.
pub fn decimal(n: u64) -> (r: String)
    ensures
        r@ == digits(n as nat),
{
    let mut reversed: Vec<char> = Vec::new();
    let mut rest: u64 = n;
    proof {
        assert(digits(n as nat) =~= digits(rest as nat) + reversed@.reverse());
    }
    while rest >= 10
        invariant
            digits(n as nat) == digits(rest as nat) + reversed@.reverse(),
        decreases rest,
    {
        let c = digit_of(rest % 10);
        proof {
            let before = reversed@;
            assert(before.push(c).reverse() =~= seq![c] + before.reverse());
            assert(digits(rest as nat) + before.reverse() =~= digits((rest / 10) as nat)
                + before.push(c).reverse());
        }
        reversed.push(c);
        rest = rest / 10;
    }
    let mut out = String::new();
    out.push(digit_of(rest));
    let mut i: usize = reversed.len();
    proof {
        assert(out@ =~= digits(rest as nat) + reversed@.skip(i as int).reverse());
    }
    while i > 0
        invariant
            i <= reversed@.len(),
            out@ == digits(rest as nat) + reversed@.skip(i as int).reverse(),
        decreases i,
    {
        i -= 1;
        out.push(reversed[i]);
        proof {
            assert(reversed@.skip(i as int).reverse() =~= reversed@.skip(i + 1).reverse().push(
                reversed@[i as int],
            ));
            assert(out@ =~= digits(rest as nat) + reversed@.skip(i as int).reverse());
        }
    }
    proof {
        assert(reversed@.skip(0) =~= reversed@);
    }
    out
}

/// A whole number in decimal, with a minus sign where it is negative.
pub open spec fn signed_digits(n: int) -> Seq<char> {
    if n < 0 {
        seq!['-'] + digits((-n) as nat)
    } else {
        digits(n as nat)
    }
}

/// Writes a whole number in decimal.
pub fn signed_decimal(n: i32) -> (r: String)
    ensures
        r@ == signed_digits(n as int),
{
    if n < 0 {
        let mut out = String::new();
        out.push('-');
        out.append(decimal((-(n as i64)) as u64).as_str());
        assert(out@ =~= signed_digits(n as int));
        out
    } else {
        decimal(n as u64)
    }
}

/// The character of one digit.
fn digit_of(n: u64) -> (r: char)
    requires
        n < 10,
    ensures
        r == digit_char(n as nat),
{
    match n {
        0 => '0',
        1 => '1',
        2 => '2',
        3 => '3',
        4 => '4',
        5 => '5',
        6 => '6',
        7 => '7',
        8 => '8',
        _ => '9',
    }
}

// ---------------------------------------------------------------------------
// Padding
// ---------------------------------------------------------------------------

/// A row of spaces.
pub open spec fn spaces(n: int) -> Seq<char> {
    Seq::new(
        (if n < 0 {
            0
        } else {
            n
        }) as nat,
        |i: int| ' ',
    )
}

/// A text aligned to the right in a field of the given width.
pub open spec fn right_aligned(s: Seq<char>, width: int) -> Seq<char> {
    spaces(width - s.len()) + s
}

/// A text aligned to the left in a field of the given width.
pub open spec fn left_aligned(s: Seq<char>, width: int) -> Seq<char> {
    s + spaces(width - s.len())
}

/// Appends spaces.
pub fn push_spaces(out: &mut String, count: usize)
    ensures
        final(out)@ == old(out)@ + spaces(count as int),
{
    let mut i: usize = 0;
    while i < count
        invariant
            i <= count,
            out@ == old(out)@ + spaces(i as int),
        decreases count - i,
    {
        out.push(' ');
        i += 1;
        proof {
            assert(out@ =~= old(out)@ + spaces(i as int));
        }
    }
}

/// Appends a text aligned to the right.
pub fn push_right(out: &mut String, s: &str, width: usize)
    ensures
        final(out)@ == old(out)@ + right_aligned(s@, width as int),
{
    let n: usize = s.unicode_len();
    if n < width {
        push_spaces(out, width - n);
    }
    out.append(s);
    proof {
        assert(out@ =~= old(out)@ + right_aligned(s@, width as int));
    }
}

/// Appends a text aligned to the left.
pub fn push_left(out: &mut String, s: &str, width: usize)
    ensures
        final(out)@ == old(out)@ + left_aligned(s@, width as int),
{
    let n: usize = s.unicode_len();
    out.append(s);
    if n < width {
        push_spaces(out, width - n);
    }
    proof {
        assert(out@ =~= old(out)@ + left_aligned(s@, width as int));
    }
}

// ---------------------------------------------------------------------------
// Grouped numbers
// ---------------------------------------------------------------------------

/// The digits from position `from` on, with a comma before every group of three
/// counted from the end.
pub open spec fn grouped(d: Seq<char>, from: int) -> Seq<char>
    decreases d.len() - from,
{
    if from >= d.len() || from < 0 {
        seq![]
    } else if from > 0 && (d.len() - from) % 3 == 0 {
        seq![',', d[from]] + grouped(d, from + 1)
    } else {
        seq![d[from]] + grouped(d, from + 1)
    }
}

/// A number in decimal, its digits in comma-separated groups of three.
pub fn format_count(value: usize) -> (r: String)
    ensures
        r@ == grouped(digits(value as nat), 0),
{
    let text = decimal(value as u64);
    let all = crate::text::chars_of(text.as_str());
    let mut out = String::new();
    let mut i: usize = 0;
    proof {
        assert(out@ + grouped(all@, 0) =~= grouped(all@, 0));
    }
    while i < all.len()
        invariant
            i <= all@.len(),
            out@ + grouped(all@, i as int) == grouped(all@, 0),
        decreases all@.len() - i,
    {
        let ghost before = out@;
        if i > 0 && (all.len() - i) % 3 == 0 {
            out.push(',');
        }
        out.push(all[i]);
        proof {
            assert(out@ + grouped(all@, i + 1) =~= before + grouped(all@, i as int));
        }
        i += 1;
    }
    proof {
        assert(out@ =~= grouped(all@, 0));
    }
    out
}

/// Every character of a decimal number is a digit.
pub proof fn lemma_digits(n: nat)
    ensures
        digits(n).len() > 0,
        forall|i: int| 0 <= i < digits(n).len() ==> digit(#[trigger] digits(n)[i]),
    decreases n,
{
    if n >= 10 {
        lemma_digits(n / 10);
    }
}

/// The digits of a number write that number.
pub proof fn lemma_digits_write_the_number(n: nat)
    ensures
        decimal_value(digits(n)) == n,
    decreases n,
{
    if n < 10 {
        assert(digits(n).drop_last() =~= seq![]);
        assert(digits(n).last() == digit_char(n));
        assert(decimal_value(digits(n).drop_last()) == 0);
    } else {
        lemma_digits_write_the_number(n / 10);
        assert(digits(n).drop_last() =~= digits(n / 10));
        assert(digits(n).last() == digit_char(n % 10));
    }
}

/// A number that is written in decimal is read back.
pub proof fn lemma_number_round_trip(n: u32)
    ensures
        number(digits(n as nat)) == Some(n),
{
    lemma_digits(n as nat);
    lemma_digits_write_the_number(n as nat);
    assert(digit(digits(n as nat)[0]));
}

/// A grouped number without its commas is the number in plain decimal.
pub proof fn lemma_count_keeps_digits(n: nat)
    ensures
        grouped(digits(n), 0).filter(|c: char| c != ',') == digits(n),
{
    lemma_digits(n);
    assert(!digits(n).contains(','));
    lemma_grouping_keeps_digits(digits(n), 0);
    assert(digits(n).skip(0) =~= digits(n));
}

/// Grouping changes no digit: without the commas the digits are back.
proof fn lemma_grouping_keeps_digits(d: Seq<char>, from: int)
    requires
        0 <= from <= d.len(),
        !d.contains(','),
    ensures
        grouped(d, from).filter(|c: char| c != ',') == d.skip(from),
    decreases d.len() - from,
{
    let keep = |c: char| c != ',';
    if from >= d.len() {
        assert(grouped(d, from).filter(keep) =~= d.skip(from)) by {
            reveal(Seq::filter);
        }
    } else {
        lemma_grouping_keeps_digits(d, from + 1);
        let rest = grouped(d, from + 1);
        assert(d[from] != ',');
        assert(d.skip(from) =~= seq![d[from]] + d.skip(from + 1));
        assert(seq![d[from]].filter(keep) =~= seq![d[from]]) by {
            reveal(Seq::filter);
            assert(seq![d[from]].drop_last() =~= seq![]);
        }
        if from > 0 && (d.len() - from) % 3 == 0 {
            assert(seq![',', d[from]].filter(keep) =~= seq![d[from]]) by {
                reveal(Seq::filter);
                assert(seq![',', d[from]].drop_last() =~= seq![',']);
                assert(seq![','].drop_last() =~= seq![]);
                assert(seq![','].drop_last().filter(keep) =~= seq![]);
                assert(seq![','].filter(keep) =~= seq![]);
            }
            Seq::filter_distributes_over_add(seq![',', d[from]], rest, keep);
        } else {
            Seq::filter_distributes_over_add(seq![d[from]], rest, keep);
        }
    }
}

/// A number is written without leading zeros.
pub proof fn lemma_no_leading_zero(n: nat)
    ensures
        n > 0 ==> digits(n)[0] != '0',
        n < 10 <==> digits(n).len() == 1,
    decreases n,
{
    if n >= 10 {
        lemma_no_leading_zero(n / 10);
        lemma_digits(n / 10);
    }
}

/// A negative number is written as the positive one behind a minus sign.
pub proof fn lemma_minus_sign(n: nat)
    ensures
        signed_digits(n as int) == digits(n),
        n > 0 ==> signed_digits(-(n as int)) == seq!['-'] + digits(n),
{
}

/// What is no number: a text without a digit, or with a character that is none, but for
/// one plus sign in front; and of digits alone exactly what does not fit in 32 bits.
pub proof fn lemma_no_number(s: Seq<char>, i: int)
    ensures
        s.len() == 0 ==> number(s) is None,
        0 < i < s.len() && !('0' <= s[i] && s[i] <= '9') ==> number(s) is None,
        s.len() > 0 && s[0] != '+' && !('0' <= s[0] && s[0] <= '9') ==> number(s) is None,
        number(s) matches Some(n) ==> n == decimal_value(unsigned_part(s)),
        decimal_value(unsigned_part(s)) > 0xffff_ffff ==> number(s) is None,
        s.len() > 0 && s[0] != '+' ==> number(seq!['+'] + s) == number(s),
{
    let t = unsigned_part(s);
    if 0 < i < s.len() {
        if s[0] == '+' {
            assert(t[i - 1] == s[i]);
        } else {
            assert(t[i] == s[i]);
        }
    }
    if s.len() > 0 && s[0] != '+' {
        assert(t[0] == s[0]);
        assert((seq!['+'] + s).drop_first() =~= s);
    }
}

/// A text in a field: it keeps its characters, only blanks fill the field up, before it
/// or behind it, and none where it is as long as the field.
pub proof fn lemma_fields(s: Seq<char>, width: int)
    ensures
        right_aligned(s, width).len() == (if s.len() > width {
            s.len() as int
        } else {
            width
        }),
        left_aligned(s, width).len() == right_aligned(s, width).len(),
        right_aligned(s, width).skip(right_aligned(s, width).len() - s.len()) == s,
        left_aligned(s, width).take(s.len() as int) == s,
        forall|i: int|
            0 <= i < right_aligned(s, width).len() - s.len() ==> #[trigger] right_aligned(
                s,
                width,
            )[i] == ' ',
        forall|i: int|
            s.len() <= i < left_aligned(s, width).len() ==> #[trigger] left_aligned(s, width)[i]
                == ' ',
{
    let right = right_aligned(s, width);
    assert(right.skip(right.len() - s.len()) =~= s);
    assert(left_aligned(s, width).take(s.len() as int) =~= s);
}

/// Digits in groups of three: up to three stand alone, and behind more than three the
/// last three follow a comma.
pub proof fn lemma_groups_of_three(d: Seq<char>)
    ensures
        d.len() <= 3 ==> grouped(d, 0) == d,
        d.len() > 3 ==> grouped(d, 0) == grouped(d.take(d.len() - 3), 0) + seq![','] + d.skip(
            d.len() - 3,
        ),
{
    lemma_last_group(d, 0);
    assert(d.skip(0) =~= d);
}

/// The same from a place on.
proof fn lemma_last_group(d: Seq<char>, from: int)
    requires
        0 <= from <= d.len(),
    ensures
        d.len() <= 3 && from == 0 || d.len() - from < 3 ==> grouped(d, from) == d.skip(from),
        d.len() > 3 && from <= d.len() - 3 ==> grouped(d, from) == grouped(
            d.take(d.len() - 3),
            from,
        ) + seq![','] + d.skip(d.len() - 3),
    decreases d.len() - from,
{
    if from < d.len() {
        lemma_last_group(d, from + 1);
        let head = d.take(d.len() - 3);
        assert(d.skip(from) =~= seq![d[from]] + d.skip(from + 1));
        if d.len() > 3 && from <= d.len() - 3 {
            if from == d.len() - 3 {
                assert(grouped(head, from) =~= seq![]);
                assert(grouped(d, from) =~= grouped(head, from) + seq![','] + d.skip(from));
            } else {
                assert(head[from] == d[from]);
                assert(grouped(d, from) =~= grouped(head, from) + seq![','] + d.skip(
                    d.len() - 3,
                ));
            }
        } else if d.len() <= 3 && from == 0 || d.len() - from < 3 {
            assert(grouped(d, from) =~= d.skip(from));
        }
    } else {
        assert(grouped(d, from) =~= d.skip(from));
    }
}

} // verus!
