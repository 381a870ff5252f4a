//! Text primitives of the log parsers: Unicode white space, trimming, lines and
//! words, all stated over the characters of a string.

use vstd::prelude::*;
use vstd::utf8;

verus! {

/// The characters with the Unicode property `White_Space`.
pub open spec fn white_space(c: char) -> bool {
    let n = c as u32;
    ||| 0x9 <= n <= 0xd
    ||| n == 0x20
    ||| n == 0x85
    ||| n == 0xa0
    ||| n == 0x1680
    ||| 0x2000 <= n <= 0x200a
    ||| n == 0x2028
    ||| n == 0x2029
    ||| n == 0x202f
    ||| n == 0x205f
    ||| n == 0x3000
}

/// Whether a character is Unicode white space.
pub fn is_white_space(c: char) -> (r: bool)
    ensures
        r == white_space(c),
{
    let n: u32 = c as u32;
    (0x9 <= n && n <= 0xd) || n == 0x20 || n == 0x85 || n == 0xa0 || n == 0x1680 || (0x2000 <= n
        && n <= 0x200a) || n == 0x2028 || n == 0x2029 || n == 0x202f || n == 0x205f || n == 0x3000
}

// ---------------------------------------------------------------------------
// Slicing by characters
// ---------------------------------------------------------------------------

/// Encoding distributes over concatenation.
pub proof fn lemma_encode_concat(a: Seq<char>, b: Seq<char>)
    ensures
        utf8::encode_utf8(a + b) == utf8::encode_utf8(a) + utf8::encode_utf8(b),
    decreases a.len(),
{
    if a.len() == 0 {
        assert(a + b =~= b);
        assert(utf8::encode_utf8(a) + utf8::encode_utf8(b) =~= utf8::encode_utf8(b));
    } else {
        assert((a + b).drop_first() =~= a.drop_first() + b);
        lemma_encode_concat(a.drop_first(), b);
        assert(utf8::encode_utf8(a + b) =~= utf8::encode_utf8(a) + utf8::encode_utf8(b));
    }
}

/// Two texts with the same encoding are the same text.
pub proof fn lemma_encode_injective(a: Seq<char>, b: Seq<char>)
    requires
        utf8::encode_utf8(a) == utf8::encode_utf8(b),
    ensures
        a == b,
{
    utf8::encode_utf8_decode_utf8(a);
    utf8::encode_utf8_decode_utf8(b);
}

/// The end of the encoding of a prefix is a character boundary.
pub proof fn lemma_prefix_is_boundary(a: Seq<char>, b: Seq<char>)
    ensures
        utf8::is_char_boundary(utf8::encode_utf8(a + b), utf8::encode_utf8(a).len() as int),
    decreases a.len(),
{
    utf8::encode_utf8_valid_utf8(a + b);
    if a.len() > 0 {
        let bytes = utf8::encode_utf8(a + b);
        assert((a + b).drop_first() =~= a.drop_first() + b);
        lemma_prefix_is_boundary(a.drop_first(), b);
        utf8::encode_utf8_first_scalar(a + b);
        let width = utf8::encode_scalar(a[0] as u32).len() as int;
        assert(utf8::length_of_first_scalar(bytes) == width);
        assert(utf8::pop_first_scalar(bytes) =~= utf8::encode_utf8(a.drop_first() + b));
        assert(utf8::encode_utf8(a).len() == width + utf8::encode_utf8(a.drop_first()).len());
    }
}

/// The number of bytes of a character in UTF-8.
pub fn char_width(c: char) -> (r: usize)
    ensures
        r == utf8::encode_scalar(c as u32).len(),
        1 <= r <= 4,
{
    let n: u32 = c as u32;
    proof {
        utf8::char_is_scalar(c);
    }
    if n <= 0x7f {
        1
    } else if n <= 0x7ff {
        2
    } else if n <= 0xffff {
        3
    } else {
        4
    }
}

/// Splits a text after its first `count` characters.
pub fn split_chars(s: &str, count: usize) -> (r: (&str, &str))
    requires
        count <= s@.len(),
    ensures
        r.0@ == s@.take(count as int),
        r.1@ == s@.skip(count as int),
{
    let total: usize = s.as_bytes().len();
    let mut offset: usize = 0;
    let mut seen: usize = 0;
    let mut chars = s.chars();
    proof {
        assert(s@.skip(0) =~= s@);
        assert(utf8::encode_utf8(s@.take(0)) =~= seq![]);
    }
    while seen < count
        invariant
            seen <= count <= s@.len(),
            total == utf8::encode_utf8(s@).len(),
            vstd::std_specs::iter::IteratorSpec::remaining(&chars) == s@.skip(seen as int),
            offset == utf8::encode_utf8(s@.take(seen as int)).len(),
        decreases count - seen,
    {
        proof {
            lemma_encode_concat(s@.take(seen as int), seq![s@[seen as int]]);
            assert(s@.take(seen + 1) =~= s@.take(seen as int) + seq![s@[seen as int]]);
            let one = seq![s@[seen as int]];
            assert(one.drop_first() =~= seq![]);
            assert(utf8::encode_utf8(one.drop_first()) =~= seq![]);
            assert(utf8::encode_utf8(one) =~= utf8::encode_scalar(one[0] as u32));
            lemma_encode_concat(s@.take(seen + 1), s@.skip(seen + 1));
            assert(s@ =~= s@.take(seen + 1) + s@.skip(seen + 1));
            assert(s@.skip(seen as int).drop_first() =~= s@.skip(seen + 1));
        }
        if let Some(c) = chars.next() {
            offset += char_width(c);
        }
        seen += 1;
    }
    proof {
        let front = s@.take(count as int);
        let back = s@.skip(count as int);
        assert(s@ =~= front + back);
        lemma_prefix_is_boundary(front, back);
        lemma_encode_concat(front, back);
    }
    let r = s.split_at(offset);
    proof {
        let front = s@.take(count as int);
        let back = s@.skip(count as int);
        assert(utf8::encode_utf8(r.0@) =~= utf8::encode_utf8(front));
        lemma_encode_injective(r.0@, front);
        assert(utf8::encode_utf8(r.1@) =~= utf8::encode_utf8(back));
        lemma_encode_injective(r.1@, back);
    }
    r
}

/// Whether two strings hold the same text.
pub fn equal(a: &str, b: &str) -> (r: bool)
    ensures
        r == (a@ == b@),
{
    let x = a.as_bytes();
    let y = b.as_bytes();
    if x.len() != y.len() {
        return false;
    }
    let mut i: usize = 0;
    while i < x.len()
        invariant
            i <= x@.len(),
            x@.len() == y@.len(),
            x@ == utf8::encode_utf8(a@),
            y@ == utf8::encode_utf8(b@),
            forall|j: int| 0 <= j < i ==> x@[j] == y@[j],
        decreases x@.len() - i,
    {
        if x[i] != y[i] {
            return false;
        }
        i += 1;
    }
    proof {
        assert(x@ =~= y@);
        lemma_encode_injective(a@, b@);
    }
    true
}

// ---------------------------------------------------------------------------
// Runs of characters, trimming, lines and words
// ---------------------------------------------------------------------------

/// The kinds of characters that scanning runs over.
#[derive(Clone, Copy)]
pub enum CharClass {
    Space,
    Word,
    Line,
}

/// Whether a character belongs to a class.
pub open spec fn in_class(class: CharClass, c: char) -> bool {
    match class {
        CharClass::Space => white_space(c),
        CharClass::Word => !white_space(c),
        CharClass::Line => c != '\n',
    }
}

/// The length of the longest prefix of characters of one class.
pub open spec fn run_len(s: Seq<char>, class: CharClass) -> nat
    decreases s.len(),
{
    if s.len() == 0 || !in_class(class, s[0]) {
        0
    } else {
        1 + run_len(s.drop_first(), class)
    }
}

/// The text without its leading white space.
pub open spec fn trim_start(s: Seq<char>) -> Seq<char> {
    s.skip(run_len(s, CharClass::Space) as int)
}

/// The text without its trailing white space.
pub open spec fn trim_end(s: Seq<char>) -> Seq<char>
    decreases s.len(),
{
    if s.len() > 0 && white_space(s.last()) {
        trim_end(s.drop_last())
    } else {
        s
    }
}

/// The text without the white space around it.
pub open spec fn trimmed(s: Seq<char>) -> Seq<char> {
    trim_end(trim_start(s))
}

/// Whether a text is empty or holds white space alone.
pub open spec fn blank(s: Seq<char>) -> bool {
    forall|i: int| 0 <= i < s.len() ==> white_space(#[trigger] s[i])
}

/// A line without the carriage return that its ending began with.
pub open spec fn chop_return(line: Seq<char>) -> Seq<char> {
    if line.len() > 0 && line.last() == '\r' {
        line.drop_last()
    } else {
        line
    }
}

/// The lines of a text: each ends at a line feed, or a carriage return and a
/// line feed, which are not part of it; the last ending is optional.
pub open spec fn lines(s: Seq<char>) -> Seq<Seq<char>>
    decreases s.len(),
{
    let n = run_len(s, CharClass::Line) as int;
    if s.len() == 0 {
        seq![]
    } else if n >= s.len() {
        seq![s]
    } else {
        seq![chop_return(s.take(n))] + lines(s.skip(n + 1))
    }
}

/// The maximal runs of characters that are not white space.
pub open spec fn words(s: Seq<char>) -> Seq<Seq<char>>
    decreases s.len(),
{
    let t = trim_start(s);
    let n = run_len(t, CharClass::Word) as int;
    if t.len() == 0 || n == 0 || n > t.len() {
        seq![]
    } else {
        proof {
            lemma_run(s, CharClass::Space);
        }
        seq![t.take(n)] + words(t.skip(n))
    }
}

/// The texts of borrowed strings.
pub open spec fn views(v: Seq<&str>) -> Seq<Seq<char>> {
    v.map_values(|s: &str| s@)
}

/// The texts of owned strings.
pub open spec fn texts(v: Seq<String>) -> Seq<Seq<char>> {
    v.map_values(|s: String| s@)
}

/// A run lies inside the text, all of it is in the class, and it stops only at
/// the end or at a character outside the class.
pub proof fn lemma_run(s: Seq<char>, class: CharClass)
    ensures
        run_len(s, class) <= s.len(),
        forall|i: int| 0 <= i < run_len(s, class) ==> in_class(class, #[trigger] s[i]),
        run_len(s, class) < s.len() ==> !in_class(class, s[run_len(s, class) as int]),
    decreases s.len(),
{
    if s.len() > 0 && in_class(class, s[0]) {
        let t = s.drop_first();
        lemma_run(t, class);
        assert forall|i: int| 0 <= i < run_len(s, class) implies in_class(
            class,
            #[trigger] s[i],
        ) by {
            if i > 0 {
                assert(t[i - 1] == s[i]);
            }
        }
    }
}

/// A prefix of the class that ends the text or is followed by another character
/// is the run.
proof fn lemma_run_is(s: Seq<char>, class: CharClass, n: int)
    requires
        0 <= n <= s.len(),
        forall|i: int| 0 <= i < n ==> in_class(class, #[trigger] s[i]),
        n < s.len() ==> !in_class(class, s[n]),
    ensures
        run_len(s, class) == n,
{
    lemma_run(s, class);
    let r = run_len(s, class) as int;
    if r < n {
        assert(in_class(class, s[r]));
    } else if n < r {
        assert(in_class(class, s[n]));
    }
}

/// The run of a prefix is the run of the text, as far as the prefix goes.
pub proof fn lemma_run_of_prefix(s: Seq<char>, class: CharClass, n: int)
    requires
        0 <= n <= s.len(),
    ensures
        run_len(s.take(n), class) == (if run_len(s, class) < n {
            run_len(s, class) as int
        } else {
            n
        }),
{
    lemma_run(s, class);
    let r = run_len(s, class) as int;
    lemma_run_is(
        s.take(n),
        class,
        if r < n {
            r
        } else {
            n
        },
    );
}

/// Where white space ends the text, trimming removes all of it.
proof fn lemma_trim_end(s: Seq<char>, n: int)
    requires
        0 <= n <= s.len(),
        forall|i: int| n <= i < s.len() ==> white_space(#[trigger] s[i]),
        n > 0 ==> !white_space(s[n - 1]),
    ensures
        trim_end(s) == s.take(n),
    decreases s.len(),
{
    if n == s.len() {
        assert(s.take(n) =~= s);
    } else {
        assert(white_space(s[s.len() - 1]));
        lemma_trim_end(s.drop_last(), n);
        assert(s.drop_last().take(n) =~= s.take(n));
    }
}

/// Trimming keeps no white space at either end, and is empty exactly for a
/// blank text.
pub proof fn lemma_trimmed(s: Seq<char>)
    ensures
        trimmed(s).len() > 0 ==> !white_space(trimmed(s)[0]) && !white_space(trimmed(s).last()),
        trimmed(s).len() == 0 <==> blank(s),
        trimmed(s).len() <= s.len(),
{
    lemma_run(s, CharClass::Space);
    let t = trim_start(s);
    let r = run_len(s, CharClass::Space) as int;
    lemma_trim_end_shape(t);
    if t.len() > 0 {
        assert(t[0] == s[r]);
        assert(!white_space(t[0]));
        assert(!blank(s));
    } else {
        assert(r == s.len());
        assert(blank(s));
    }
}

/// Trimming twice is trimming once.
pub proof fn lemma_trim_idempotent(s: Seq<char>)
    ensures
        trimmed(trimmed(s)) == trimmed(s),
{
    let t = trimmed(s);
    lemma_trimmed(s);
    assert(run_len(t, CharClass::Space) == 0);
    assert(trim_start(t) =~= t);
}

/// A text without white space at either end is left as it is.
pub proof fn lemma_nothing_to_trim(s: Seq<char>)
    requires
        s.len() > 0,
        !white_space(s[0]),
        !white_space(s.last()),
    ensures
        trimmed(s) == s,
{
    assert(run_len(s, CharClass::Space) == 0);
    assert(trim_start(s) =~= s);
}

/// What trimming the end of a text leaves.
proof fn lemma_trim_end_shape(s: Seq<char>)
    ensures
        trim_end(s).len() <= s.len(),
        trim_end(s) == s.take(trim_end(s).len() as int),
        trim_end(s).len() > 0 ==> !white_space(trim_end(s).last()),
        s.len() > 0 && !white_space(s[0]) ==> trim_end(s).len() > 0 && trim_end(s)[0] == s[0],
    decreases s.len(),
{
    if s.len() > 0 && white_space(s.last()) {
        let t = s.drop_last();
        lemma_trim_end_shape(t);
        assert(t.take(trim_end(t).len() as int) =~= s.take(trim_end(t).len() as int));
    } else {
        assert(s.take(s.len() as int) =~= s);
    }
}

/// The length of the longest prefix of characters of one class.
fn scan(s: &str, class: CharClass) -> (r: usize)
    ensures
        r == run_len(s@, class),
        r <= s@.len(),
{
    let mut chars = s.chars();
    let mut i: usize = 0;
    proof {
        assert(s@.skip(0) =~= s@);
        lemma_chars_fit(s);
    }
    let limit: usize = s.as_bytes().len();
    loop
        invariant_except_break
            i <= s@.len() <= limit,
            vstd::std_specs::iter::IteratorSpec::remaining(&chars) == s@.skip(i as int),
            forall|j: int| 0 <= j < i ==> in_class(class, #[trigger] s@[j]),
        ensures
            i <= s@.len(),
            forall|j: int| 0 <= j < i ==> in_class(class, #[trigger] s@[j]),
            i < s@.len() ==> !in_class(class, s@[i as int]),
        decreases s@.len() - i,
    {
        match chars.next() {
            None => {
                break;
            },
            Some(c) => {
                assert(c == s@.skip(i as int)[0]);
                let inside = match class {
                    CharClass::Space => is_white_space(c),
                    CharClass::Word => !is_white_space(c),
                    CharClass::Line => c != '\n',
                };
                if !inside {
                    break;
                }
                assert(s@.skip(i as int).drop_first() =~= s@.skip(i + 1));
                i += 1;
            },
        }
    }
    proof {
        lemma_run_is(s@, class, i as int);
    }
    i
}

/// The number of characters before the first line feed.
pub fn line_len(s: &str) -> (r: usize)
    ensures
        r == run_len(s@, CharClass::Line),
        r <= s@.len(),
{
    scan(s, CharClass::Line)
}

/// A text has at most as many characters as bytes.
proof fn lemma_chars_fit(s: &str)
    ensures
        s@.len() <= utf8::encode_utf8(s@).len(),
{
    lemma_chars_within_bytes(s@);
}

/// The encoding is at least as long as the text.
pub proof fn lemma_chars_within_bytes(s: Seq<char>)
    ensures
        s.len() <= utf8::encode_utf8(s).len(),
    decreases s.len(),
{
    if s.len() > 0 {
        utf8::char_is_scalar(s[0]);
        lemma_chars_within_bytes(s.drop_first());
    }
}

/// The text without the white space around it.
pub fn trim(s: &str) -> (r: &str)
    ensures
        r@ == trimmed(s@),
{
    let lead = scan(s, CharClass::Space);
    let rest = split_chars(s, lead).1;
    let mut chars = rest.chars();
    let mut i: usize = 0;
    let mut end: usize = 0;
    proof {
        assert(rest@.skip(0) =~= rest@);
        lemma_chars_fit(rest);
    }
    let limit: usize = rest.as_bytes().len();
    loop
        invariant
            end <= i <= rest@.len() <= limit,
            vstd::std_specs::iter::IteratorSpec::remaining(&chars) == rest@.skip(i as int),
            forall|j: int| end <= j < i ==> white_space(#[trigger] rest@[j]),
            end > 0 ==> !white_space(rest@[end - 1]),
        ensures
            end <= rest@.len(),
            forall|j: int| end <= j < rest@.len() ==> white_space(#[trigger] rest@[j]),
            end > 0 ==> !white_space(rest@[end - 1]),
        decreases rest@.len() - i,
    {
        match chars.next() {
            None => {
                break;
            },
            Some(c) => {
                assert(c == rest@.skip(i as int)[0]);
                assert(rest@.skip(i as int).drop_first() =~= rest@.skip(i + 1));
                i += 1;
                if !is_white_space(c) {
                    end = i;
                }
            },
        }
    }
    proof {
        lemma_trim_end(rest@, end as int);
    }
    split_chars(rest, end).0
}

/// Whether a text is empty or holds white space alone.
pub fn is_blank(s: &str) -> (r: bool)
    ensures
        r == blank(s@),
{
    let lead = scan(s, CharClass::Space);
    let rest = split_chars(s, lead).1;
    proof {
        lemma_run(s@, CharClass::Space);
    }
    if rest.as_bytes().len() == 0 {
        proof {
            lemma_chars_fit(rest);
            assert(rest@.len() == 0);
        }
        true
    } else {
        proof {
            if rest@.len() == 0 {
                assert(utf8::encode_utf8(rest@).len() == 0);
            }
            assert(!white_space(s@[lead as int]));
        }
        false
    }
}

/// Whether a text has no characters.
pub fn is_empty(s: &str) -> (r: bool)
    ensures
        r == (s@.len() == 0),
{
    proof {
        lemma_chars_fit(s);
        if s@.len() == 0 {
            assert(utf8::encode_utf8(s@).len() == 0);
        }
    }
    s.as_bytes().len() == 0
}

/// Removes a carriage return from the end of a line.
fn chop(line: &str, len: usize) -> (r: &str)
    requires
        len == line@.len(),
    ensures
        r@ == chop_return(line@),
{
    if len == 0 {
        return line;
    }
    let (front, last) = split_chars(line, len - 1);
    if equal(last, "\r") {
        proof {
            reveal_strlit("\r");
            assert(line@.last() == last@[0]);
            assert(front@ =~= line@.drop_last());
        }
        front
    } else {
        proof {
            reveal_strlit("\r");
            if line@.last() == '\r' {
                assert(last@ =~= "\r"@);
            }
        }
        line
    }
}

/// The lines of a text.
pub fn split_lines(s: &str) -> (r: Vec<&str>)
    ensures
        views(r@) == lines(s@),
{
    let mut out: Vec<&str> = Vec::new();
    let mut rest = s;
    proof {
        assert(views(out@) + lines(rest@) =~= lines(s@));
    }
    while !is_empty(rest)
        invariant
            views(out@) + lines(rest@) == lines(s@),
        decreases rest@.len(),
    {
        let ghost before = rest@;
        let n = scan(rest, CharClass::Line);
        let (line, tail) = split_chars(rest, n);
        proof {
            lemma_run(before, CharClass::Line);
        }
        if is_empty(tail) {
            proof {
                assert(n == before.len());
                assert(views(out@.push(rest)) =~= views(out@) + seq![before]);
                assert(views(out@.push(rest)) =~= lines(s@));
            }
            out.push(rest);
            return out;
        }
        let ended = chop(line, n);
        let next = split_chars(tail, 1).1;
        proof {
            assert(next@ =~= before.skip(n + 1));
            assert(views(out@.push(ended)) =~= views(out@) + seq![chop_return(before.take(n as int))]);
            assert(views(out@.push(ended)) + lines(next@) =~= views(out@) + lines(before));
        }
        out.push(ended);
        rest = next;
    }
    proof {
        assert(views(out@) =~= lines(s@));
    }
    out
}

/// The first line of a text, or nothing where it has none.
pub open spec fn head_line(s: Seq<char>) -> Seq<char> {
    if lines(s).len() == 0 {
        seq![]
    } else {
        lines(s)[0]
    }
}

/// The first line of a text, or nothing where it has none.
pub fn first_line(s: &str) -> (r: &str)
    ensures
        r@ == head_line(s@),
{
    let n = scan(s, CharClass::Line);
    let (line, tail) = split_chars(s, n);
    proof {
        lemma_run(s@, CharClass::Line);
    }
    if is_empty(tail) {
        assert(s@.len() == 0 ==> s@ =~= seq![]);
        s
    } else {
        chop(line, n)
    }
}

/// The words of a text.
pub fn split_words(s: &str) -> (r: Vec<&str>)
    ensures
        views(r@) == words(s@),
{
    let mut out: Vec<&str> = Vec::new();
    let mut rest = s;
    proof {
        assert(views(out@) + words(rest@) =~= words(s@));
    }
    loop
        invariant
            views(out@) + words(rest@) == words(s@),
        ensures
            views(out@) == words(s@),
        decreases rest@.len(),
    {
        let ghost before = rest@;
        let lead = scan(rest, CharClass::Space);
        let body = split_chars(rest, lead).1;
        proof {
            lemma_run(before, CharClass::Space);
        }
        if is_empty(body) {
            proof {
                assert(words(before) =~= seq![]);
                assert(views(out@) =~= words(s@));
            }
            break;
        }
        let n = scan(body, CharClass::Word);
        let (word, tail) = split_chars(body, n);
        proof {
            lemma_run(body@, CharClass::Word);
            assert(body@[0] == before[lead as int]);
            assert(n > 0);
            assert(views(out@.push(word)) =~= views(out@) + seq![body@.take(n as int)]);
            assert(views(out@.push(word)) + words(tail@) =~= views(out@) + words(before));
        }
        out.push(word);
        rest = tail;
    }
    out
}

// ---------------------------------------------------------------------------
// Prefixes, single characters and order
// ---------------------------------------------------------------------------

/// Whether a text begins with another.
pub open spec fn begins_with(s: Seq<char>, prefix: Seq<char>) -> bool {
    prefix.len() <= s.len() && s.take(prefix.len() as int) == prefix
}

/// Whether one text stands before another in lexicographic order of characters.
pub open spec fn precedes(a: Seq<char>, b: Seq<char>) -> bool
    decreases a.len(),
{
    if b.len() == 0 {
        false
    } else if a.len() == 0 {
        true
    } else if a[0] == b[0] {
        precedes(a.drop_first(), b.drop_first())
    } else {
        a[0] < b[0]
    }
}

/// The rest of a text behind a prefix, where it begins with that prefix.
pub fn strip_prefix<'a>(s: &'a str, prefix: &str) -> (r: Option<&'a str>)
    ensures
        r is Some <==> begins_with(s@, prefix@),
        r matches Some(rest) ==> rest@ == s@.skip(prefix@.len() as int),
{
    let mut xs = s.chars();
    let mut ys = prefix.chars();
    let mut i: usize = 0;
    proof {
        assert(s@.skip(0) =~= s@);
        assert(prefix@.skip(0) =~= prefix@);
        lemma_chars_fit(prefix);
    }
    let limit: usize = prefix.as_bytes().len();
    loop
        invariant
            i <= s@.len(),
            i <= prefix@.len() <= limit,
            vstd::std_specs::iter::IteratorSpec::remaining(&xs) == s@.skip(i as int),
            vstd::std_specs::iter::IteratorSpec::remaining(&ys) == prefix@.skip(i as int),
            forall|j: int| 0 <= j < i ==> s@[j] == prefix@[j],
        ensures
            i == prefix@.len() <= s@.len(),
            s@.take(i as int) == prefix@,
        decreases prefix@.len() - i,
    {
        match ys.next() {
            None => {
                assert(s@.take(i as int) =~= prefix@);
                break;
            },
            Some(y) => {
                assert(y == prefix@.skip(i as int)[0]);
                assert(prefix@.skip(i as int).drop_first() =~= prefix@.skip(i + 1));
                match xs.next() {
                    None => {
                        assert(s@.len() == i);
                        return None;
                    },
                    Some(x) => {
                        assert(x == s@.skip(i as int)[0]);
                        assert(s@.skip(i as int).drop_first() =~= s@.skip(i + 1));
                        if x != y {
                            assert(begins_with(s@, prefix@) ==> s@.take(prefix@.len() as int)[i as int]
                                == prefix@[i as int]);
                            return None;
                        }
                        i += 1;
                    },
                }
            },
        }
    }
    Some(split_chars(s, i).1)
}

/// Whether a text begins with another.
pub fn starts_with(s: &str, prefix: &str) -> (r: bool)
    ensures
        r == begins_with(s@, prefix@),
{
    strip_prefix(s, prefix).is_some()
}

/// Whether a character occurs in a text.
pub fn contains_char(s: &str, c: char) -> (r: bool)
    ensures
        r == s@.contains(c),
{
    let mut chars = s.chars();
    let ghost mut i: int = 0;
    proof {
        assert(s@.skip(0) =~= s@);
    }
    loop
        invariant
            0 <= i <= s@.len(),
            vstd::std_specs::iter::IteratorSpec::remaining(&chars) == s@.skip(i),
            forall|j: int| 0 <= j < i ==> s@[j] != c,
        decreases s@.len() - i,
    {
        match chars.next() {
            None => {
                return false;
            },
            Some(x) => {
                assert(x == s@.skip(i)[0]);
                if x == c {
                    assert(s@[i] == c);
                    return true;
                }
                proof {
                    assert(s@.skip(i).drop_first() =~= s@.skip(i + 1));
                    i = i + 1;
                }
            },
        }
    }
}

/// The first character of a text.
pub fn first_char(s: &str) -> (r: Option<char>)
    ensures
        r == (if s@.len() == 0 {
            None::<char>
        } else {
            Some(s@[0])
        }),
{
    let mut chars = s.chars();
    chars.next()
}

/// The characters of a text.
pub fn chars_of(s: &str) -> (r: Vec<char>)
    ensures
        r@ == s@,
{
    let mut out: Vec<char> = Vec::new();
    let mut chars = s.chars();
    proof {
        assert(s@.skip(0) =~= s@);
    }
    loop
        invariant
            out@.len() <= s@.len(),
            vstd::std_specs::iter::IteratorSpec::remaining(&chars) == s@.skip(out@.len() as int),
            out@ == s@.take(out@.len() as int),
        ensures
            out@ == s@,
        decreases s@.len() - out@.len(),
    {
        let ghost n = out@.len() as int;
        match chars.next() {
            None => {
                assert(s@.take(n) =~= s@);
                break;
            },
            Some(c) => {
                assert(c == s@.skip(n)[0]);
                assert(s@.skip(n).drop_first() =~= s@.skip(n + 1));
                out.push(c);
                assert(out@ =~= s@.take(n + 1));
            },
        }
    }
    out
}

/// Whether one text stands before another in lexicographic order of characters.
pub fn comes_before(a: &str, b: &str) -> (r: bool)
    ensures
        r == precedes(a@, b@),
{
    let mut xs = a.chars();
    let mut ys = b.chars();
    let ghost mut i: int = 0;
    proof {
        assert(a@.skip(0) =~= a@);
        assert(b@.skip(0) =~= b@);
    }
    loop
        invariant
            0 <= i <= a@.len(),
            i <= b@.len(),
            vstd::std_specs::iter::IteratorSpec::remaining(&xs) == a@.skip(i),
            vstd::std_specs::iter::IteratorSpec::remaining(&ys) == b@.skip(i),
            precedes(a@, b@) == precedes(a@.skip(i), b@.skip(i)),
        decreases a@.len() - i,
    {
        let x = xs.next();
        let y = ys.next();
        proof {
            if i < a@.len() {
                assert(a@.skip(i).drop_first() =~= a@.skip(i + 1));
            }
            if i < b@.len() {
                assert(b@.skip(i).drop_first() =~= b@.skip(i + 1));
            }
        }
        match (x, y) {
            (_, None) => {
                return false;
            },
            (None, Some(_)) => {
                return true;
            },
            (Some(x), Some(y)) => {
                if x != y {
                    return x < y;
                }
                proof {
                    i = i + 1;
                }
            },
        }
    }
}

/// The order of texts is transitive.
pub proof fn lemma_precedes_transitive(a: Seq<char>, b: Seq<char>, c: Seq<char>)
    requires
        precedes(a, b),
        precedes(b, c),
    ensures
        precedes(a, c),
    decreases a.len(),
{
    if a.len() > 0 && a[0] == b[0] && b[0] == c[0] {
        lemma_precedes_transitive(a.drop_first(), b.drop_first(), c.drop_first());
    }
}

/// Of two different texts exactly one stands before the other.
pub proof fn lemma_precedes_total(a: Seq<char>, b: Seq<char>)
    ensures
        a == b ==> !precedes(a, b),
        a != b ==> precedes(a, b) != precedes(b, a),
    decreases a.len(),
{
    if a.len() > 0 && b.len() > 0 && a[0] == b[0] {
        lemma_precedes_total(a.drop_first(), b.drop_first());
        if a.drop_first() == b.drop_first() {
            assert(a =~= seq![a[0]] + a.drop_first());
            assert(b =~= seq![b[0]] + b.drop_first());
        }
    } else if a.len() == 0 && b.len() == 0 {
        assert(a =~= b);
    }
}

// ---------------------------------------------------------------------------
// What holds of every text
// ---------------------------------------------------------------------------

/// Of the characters of ASCII the blank and those from the tabulator to the carriage
/// return are white space, and no other.
pub proof fn lemma_ascii_white_space(c: char)
    requires
        c < '\u{80}',
    ensures
        white_space(c) <==> c == ' ' || c == '\t' || c == '\n' || c == '\u{b}' || c == '\u{c}' || c
            == '\r',
{
}

/// Trimming takes the white space from both ends of a text, and nothing else.
pub proof fn lemma_trim_takes_the_ends(lead: Seq<char>, s: Seq<char>, end: Seq<char>)
    requires
        blank(lead),
        blank(end),
        s.len() > 0,
        !white_space(s[0]),
        !white_space(s.last()),
    ensures
        trimmed(lead + s + end) == s,
{
    let all = lead + s + end;
    let n = lead.len() as int;
    assert forall|i: int| 0 <= i < n implies in_class(CharClass::Space, #[trigger] all[i]) by {
        assert(all[i] == lead[i]);
    }
    assert(all[n] == s[0]);
    lemma_run_is(all, CharClass::Space, n);
    let rest = trim_start(all);
    assert(rest =~= s + end);
    assert forall|i: int| s.len() <= i < rest.len() implies white_space(#[trigger] rest[i]) by {
        assert(rest[i] == end[i - s.len()]);
    }
    assert(rest[s.len() - 1] == s.last());
    lemma_trim_end(rest, s.len() as int);
    assert(rest.take(s.len() as int) =~= s);
}

/// The lines of a text: what stands before a line feed, or a carriage return and a line
/// feed, is the first, and the others are those of what follows. A text without a line
/// feed is one line.
pub proof fn lemma_lines(first: Seq<char>, rest: Seq<char>)
    requires
        !first.contains('\n'),
    ensures
        lines(Seq::<char>::empty()).len() == 0,
        first.len() > 0 ==> lines(first) == seq![first],
        !(first.len() > 0 && first.last() == '\r') ==> lines(first + seq!['\n'] + rest) == seq![
            first,
        ] + lines(rest),
        lines(first + seq!['\r', '\n'] + rest) == seq![first] + lines(rest),
{
    let n = first.len() as int;
    assert forall|i: int| 0 <= i < n implies in_class(CharClass::Line, #[trigger] first[i]) by {
        assert(first.contains(first[i]));
    }
    lemma_run_is(first, CharClass::Line, n);
    let plain = first + seq!['\n'] + rest;
    assert forall|i: int| 0 <= i < n implies in_class(CharClass::Line, #[trigger] plain[i]) by {
        assert(plain[i] == first[i]);
    }
    assert(plain[n] == '\n');
    lemma_run_is(plain, CharClass::Line, n);
    assert(plain.take(n) =~= first);
    assert(plain.skip(n + 1) =~= rest);
    let returned = first + seq!['\r', '\n'] + rest;
    assert forall|i: int| 0 <= i < n + 1 implies in_class(
        CharClass::Line,
        #[trigger] returned[i],
    ) by {
        if i < n {
            assert(returned[i] == first[i]);
        } else {
            assert(returned[i] == '\r');
        }
    }
    assert(returned[n + 1] == '\n');
    lemma_run_is(returned, CharClass::Line, n + 1);
    assert(returned.take(n + 1) =~= first.push('\r'));
    assert(returned.take(n + 1).drop_last() =~= first);
    assert(returned.skip(n + 2) =~= rest);
}

/// The words of a text: after any white space a run of other characters is the first,
/// and the others are those of what follows. White space alone holds none.
pub proof fn lemma_words(lead: Seq<char>, word: Seq<char>, rest: Seq<char>)
    requires
        blank(lead),
        word.len() > 0,
        forall|i: int| 0 <= i < word.len() ==> !white_space(#[trigger] word[i]),
        rest.len() > 0 ==> white_space(rest[0]),
    ensures
        words(lead).len() == 0,
        words(lead + word + rest) == seq![word] + words(rest),
{
    let n = lead.len() as int;
    let m = word.len() as int;
    assert forall|i: int| 0 <= i < n implies in_class(CharClass::Space, #[trigger] lead[i]) by {}
    lemma_run_is(lead, CharClass::Space, n);
    assert(trim_start(lead).len() == 0);
    let all = lead + word + rest;
    assert forall|i: int| 0 <= i < n implies in_class(CharClass::Space, #[trigger] all[i]) by {
        assert(all[i] == lead[i]);
    }
    assert(all[n] == word[0]);
    lemma_run_is(all, CharClass::Space, n);
    let body = trim_start(all);
    assert(body =~= word + rest);
    assert forall|i: int| 0 <= i < m implies in_class(CharClass::Word, #[trigger] body[i]) by {
        assert(body[i] == word[i]);
    }
    if rest.len() > 0 {
        assert(body[m] == rest[0]);
    }
    lemma_run_is(body, CharClass::Word, m);
    assert(body.take(m) =~= word);
    assert(body.skip(m) =~= rest);
}

/// Of two texts that begin alike, the one with the lesser next character stands first,
/// and so does one that ends where the other goes on.
pub proof fn lemma_order_of_texts(
    start: Seq<char>,
    a: char,
    more: Seq<char>,
    b: char,
    other: Seq<char>,
)
    ensures
        precedes(start, start + seq![a] + more),
        !precedes(start + seq![a] + more, start),
        a < b ==> precedes(start + seq![a] + more, start + seq![b] + other),
    decreases start.len(),
{
    let x = start + seq![a] + more;
    let y = start + seq![b] + other;
    if start.len() > 0 {
        let short = start.drop_first();
        lemma_order_of_texts(short, a, more, b, other);
        assert(x.drop_first() =~= short + seq![a] + more);
        assert(y.drop_first() =~= short + seq![b] + other);
    } else {
        assert(x[0] == a && y[0] == b);
    }
}

/// Outside ASCII the characters that are white space are these.
pub proof fn lemma_other_white_space(c: char)
    requires
        c >= '\u{80}',
    ensures
        white_space(c) <==> c == '\u{85}' || c == '\u{a0}' || c == '\u{1680}' || ('\u{2000}' <= c
            && c <= '\u{200a}') || c == '\u{2028}' || c == '\u{2029}' || c == '\u{202f}' || c
            == '\u{205f}' || c == '\u{3000}',
{
}

/// The first line of a text is what stands before its first line feed.
pub proof fn lemma_first_line_of_a_text(first: Seq<char>, rest: Seq<char>)
    requires
        !first.contains('\n'),
    ensures
        head_line(Seq::<char>::empty()).len() == 0,
        head_line(first) == first,
        !(first.len() > 0 && first.last() == '\r') ==> head_line(first + seq!['\n'] + rest)
            == first,
        head_line(first + seq!['\r', '\n'] + rest) == first,
{
    lemma_lines(first, rest);
    if first.len() == 0 {
        assert(first =~= seq![]);
    }
}

/// A text begins with another exactly where it is that text and something behind it.
pub proof fn lemma_begins_with(s: Seq<char>, prefix: Seq<char>, rest: Seq<char>)
    ensures
        begins_with(prefix + rest, prefix),
        begins_with(s, prefix) ==> s == prefix + s.skip(prefix.len() as int),
{
    assert((prefix + rest).take(prefix.len() as int) =~= prefix);
    if begins_with(s, prefix) {
        assert(s =~= s.take(prefix.len() as int) + s.skip(prefix.len() as int));
    }
}

} // verus!
