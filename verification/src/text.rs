//! Text: splitting, trimming and printing, stated over sequences of characters.
use vstd::prelude::*;
use vstd::string::*;
use vstd::utf8::*;

verus! {

broadcast use vstd::utf8::group_utf8_lib;

/// The position of the first `x` in `s`, or `s.len()` when there is none.
pub open spec fn find<T>(s: Seq<T>, x: T) -> int
    decreases s.len(),
{
    if s.len() == 0 || s[0] == x {
        0
    } else {
        1 + find(s.drop_first(), x)
    }
}

/// `find` is the only position before which there is no `x` and at which there is one, or the
/// sequence ends.
pub proof fn lemma_find_is<T>(s: Seq<T>, x: T, i: int)
    requires
        0 <= i <= s.len(),
        forall|j: int| 0 <= j < i ==> s[j] != x,
        i < s.len() ==> s[i] == x,
    ensures
        find(s, x) == i,
    decreases s.len(),
{
    if s.len() > 0 && i > 0 {
        assert(s[0] != x);
        lemma_find_is(s.drop_first(), x, i - 1);
    }
}

/// What `find` promises of its result.
pub proof fn lemma_find_bounds<T>(s: Seq<T>, x: T)
    ensures
        0 <= find(s, x) <= s.len(),
        forall|j: int| 0 <= j < find(s, x) ==> s[j] != x,
        find(s, x) < s.len() ==> s[find(s, x)] == x,
    decreases s.len(),
{
    if s.len() > 0 && s[0] != x {
        lemma_find_bounds(s.drop_first(), x);
        assert forall|j: int| 0 <= j < find(s, x) implies s[j] != x by {
            if j > 0 {
                assert(s[j] == s.drop_first()[j - 1]);
            }
        }
    }
}

/// The parts of `s` before and after its first `x`.
pub open spec fn split_at_first(s: Seq<char>, x: char) -> Option<(Seq<char>, Seq<char>)> {
    let i = find(s, x);
    if i < s.len() {
        Some((s.take(i), s.skip(i + 1)))
    } else {
        None
    }
}

proof fn lemma_scalar_bytes(c: char, d: u8)
    requires
        d < 0x80,
    ensures
        encode_scalar(c as u32).len() >= 1,
        encode_scalar(c as u32).contains(d) <==> c as u32 == d as u32,
        encode_scalar(c as u32)[0] == d <==> c as u32 == d as u32,
{
    let v = c as u32;
    let b1 = vstd::utf8::leading_byte_width_1(v);
    let b2 = vstd::utf8::leading_byte_width_2(v);
    let b3 = vstd::utf8::leading_byte_width_3(v);
    let b4 = vstd::utf8::leading_byte_width_4(v);
    let l1 = vstd::utf8::last_continuation_byte(v);
    let l2 = vstd::utf8::second_last_continuation_byte(v);
    let l3 = vstd::utf8::third_last_continuation_byte(v);
    assert(v < 0x80 ==> vstd::utf8::leading_byte_width_1(v) == v) by (bit_vector);
    assert(vstd::utf8::leading_byte_width_2(v) >= 0x80) by (bit_vector);
    assert(vstd::utf8::leading_byte_width_3(v) >= 0x80) by (bit_vector);
    assert(vstd::utf8::leading_byte_width_4(v) >= 0x80) by (bit_vector);
    assert(vstd::utf8::last_continuation_byte(v) >= 0x80) by (bit_vector);
    assert(vstd::utf8::second_last_continuation_byte(v) >= 0x80) by (bit_vector);
    assert(vstd::utf8::third_last_continuation_byte(v) >= 0x80) by (bit_vector);
    if v < 0x80 {
        assert(encode_scalar(v)[0] == b1);
    }
}

/// An ASCII byte stands in the encoding of `s` exactly where its character stands in `s`.
proof fn lemma_ascii_byte(s: Seq<char>, c: char, d: u8)
    requires
        d < 0x80,
        c as u32 == d as u32,
    ensures
        encode_utf8(s).contains(d) <==> s.contains(c),
        encode_utf8(s).len() == 0 <==> s.len() == 0,
        s.len() > 0 ==> (encode_utf8(s)[0] == d <==> s[0] == c),
    decreases s.len(),
{
    if s.len() > 0 {
        let head = encode_scalar(s[0] as u32);
        let rest = encode_utf8(s.drop_first());
        lemma_scalar_bytes(s[0], d);
        lemma_ascii_byte(s.drop_first(), c, d);
        assert(encode_utf8(s) == head + rest);
        char_u32_cast(s[0], s[0] as u32);
        char_u32_cast(c, c as u32);
        assert(s[0] as u32 == d as u32 <==> s[0] == c);
        if encode_utf8(s).contains(d) {
            let i = choose|i: int| 0 <= i < encode_utf8(s).len() && encode_utf8(s)[i] == d;
            if i < head.len() {
                assert(head[i] == d);
                assert(s[0] == c);
            } else {
                assert(rest[i - head.len()] == d);
                assert(rest.contains(d));
                let k = choose|k: int| 0 <= k < s.drop_first().len() && s.drop_first()[k] == c;
                assert(s[k + 1] == c);
            }
        }
        if s.contains(c) {
            let k = choose|k: int| 0 <= k < s.len() && s[k] == c;
            if k == 0 {
                assert(encode_utf8(s)[0] == d);
            } else {
                assert(s.drop_first()[k - 1] == c);
                let i = choose|i: int| 0 <= i < rest.len() && rest[i] == d;
                assert(encode_utf8(s)[head.len() + i] == d);
            }
        }
    }
}

/// Splits `s` at the first occurrence of the ASCII character with code `delimiter`.
pub fn split_once<'a>(s: &'a str, delimiter: u8) -> (r: Option<(&'a str, &'a str)>)
    requires
        delimiter < 0x80,
    ensures
        match r {
            Some((a, b)) => split_at_first(s@, delimiter as char) == Some((a@, b@)),
            None => split_at_first(s@, delimiter as char) is None,
        },
{
    let bytes = s.as_bytes();
    let ghost c = delimiter as char;
    let mut i: usize = 0;
    while i < bytes.len() && bytes[i] != delimiter
        invariant
            i <= bytes@.len(),
            forall|j: int| 0 <= j < i ==> bytes@[j] != delimiter,
        decreases bytes.len() - i,
    {
        i = i + 1;
    }
    proof {
        lemma_ascii_byte(s@, c, delimiter);
        assert(valid_utf8(encode_utf8(s@)));
    }
    if i == bytes.len() {
        proof {
            assert(!s@.contains(c));
            lemma_find_is(s@, c, s@.len() as int);
        }
        return None;
    }
    proof {
        assert(!vstd::utf8::is_continuation_byte(bytes@[i as int]));
        assert(is_char_boundary(bytes@, i as int));
    }
    let (a, rest) = s.split_at(i);
    proof {
        vstd::utf8::decode_utf8_split(bytes@, i as int);
        assert(decode_utf8(a.spec_bytes()) == a@);
        assert(decode_utf8(rest.spec_bytes()) == rest@);
        assert(s@ == a@ + rest@);
        lemma_ascii_byte(rest@, c, delimiter);
        assert(rest.spec_bytes()[0] == delimiter);
        assert(rest@[0] == c);
        assert(!a.spec_bytes().contains(delimiter));
        lemma_ascii_byte(a@, c, delimiter);
        assert forall|j: int| 0 <= j < a@.len() implies s@[j] != c by {
            assert(a@[j] == s@[j]);
            assert(a@.contains(a@[j]));
        }
        lemma_find_is(s@, c, a@.len() as int);
        lemma_scalar_bytes(rest@[0], delimiter);
        let tail = rest@.drop_first();
        assert(rest.spec_bytes() == encode_scalar(rest@[0] as u32) + encode_utf8(tail));
        assert(encode_scalar(rest@[0] as u32).len() == 1);
        assert(rest.spec_bytes().subrange(1, rest.spec_bytes().len() as int) == encode_utf8(tail));
        if rest.spec_bytes().len() > 1 {
            assert(valid_utf8(encode_utf8(tail)));
            assert(!vstd::utf8::is_continuation_byte(rest.spec_bytes()[1])) by {
                lemma_leading(tail);
            }
            assert(is_char_boundary(rest.spec_bytes(), 1));
        } else {
            assert(is_char_boundary(rest.spec_bytes(), 1));
        }
    }
    let (_delimiter, b) = rest.split_at(1);
    proof {
        assert(decode_utf8(b.spec_bytes()) == b@);
        assert(b@ == rest@.drop_first());
        assert(s@.take(a@.len() as int) == a@);
        assert(s@.skip(a@.len() as int + 1) == b@);
    }
    Some((a, b))
}

proof fn lemma_leading(s: Seq<char>)
    requires
        s.len() > 0,
    ensures
        !vstd::utf8::is_continuation_byte(encode_utf8(s)[0]),
{
    let bytes = encode_utf8(s);
    lemma_scalar_bytes(s[0], 0);
    assert(valid_utf8(bytes));
    assert(is_char_boundary(bytes, 0));
}

/// Whether two strings hold the same characters.
pub fn same_text(a: &str, b: &str) -> (r: bool)
    ensures
        r == (a@ == b@),
{
    proof {
        encode_utf8_decode_utf8(a@);
        encode_utf8_decode_utf8(b@);
    }
    crate::path::bytes_equal(a.as_bytes(), b.as_bytes())
}

/// The members of `list` with `separator` between each two.
pub open spec fn join(list: Seq<Seq<char>>, separator: Seq<char>) -> Seq<char>
    decreases list.len(),
{
    if list.len() == 0 {
        Seq::empty()
    } else if list.len() == 1 {
        list[0]
    } else {
        join(list.drop_last(), separator) + separator + list.last()
    }
}

/// The characters with Unicode's `White_Space` property.
pub open spec fn is_white_space(c: char) -> bool {
    ||| '\u{9}' <= c <= '\u{d}'
    ||| c == '\u{20}'
    ||| c == '\u{85}'
    ||| c == '\u{a0}'
    ||| c == '\u{1680}'
    ||| '\u{2000}' <= c <= '\u{200a}'
    ||| c == '\u{2028}'
    ||| c == '\u{2029}'
    ||| c == '\u{202f}'
    ||| c == '\u{205f}'
    ||| c == '\u{3000}'
}

fn white_space(c: char) -> (r: bool)
    ensures
        r == is_white_space(c),
{
    ('\u{9}' <= c && c <= '\u{d}') || c == '\u{20}' || c == '\u{85}' || c == '\u{a0}' || c
        == '\u{1680}' || ('\u{2000}' <= c && c <= '\u{200a}') || c == '\u{2028}' || c == '\u{2029}'
        || c == '\u{202f}' || c == '\u{205f}' || c == '\u{3000}'
}

/// `s` without the white space it starts with.
pub open spec fn trim_start(s: Seq<char>) -> Seq<char>
    decreases s.len(),
{
    if s.len() > 0 && is_white_space(s[0]) {
        trim_start(s.drop_first())
    } else {
        s
    }
}

/// `s` without the white space it ends with.
pub open spec fn trim_end(s: Seq<char>) -> Seq<char>
    decreases s.len(),
{
    if s.len() > 0 && is_white_space(s.last()) {
        trim_end(s.drop_last())
    } else {
        s
    }
}

/// `s` without the white space around it.
pub open spec fn trimmed(s: Seq<char>) -> Seq<char> {
    trim_end(trim_start(s))
}

/// The characters of `s`.
pub fn chars_of(s: &str) -> (r: Vec<char>)
    ensures
        r@ == s@,
{
    let mut r: Vec<char> = Vec::new();
    for c in it: s.chars()
        invariant
            r@ == s@.take(it.index() as int),
            it.seq() == s@,
    {
        r.push(c);
    }
    r
}

/// `s` without the white space around it.
pub fn trim<'a>(s: &'a str) -> (r: &'a str)
    ensures
        r@ == trimmed(s@),
{
    let chars = chars_of(s);
    let mut start: usize = 0;
    assert(s@.skip(0) == s@);
    while start < chars.len() && white_space(chars[start])
        invariant
            chars@ == s@,
            start <= chars@.len(),
            trim_start(s@) == trim_start(s@.skip(start as int)),
        decreases chars.len() - start,
    {
        assert(s@.skip(start as int).drop_first() == s@.skip(start + 1));
        start = start + 1;
    }
    let ghost kept = s@.skip(start as int);
    assert(trim_start(s@) == kept);
    let mut end: usize = chars.len();
    assert(s@.subrange(start as int, end as int) == kept);
    while end > start && white_space(chars[end - 1])
        invariant
            chars@ == s@,
            start <= end <= chars@.len(),
            trim_end(kept) == trim_end(s@.subrange(start as int, end as int)),
        decreases end,
    {
        assert(s@.subrange(start as int, end as int).drop_last() == s@.subrange(start as int, end - 1));
        end = end - 1;
    }
    s.substring_char(start, end)
}

/// `s` without one carriage return at its end.
pub open spec fn strip_carriage_return(s: Seq<char>) -> Seq<char> {
    if s.len() > 0 && s.last() == '\r' {
        s.drop_last()
    } else {
        s
    }
}

/// The lines of `s`: each ends with a line feed, which a carriage return may come before, and
/// neither belongs to it. The last one needs no line feed.
pub open spec fn lines(s: Seq<char>) -> Seq<Seq<char>>
    decreases s.len(),
    via lines_decreases
{
    let i = find(s, '\n');
    if s.len() == 0 {
        Seq::empty()
    } else if i == s.len() {
        seq![s]
    } else {
        seq![strip_carriage_return(s.take(i))] + lines(s.skip(i + 1))
    }
}

#[via_fn]
proof fn lines_decreases(s: Seq<char>) {
    lemma_find_bounds(s, '\n');
}

proof fn lemma_trim_start_push(s: Seq<char>, c: char)
    requires
        is_white_space(c),
    ensures
        trim_end(trim_start(s.push(c))) == trim_end(trim_start(s)),
    decreases s.len(),
{
    if s.len() == 0 {
        assert(s.push(c).drop_first() == s);
    } else if is_white_space(s[0]) {
        assert(s.push(c).drop_first() == s.drop_first().push(c));
        lemma_trim_start_push(s.drop_first(), c);
    } else {
        assert(s.push(c).drop_last() == s);
    }
}

/// Dropping a final carriage return does not change what is left after trimming.
pub proof fn lemma_trimmed_carriage_return(s: Seq<char>)
    ensures
        trimmed(strip_carriage_return(s)) == trimmed(s),
{
    if s.len() > 0 && s.last() == '\r' {
        assert(s.drop_last().push('\r') == s);
        lemma_trim_start_push(s.drop_last(), '\r');
    }
}

/// White space at the end does not change what is left after trimming.
pub proof fn lemma_trimmed_push(s: Seq<char>, c: char)
    requires
        is_white_space(c),
    ensures
        trimmed(s.push(c)) == trimmed(s),
{
    lemma_trim_start_push(s, c);
}

/// Trimming leaves text alone that neither starts nor ends with white space.
pub proof fn lemma_trimmed_id(s: Seq<char>)
    requires
        s.len() > 0 ==> !is_white_space(s[0]) && !is_white_space(s.last()),
    ensures
        trimmed(s) == s,
{
}

/// The character that prints the digit `d`.
pub open spec fn digit(d: nat) -> char {
    if d == 0 {
        '0'
    } else if d == 1 {
        '1'
    } else if d == 2 {
        '2'
    } else if d == 3 {
        '3'
    } else if d == 4 {
        '4'
    } else if d == 5 {
        '5'
    } else if d == 6 {
        '6'
    } else if d == 7 {
        '7'
    } else if d == 8 {
        '8'
    } else {
        '9'
    }
}

/// `n` in decimal.
pub open spec fn decimal(n: nat) -> Seq<char>
    decreases n,
{
    if n < 10 {
        seq![digit(n)]
    } else {
        decimal(n / 10).push(digit(n % 10))
    }
}

fn digit_str(d: u64) -> (s: &'static str)
    requires
        d < 10,
    ensures
        s@ == seq![digit(d as nat)],
{
    proof {
        reveal_strlit("0");
        reveal_strlit("1");
        reveal_strlit("2");
        reveal_strlit("3");
        reveal_strlit("4");
        reveal_strlit("5");
        reveal_strlit("6");
        reveal_strlit("7");
        reveal_strlit("8");
        reveal_strlit("9");
    }
    match d {
        0 => "0",
        1 => "1",
        2 => "2",
        3 => "3",
        4 => "4",
        5 => "5",
        6 => "6",
        7 => "7",
        8 => "8",
        _ => "9",
    }
}

/// Prints `n` in decimal.
pub fn to_decimal(n: u64) -> (s: String)
    ensures
        s@ == decimal(n as nat),
    decreases n,
{
    if n < 10 {
        digit_str(n).to_owned()
    } else {
        let mut s = to_decimal(n / 10);
        s.append(digit_str(n % 10));
        s
    }
}

/// A number in decimal is printed with digits alone, and with at least one.
pub proof fn lemma_decimal_digits(n: nat)
    ensures
        decimal(n).len() > 0,
        forall|i: int| 0 <= i < decimal(n).len() ==> '0' <= #[trigger] decimal(n)[i] <= '9',
    decreases n,
{
    if n >= 10 {
        lemma_decimal_digits(n / 10);
    }
}

/// What `String::from_utf8_lossy` makes of a byte string.
pub uninterp spec fn utf8_lossy(bytes: Seq<u8>) -> Seq<char>;

/// Whether `utf8_lossy` is known to decode `bytes` as they are, if they are valid UTF-8.
pub open spec fn is_decoded(bytes: Seq<u8>) -> bool {
    valid_utf8(bytes) ==> utf8_lossy(bytes) == decode_utf8(bytes)
}

/// Calls `String::from_utf8_lossy`, which decodes valid UTF-8 as it is, and puts the
/// replacement character where the bytes are not valid. Of invalid bytes the result is only
/// named.
#[verifier::external_body]
pub(crate) fn from_utf8_lossy(bytes: &[u8]) -> (s: String)
    ensures
        s@ == utf8_lossy(bytes@),
        valid_utf8(bytes@) ==> s@ == decode_utf8(bytes@),
{
    String::from_utf8_lossy(bytes).into_owned()
}

/// What `Debug` prints for a string: the string in quotes, with escapes.
pub uninterp spec fn debug_text(s: Seq<char>) -> Seq<char>;

/// Calls the `Debug` formatting of `str`, whose result is only named.
#[verifier::external_body]
pub(crate) fn to_debug(s: &str) -> (r: String)
    ensures
        r@ == debug_text(s@),
{
    format!("{s:?}")
}

/// Text splits at the first place of a character, and only there.
pub proof fn law_split_at_first(before: Seq<char>, x: char, after: Seq<char>)
    requires
        !before.contains(x),
    ensures
        split_at_first(before.push(x) + after, x) == Some((before, after)),
        split_at_first(before, x) is None,
{
    let s = before.push(x) + after;
    let n = before.len() as int;
    assert forall|i: int| 0 <= i < n implies s[i] != x && before[i] != x by {
        assert(before.contains(before[i]));
    }
    lemma_find_is(s, x, n);
    lemma_find_is(before, x, n);
    assert(s.take(n) =~= before);
    assert(s.skip(n + 1) =~= after);
}

/// White space is what Unicode lists as such: the five controls from the tab on, the blank, two
/// of Latin-1, and seventeen others.
pub proof fn law_white_space(c: char)
    ensures
        is_white_space(c) <==> {
            let n = c as u32;
            ||| n == 9 || n == 10 || n == 11 || n == 12 || n == 13
            ||| n == 32 || n == 133 || n == 160 || n == 5760
            ||| 8192 <= n <= 8202
            ||| n == 8232 || n == 8233 || n == 8239 || n == 8287 || n == 12288
        },
{
}

proof fn lemma_trim_start_all(before: Seq<char>, rest: Seq<char>)
    requires
        forall|i: int| 0 <= i < before.len() ==> is_white_space(before[i]),
    ensures
        trim_start(before + rest) == trim_start(rest),
    decreases before.len(),
{
    if before.len() > 0 {
        assert((before + rest).drop_first() =~= before.drop_first() + rest);
        lemma_trim_start_all(before.drop_first(), rest);
    } else {
        assert(before + rest =~= rest);
    }
}

proof fn lemma_trim_end_all(rest: Seq<char>, after: Seq<char>)
    requires
        forall|i: int| 0 <= i < after.len() ==> is_white_space(after[i]),
    ensures
        trim_end(rest + after) == trim_end(rest),
    decreases after.len(),
{
    if after.len() > 0 {
        assert((rest + after).drop_last() =~= rest + after.drop_last());
        lemma_trim_end_all(rest, after.drop_last());
    } else {
        assert(rest + after =~= rest);
    }
}

/// Trimming takes away white space on both sides, all of it and nothing else.
pub proof fn law_trimmed(before: Seq<char>, core: Seq<char>, after: Seq<char>)
    requires
        forall|i: int| 0 <= i < before.len() ==> is_white_space(before[i]),
        forall|i: int| 0 <= i < after.len() ==> is_white_space(after[i]),
        core.len() > 0 ==> !is_white_space(core[0]) && !is_white_space(core.last()),
    ensures
        trimmed(before + core + after) == core,
{
    assert(before + core + after =~= before + (core + after));
    lemma_trim_start_all(before, core + after);
    if core.len() > 0 {
        lemma_trim_end_all(core, after);
    } else {
        assert(core + after =~= after);
        assert(after + Seq::<char>::empty() =~= after);
        lemma_trim_start_all(after, Seq::empty());
        assert(trim_start(after) =~= core);
    }
}

/// A line ends at a line feed; a carriage return before that does not belong to it. What follows
/// the last line feed is a line if there is anything.
pub proof fn law_lines(line: Seq<char>, rest: Seq<char>)
    requires
        !line.contains('\n'),
    ensures
        line.len() == 0 || line.last() != '\r' ==> lines(line.push('\n') + rest) == seq![line]
            + lines(rest),
        lines(line.push('\r').push('\n') + rest) == seq![line] + lines(rest),
        lines(line) == if line.len() == 0 {
            Seq::empty()
        } else {
            seq![line]
        },
{
    assert forall|i: int| 0 <= i < line.len() implies line[i] != '\n' by {
        assert(line.contains(line[i]));
    }
    let n = line.len() as int;
    let a = line.push('\n') + rest;
    lemma_find_is(a, '\n', n);
    assert(a.take(n) =~= line);
    assert(a.skip(n + 1) =~= rest);
    let b = line.push('\r').push('\n') + rest;
    lemma_find_is(b, '\n', n + 1);
    assert(b.take(n + 1) =~= line.push('\r'));
    assert(b.skip(n + 2) =~= rest);
    assert(line.push('\r').drop_last() =~= line);
    lemma_find_is(line, '\n', n);
}

/// A number in decimal is its digits, the most significant first and never a zero.
pub proof fn law_decimal(n: nat, d: nat)
    requires
        d < 10,
    ensures
        decimal(d) == seq![('0' as u32 + d) as char],
        n > 0 ==> decimal(10 * n + d) == decimal(n).push(('0' as u32 + d) as char),
{
    assert(digit(d) == ('0' as u32 + d) as char);
    assert((10 * n + d) / 10 == n && (10 * n + d) % 10 == d);
}

/// Joining puts the separator between each two members, and nowhere else.
pub proof fn law_join(list: Seq<Seq<char>>, last: Seq<char>, separator: Seq<char>)
    ensures
        join(Seq::<Seq<char>>::empty(), separator) == Seq::<char>::empty(),
        join(seq![last], separator) == last,
        list.len() > 0 ==> join(list.push(last), separator) == join(list, separator) + separator
            + last,
{
    assert(list.push(last).drop_last() =~= list);
}

/// The bytes of two texts, one after the other.
pub proof fn lemma_encode_concat(a: Seq<char>, b: Seq<char>)
    ensures
        encode_utf8(a + b) == encode_utf8(a) + encode_utf8(b),
    decreases a.len(),
{
    if a.len() > 0 {
        lemma_encode_concat(a.drop_first(), b);
        assert((a + b).drop_first() =~= a.drop_first() + b);
        assert(encode_utf8(a + b) =~= encode_utf8(a) + encode_utf8(b));
    } else {
        assert(a + b =~= b);
        assert(encode_utf8(a) + encode_utf8(b) =~= encode_utf8(b));
    }
}

} // verus!
