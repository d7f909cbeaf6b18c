//! Character-level building blocks: decoding text into characters and back,
//! trimming, searching, and decimal numerals.

use vstd::prelude::*;

verus! {

/// Whether `c` is white space: one of the 25 characters with the Unicode
/// property `White_Space`.
pub open spec fn is_whitespace(c: char) -> bool {
    let u = c as u32;
    ||| 0x09 <= u <= 0x0d
    ||| u == 0x20
    ||| u == 0x85
    ||| u == 0xa0
    ||| u == 0x1680
    ||| 0x2000 <= u <= 0x200a
    ||| u == 0x2028
    ||| u == 0x2029
    ||| u == 0x202f
    ||| u == 0x205f
    ||| u == 0x3000
}

/// Whether `c` is white space.
pub fn char_is_whitespace(c: char) -> (b: bool)
    ensures
        b == is_whitespace(c),
{
    let u = c as u32;
    (0x09 <= u && u <= 0x0d) || u == 0x20 || u == 0x85 || u == 0xa0 || u == 0x1680 || (0x2000 <= u
        && u <= 0x200a) || u == 0x2028 || u == 0x2029 || u == 0x202f || u == 0x205f || u == 0x3000
}

/// `String::push` appends one character to the end of the string.
pub assume_specification[ String::push ](s: &mut String, ch: char)
    ensures
        final(s)@ == old(s)@.push(ch),
;

/// The texts of a sequence of strings.
pub open spec fn texts(v: Seq<String>) -> Seq<Seq<char>> {
    Seq::new(v.len(), |i: int| v[i]@)
}

/// The characters of `s`, in order.
pub fn to_chars(s: &str) -> (v: Vec<char>)
    ensures
        v@ == s@,
{
    let mut v: Vec<char> = Vec::new();
    for c in it: s.chars()
        invariant
            it.seq() == s@,
            v@ == it.seq().take(it.index()),
    {
        v.push(c);
    }
    v
}

/// The text made of `chars[from..to]`.
pub fn to_text(chars: &Vec<char>, from: usize, to: usize) -> (s: String)
    requires
        from <= to <= chars@.len(),
    ensures
        s@ == chars@.subrange(from as int, to as int),
{
    let mut s = String::new();
    let mut i: usize = from;
    while i < to
        invariant
            from <= i <= to <= chars@.len(),
            s@ == chars@.subrange(from as int, i as int),
        decreases to - i,
    {
        s.push(chars[i]);
        i += 1;
    }
    s
}

/// The value of a decimal digit character, or -1 for any other character.
pub open spec fn digit_value(c: char) -> int {
    if c == '0' {
        0
    } else if c == '1' {
        1
    } else if c == '2' {
        2
    } else if c == '3' {
        3
    } else if c == '4' {
        4
    } else if c == '5' {
        5
    } else if c == '6' {
        6
    } else if c == '7' {
        7
    } else if c == '8' {
        8
    } else if c == '9' {
        9
    } else {
        -1
    }
}

/// The character that writes the digit `d`.
pub open spec fn digit_char(d: int) -> char {
    if d == 0 {
        '0'
    } else if d == 1 {
        '1'
    } else if d == 2 {
        '2'
    } else if d == 3 {
        '3'
    } else if d == 4 {
        '4'
    } else if d == 5 {
        '5'
    } else if d == 6 {
        '6'
    } else if d == 7 {
        '7'
    } else if d == 8 {
        '8'
    } else {
        '9'
    }
}

/// Whether `c` is one of the digits `0` to `9`.
pub open spec fn is_digit(c: char) -> bool {
    digit_value(c) >= 0
}

/// Whether `s` holds decimal digits only.
pub open spec fn all_digits(s: Seq<char>) -> bool {
    forall|i: int| 0 <= i < s.len() ==> is_digit(#[trigger] s[i])
}

/// The number that the digits of `s` write in base ten; 0 for the empty
/// sequence. Meaningful where `all_digits(s)`.
pub open spec fn decimal_value(s: Seq<char>) -> int
    decreases s.len(),
{
    if s.len() == 0 {
        0
    } else {
        decimal_value(s.drop_last()) * 10 + digit_value(s.last())
    }
}

/// The shortest base-ten numeral of `n`: no sign, no leading zero.
pub open spec fn decimal(n: nat) -> Seq<char>
    decreases n,
{
    if n < 10 {
        seq![digit_char(n as int)]
    } else {
        decimal(n / 10).push(digit_char((n % 10) as int))
    }
}

/// Reading a numeral back gives the number it was written from.
pub proof fn decimal_round_trip(n: nat)
    ensures
        all_digits(decimal(n)),
        decimal_value(decimal(n)) == n,
        decimal(n).len() >= 1,
        n >= 10 ==> decimal(n)[0] != '0',
        n < 10 <==> decimal(n).len() == 1,
        n < 100 <==> decimal(n).len() <= 2,
        n < 1000 <==> decimal(n).len() <= 3,
    decreases n,
{
    if n < 10 {
        assert(decimal(n).drop_last() =~= Seq::<char>::empty());
        assert(decimal_value(decimal(n).drop_last()) == 0);
    } else {
        decimal_round_trip(n / 10);
        let d = decimal(n / 10);
        assert(decimal(n).drop_last() =~= d);
        assert(decimal(n)[0] == d[0]);
        assert forall|i: int| 0 <= i < decimal(n).len() implies is_digit(
            #[trigger] decimal(n)[i],
        ) by {
            if i < d.len() {
                assert(decimal(n)[i] == d[i]);
            }
        }
    }
}

/// The digit `d` as a character.
pub fn digit_to_char(d: u8) -> (c: char)
    requires
        d < 10,
    ensures
        c == digit_char(d as int),
        digit_value(c) == d,
{
    if d == 0 {
        '0'
    } else if d == 1 {
        '1'
    } else if d == 2 {
        '2'
    } else if d == 3 {
        '3'
    } else if d == 4 {
        '4'
    } else if d == 5 {
        '5'
    } else if d == 6 {
        '6'
    } else if d == 7 {
        '7'
    } else if d == 8 {
        '8'
    } else {
        '9'
    }
}

/// The value of `c` where it is a decimal digit.
pub fn char_to_digit(c: char) -> (d: Option<u8>)
    ensures
        d is Some <==> is_digit(c),
        d matches Some(v) ==> v == digit_value(c) && v < 10,
{
    if c == '0' {
        Some(0)
    } else if c == '1' {
        Some(1)
    } else if c == '2' {
        Some(2)
    } else if c == '3' {
        Some(3)
    } else if c == '4' {
        Some(4)
    } else if c == '5' {
        Some(5)
    } else if c == '6' {
        Some(6)
    } else if c == '7' {
        Some(7)
    } else if c == '8' {
        Some(8)
    } else if c == '9' {
        Some(9)
    } else {
        None
    }
}

/// Appends the base-ten numeral of `n` to `out`.
pub fn push_decimal(out: &mut String, n: u64)
    ensures
        final(out)@ == old(out)@ + decimal(n as nat),
    decreases n,
{
    if n >= 10 {
        push_decimal(out, n / 10);
    }
    out.push(digit_to_char((n % 10) as u8));
    assert(out@ =~= old(out)@ + decimal(n as nat));
}

/// Appends the characters of `s` to `out`.
pub fn push_text(out: &mut String, s: &str)
    ensures
        final(out)@ == old(out)@ + s@,
{
    for c in it: s.chars()
        invariant
            it.seq() == s@,
            out@ == old(out)@ + it.seq().take(it.index()),
    {
        out.push(c);
    }
}

/// Reads `chars[from..to]` as a non-empty run of decimal digits and gives its
/// value, or `cap` where the value is larger than that.
pub fn read_decimal(chars: &Vec<char>, from: usize, to: usize, cap: u64) -> (r: Option<u64>)
    requires
        from <= to <= chars@.len(),
        cap <= 1_000_000_000_000,
    ensures
        r is Some <==> from < to && all_digits(chars@.subrange(from as int, to as int)),
        r matches Some(v) ==> {
            let value = decimal_value(chars@.subrange(from as int, to as int));
            v == if value <= cap { value } else { cap as int }
        },
{
    if from == to {
        return None;
    }
    let mut acc: u64 = 0;
    let mut i: usize = from;
    while i < to
        invariant
            from <= i <= to <= chars@.len(),
            cap <= 1_000_000_000_000,
            all_digits(chars@.subrange(from as int, i as int)),
            acc <= cap,
            0 <= decimal_value(chars@.subrange(from as int, i as int)),
            acc == if decimal_value(chars@.subrange(from as int, i as int)) <= cap {
                decimal_value(chars@.subrange(from as int, i as int))
            } else {
                cap as int
            },
        decreases to - i,
    {
        let ghost before = chars@.subrange(from as int, i as int);
        let ghost after = chars@.subrange(from as int, i + 1);
        proof {
            assert(after.drop_last() =~= before);
            assert(after.last() == chars@[i as int]);
        }
        match char_to_digit(chars[i]) {
            None => {
                proof {
                    let whole = chars@.subrange(from as int, to as int);
                    assert(whole[i - from] == chars@[i as int]);
                    assert(!is_digit(whole[i - from]));
                }
                return None;
            },
            Some(d) => {
                let next: u64 = acc * 10 + d as u64;
                acc = if next <= cap { next } else { cap };
                proof {
                    assert forall|k: int| 0 <= k < after.len() implies is_digit(
                        #[trigger] after[k],
                    ) by {
                        if k < before.len() {
                            assert(after[k] == before[k]);
                        }
                    }
                }
            },
        }
        i += 1;
    }
    Some(acc)
}


/// `s` without its leading white space.
pub open spec fn trim_start(s: Seq<char>) -> Seq<char>
    decreases s.len(),
{
    if s.len() > 0 && is_whitespace(s[0]) {
        trim_start(s.drop_first())
    } else {
        s
    }
}

/// `s` without its trailing white space.
pub open spec fn trim_end(s: Seq<char>) -> Seq<char>
    decreases s.len(),
{
    if s.len() > 0 && is_whitespace(s.last()) {
        trim_end(s.drop_last())
    } else {
        s
    }
}

/// `s` without its leading and trailing white space.
pub open spec fn trim(s: Seq<char>) -> Seq<char> {
    trim_end(trim_start(s))
}

/// The bounds, within `chars[from..to]`, of what is left after trimming.
pub fn trim_bounds(chars: &Vec<char>, from: usize, to: usize) -> (r: (usize, usize))
    requires
        from <= to <= chars@.len(),
    ensures
        from <= r.0 <= r.1 <= to,
        chars@.subrange(r.0 as int, r.1 as int) == trim(chars@.subrange(from as int, to as int)),
        forall|j: int| from <= j < r.0 || r.1 <= j < to ==> is_whitespace(#[trigger] chars@[j]),
        r.0 < r.1 ==> !is_whitespace(chars@[r.0 as int]) && !is_whitespace(chars@[r.1 - 1]),
{
    let mut a: usize = from;
    while a < to && char_is_whitespace(chars[a])
        invariant
            from <= a <= to <= chars@.len(),
            forall|j: int| from <= j < a ==> is_whitespace(#[trigger] chars@[j]),
            trim_start(chars@.subrange(from as int, to as int)) == trim_start(
                chars@.subrange(a as int, to as int),
            ),
        decreases to - a,
    {
        proof {
            let cur = chars@.subrange(a as int, to as int);
            assert(cur[0] == chars@[a as int]);
            assert(cur.drop_first() =~= chars@.subrange(a + 1, to as int));
        }
        a += 1;
    }
    proof {
        let cur = chars@.subrange(a as int, to as int);
        if a < to {
            assert(cur[0] == chars@[a as int]);
        }
        assert(trim_start(cur) == cur);
    }
    let mut b: usize = to;
    while b > a && char_is_whitespace(chars[b - 1])
        invariant
            a <= b <= to <= chars@.len(),
            a < to ==> !is_whitespace(chars@[a as int]),
            forall|j: int| b <= j < to ==> is_whitespace(#[trigger] chars@[j]),
            trim_end(chars@.subrange(a as int, to as int)) == trim_end(
                chars@.subrange(a as int, b as int),
            ),
        decreases b - a,
    {
        proof {
            let cur = chars@.subrange(a as int, b as int);
            assert(cur.last() == chars@[b - 1]);
            assert(cur.drop_last() =~= chars@.subrange(a as int, b - 1));
        }
        b -= 1;
    }
    proof {
        let cur = chars@.subrange(a as int, b as int);
        if b > a {
            assert(cur.last() == chars@[b - 1]);
        }
        assert(trim_end(cur) == cur);
    }
    (a, b)
}

/// The position of the first `c` in `s`, or the length of `s` where there is
/// none.
pub open spec fn index_of(s: Seq<char>, c: char) -> nat
    decreases s.len(),
{
    if s.len() == 0 || s[0] == c {
        0
    } else {
        1 + index_of(s.drop_first(), c)
    }
}

/// `index_of` is the least position that holds `c`.
pub proof fn index_of_is_first(s: Seq<char>, c: char)
    ensures
        index_of(s, c) <= s.len(),
        forall|j: int| 0 <= j < index_of(s, c) ==> s[j] != c,
        index_of(s, c) < s.len() ==> s[index_of(s, c) as int] == c,
        index_of(s, c) < s.len() <==> s.contains(c),
    decreases s.len(),
{
    if s.len() == 0 || s[0] == c {
        if s.len() > 0 {
            assert(s.contains(c));
        }
    } else {
        let rest = s.drop_first();
        index_of_is_first(rest, c);
        assert forall|j: int| 0 <= j < index_of(s, c) implies s[j] != c by {
            if j > 0 {
                assert(s[j] == rest[j - 1]);
            }
        }
        if index_of(rest, c) < rest.len() {
            assert(s[index_of(s, c) as int] == rest[index_of(rest, c) as int]);
            assert(s.contains(c));
        }
        if s.contains(c) {
            let j = choose|j: int| 0 <= j < s.len() && s[j] == c;
            assert(rest[j - 1] == c);
            assert(rest.contains(c));
        }
    }
}

/// The position of the first `c` in `chars[from..to]`, or `to` where there is
/// none.
pub fn find_char(chars: &Vec<char>, from: usize, to: usize, c: char) -> (i: usize)
    requires
        from <= to <= chars@.len(),
    ensures
        from <= i <= to,
        i - from == index_of(chars@.subrange(from as int, to as int), c),
        i < to <==> chars@.subrange(from as int, to as int).contains(c),
{
    let mut i: usize = from;
    while i < to && chars[i] != c
        invariant
            from <= i <= to <= chars@.len(),
            index_of(chars@.subrange(from as int, to as int), c) == (i - from) + index_of(
                chars@.subrange(i as int, to as int),
                c,
            ),
        decreases to - i,
    {
        proof {
            let cur = chars@.subrange(i as int, to as int);
            assert(cur[0] == chars@[i as int]);
            assert(cur.drop_first() =~= chars@.subrange(i + 1, to as int));
        }
        i += 1;
    }
    proof {
        let cur = chars@.subrange(i as int, to as int);
        if i < to {
            assert(cur[0] == chars@[i as int]);
        }
        assert(index_of(cur, c) == 0);
        index_of_is_first(chars@.subrange(from as int, to as int), c);
    }
    i
}

/// The pieces of `s` between occurrences of `sep`: one more piece than there
/// are separators, empty pieces included.
pub open spec fn split(s: Seq<char>, sep: char) -> Seq<Seq<char>>
    decreases s.len(),
{
    let i = index_of(s, sep) as int;
    if i >= s.len() {
        seq![s]
    } else {
        seq![s.take(i)] + split(s.skip(i + 1), sep)
    }
}


/// How `split` unfolds on a range of a longer sequence, where `d` is the
/// first separator of the range (or its end).
pub proof fn split_at_first(s: Seq<char>, from: int, to: int, d: int, sep: char)
    requires
        0 <= from <= d <= to <= s.len(),
        d - from == index_of(s.subrange(from, to), sep),
    ensures
        d < to ==> split(s.subrange(from, to), sep) == seq![s.subrange(from, d)] + split(
            s.subrange(d + 1, to),
            sep,
        ),
        d == to ==> split(s.subrange(from, to), sep) == seq![s.subrange(from, to)],
{
    let r = s.subrange(from, to);
    if d < to {
        assert(r.take(d - from) =~= s.subrange(from, d));
        assert(r.skip(d - from + 1) =~= s.subrange(d + 1, to));
    }
}

/// Splitting always yields at least one piece.
pub proof fn split_is_nonempty(s: Seq<char>, sep: char)
    ensures
        split(s, sep).len() >= 1,
    decreases s.len(),
{
    let i = index_of(s, sep) as int;
    if i < s.len() {
        split_is_nonempty(s.skip(i + 1), sep);
    }
}


/// A piece that holds no separator, followed by a separator, is the first
/// piece of the whole.
pub proof fn split_of_joined(head: Seq<char>, rest: Seq<char>, sep: char)
    requires
        !head.contains(sep),
    ensures
        split(head + seq![sep] + rest, sep) == seq![head] + split(rest, sep),
        split(head, sep) == seq![head],
{
    let whole = head + seq![sep] + rest;
    index_of_is_first(whole, sep);
    index_of_is_first(head, sep);
    let i = index_of(whole, sep) as int;
    assert(whole[head.len() as int] == sep);
    if i < head.len() {
        assert(whole[i] == head[i]);
        assert(head.contains(sep));
    }
    assert(i == head.len());
    assert(whole.take(i) =~= head);
    assert(whole.skip(i + 1) =~= rest);
}

} // verus!
