//! Character-level text utilities shared by the manifest, version and schema logic.
//!
//! Text is modelled as `Seq<char>`, the view that vstd gives `str` and `String`.
use vstd::prelude::*;

verus! {

// ---------------------------------------------------------------------------
// Specifications
// ---------------------------------------------------------------------------

/// Unicode `White_Space`, the property that `char::is_whitespace` tests.
pub open spec fn is_ws(c: char) -> bool {
    let u = c as u32;
    ||| 0x9 <= u <= 0xd
    ||| u == 0x20
    ||| u == 0x85
    ||| u == 0xa0
    ||| u == 0x1680
    ||| 0x2000 <= u <= 0x200a
    ||| u == 0x2028
    ||| u == 0x2029
    ||| u == 0x202f
    ||| u == 0x205f
    ||| u == 0x3000
}

/// `s` with leading whitespace removed.
pub open spec fn trim_start(s: Seq<char>) -> Seq<char>
    decreases s.len(),
{
    if s.len() > 0 && is_ws(s[0]) {
        trim_start(s.drop_first())
    } else {
        s
    }
}

/// `s` with trailing whitespace removed.
pub open spec fn trim_end(s: Seq<char>) -> Seq<char>
    decreases s.len(),
{
    if s.len() > 0 && is_ws(s.last()) {
        trim_end(s.drop_last())
    } else {
        s
    }
}

/// `str::trim`: whitespace removed at both ends.
pub open spec fn trim(s: Seq<char>) -> Seq<char> {
    trim_end(trim_start(s))
}

/// Index of the first occurrence of `c` in `s`.
pub open spec fn find(s: Seq<char>, c: char) -> Option<nat>
    decreases s.len(),
{
    if s.len() == 0 {
        None
    } else if s[0] == c {
        Some(0)
    } else {
        match find(s.drop_first(), c) {
            Some(i) => Some(i + 1),
            None => None,
        }
    }
}

/// Length of the first line of `s`: the index of its first newline, or its length.
pub open spec fn line_end(s: Seq<char>) -> nat {
    match find(s, '\n') {
        Some(i) => i,
        None => s.len(),
    }
}

/// A line without the carriage return of a `\r\n` ending.
pub open spec fn strip_cr(l: Seq<char>) -> Seq<char> {
    if l.len() > 0 && l.last() == '\r' {
        l.drop_last()
    } else {
        l
    }
}

/// `str::lines`: split at `\n`, dropping one `\r` before each `\n`; a final
/// line ending does not start a new empty line.
pub open spec fn lines(s: Seq<char>) -> Seq<Seq<char>>
    decreases s.len(),
{
    if s.len() == 0 {
        seq![]
    } else {
        let e = line_end(s);
        if e < s.len() {
            seq![strip_cr(s.take(e as int))] + lines(s.skip(e + 1int))
        } else {
            seq![s]
        }
    }
}

/// The decimal digit `d` (`0 <= d < 10`).
pub open spec fn digit_char(d: nat) -> char {
    if d == 0 { '0' }
    else if d == 1 { '1' }
    else if d == 2 { '2' }
    else if d == 3 { '3' }
    else if d == 4 { '4' }
    else if d == 5 { '5' }
    else if d == 6 { '6' }
    else if d == 7 { '7' }
    else if d == 8 { '8' }
    else { '9' }
}

/// The decimal representation of `n`, as `Display` writes an unsigned integer.
pub open spec fn decimal(n: nat) -> Seq<char>
    decreases n,
{
    if n < 10 {
        seq![digit_char(n)]
    } else {
        decimal(n / 10).push(digit_char(n % 10))
    }
}

/// `n` written with at least `width` characters, padded on the left with spaces
/// (the `{:>width$}` format).
pub open spec fn pad_left(s: Seq<char>, width: nat) -> Seq<char> {
    if s.len() >= width {
        s
    } else {
        Seq::new((width - s.len()) as nat, |i: int| ' ') + s
    }
}

/// `str::split` on one character: the pieces between occurrences of `c`.
pub open spec fn split(s: Seq<char>, c: char) -> Seq<Seq<char>>
    decreases s.len(),
{
    match find(s, c) {
        Some(i) => if i < s.len() {
            seq![s.take(i as int)] + split(s.skip(i + 1int), c)
        } else {
            seq![s]
        },
        None => seq![s],
    }
}

/// The pieces of `ls` joined with `sep` between them.
pub open spec fn join(ls: Seq<Seq<char>>, sep: Seq<char>) -> Seq<char>
    decreases ls.len(),
{
    if ls.len() == 0 {
        seq![]
    } else if ls.len() == 1 {
        ls[0]
    } else {
        join(ls.drop_last(), sep) + sep + ls.last()
    }
}

pub open spec fn is_digit(c: char) -> bool {
    '0' <= c <= '9'
}

pub open spec fn digit_value(c: char) -> nat {
    (c as u32 - '0' as u32) as nat
}

pub open spec fn all_digits(s: Seq<char>) -> bool {
    forall|i: int| 0 <= i < s.len() ==> is_digit(#[trigger] s[i])
}

/// The number that a string of decimal digits denotes.
pub open spec fn digits_value(s: Seq<char>) -> nat
    decreases s.len(),
{
    if s.len() == 0 {
        0
    } else {
        digits_value(s.drop_last()) * 10 + digit_value(s.last())
    }
}

/// `u64::from_str`: an optional `+`, then at least one decimal digit, with a value
/// that fits in 64 bits.
pub open spec fn parse_u64(s: Seq<char>) -> Option<u64> {
    let digits = if s.len() > 0 && s[0] == '+' { s.drop_first() } else { s };
    if digits.len() == 0 || !all_digits(digits) || digits_value(digits) > u64::MAX {
        None
    } else {
        Some(digits_value(digits) as u64)
    }
}

// ---------------------------------------------------------------------------
// Lemmas
// ---------------------------------------------------------------------------

pub proof fn lemma_find_bounds(s: Seq<char>, c: char)
    ensures
        find(s, c) matches Some(i) ==> i < s.len() && s[i as int] == c && forall|j: int|
            0 <= j < i ==> s[j] != c,
        find(s, c) is None ==> forall|j: int| 0 <= j < s.len() ==> s[j] != c,
    decreases s.len(),
{
    if s.len() > 0 && s[0] != c {
        lemma_find_bounds(s.drop_first(), c);
        assert forall|j: int| 1 <= j < s.len() implies s[j] == s.drop_first()[j - 1] by {}
    }
}

/// `find` is characterised by its first match.
pub proof fn lemma_find_is(s: Seq<char>, c: char, k: int)
    requires
        0 <= k <= s.len(),
        forall|j: int| 0 <= j < k ==> s[j] != c,
        k < s.len() ==> s[k] == c,
    ensures
        find(s, c) == (if k < s.len() { Some(k as nat) } else { None::<nat> }),
    decreases s.len(),
{
    if s.len() > 0 && k > 0 {
        lemma_find_is(s.drop_first(), c, k - 1);
    }
}

pub proof fn lemma_trim_start_skip(s: Seq<char>, k: int)
    requires
        0 <= k <= s.len(),
        forall|j: int| 0 <= j < k ==> is_ws(s[j]),
    ensures
        trim_start(s) == trim_start(s.skip(k)),
    decreases k,
{
    if k > 0 {
        assert(is_ws(s[0]));
        assert(s.drop_first().skip(k - 1) =~= s.skip(k));
        assert forall|j: int| 0 <= j < k - 1 implies is_ws(#[trigger] s.drop_first()[j]) by {
            assert(s.drop_first()[j] == s[j + 1]);
        }
        lemma_trim_start_skip(s.drop_first(), k - 1);
    } else {
        assert(s.skip(k) =~= s);
    }
}

pub proof fn lemma_trim_end_take(s: Seq<char>, k: int)
    requires
        0 <= k <= s.len(),
        forall|j: int| k <= j < s.len() ==> is_ws(s[j]),
    ensures
        trim_end(s) == trim_end(s.take(k)),
    decreases s.len() - k,
{
    if k < s.len() {
        assert(s.drop_last().take(k) =~= s.take(k));
        lemma_trim_end_take(s.drop_last(), k);
    } else {
        assert(s.take(k) =~= s);
    }
}

pub proof fn lemma_digit_char(d: nat)
    requires
        d < 10,
    ensures
        is_digit(digit_char(d)),
        digit_value(digit_char(d)) == d,
{
}

pub proof fn lemma_decimal_digits(n: nat)
    ensures
        decimal(n).len() > 0,
        all_digits(decimal(n)),
        digits_value(decimal(n)) == n,
        decimal(n)[0] != '+',
    decreases n,
{
    lemma_digit_char((n % 10) as nat);
    if n < 10 {
        lemma_digit_char(n);
        assert(decimal(n).drop_last() =~= Seq::<char>::empty());
        assert(digits_value(Seq::<char>::empty()) == 0);
    } else {
        lemma_decimal_digits(n / 10);
        let d = decimal(n / 10);
        assert(decimal(n).drop_last() =~= d);
        assert(decimal(n).last() == digit_char(n % 10));
        assert(n == (n / 10) * 10 + n % 10);
        assert(digits_value(decimal(n)) == digits_value(d) * 10 + digit_value(digit_char(n % 10)));
        assert forall|i: int| 0 <= i < decimal(n).len() implies is_digit(#[trigger] decimal(n)[i]) by {
            if i < d.len() {
                assert(decimal(n)[i] == d[i]);
            }
        }
    }
}

pub proof fn lemma_parse_decimal(n: u64)
    ensures
        parse_u64(decimal(n as nat)) == Some(n),
{
    lemma_decimal_digits(n as nat);
}

// ---------------------------------------------------------------------------
// Executable functions
// ---------------------------------------------------------------------------

/// `String::push` of std: the contract claims that the characters of the
/// string after the call are those before it followed by `c`.
#[verifier::external_body]
pub(crate) fn push_char(s: &mut String, c: char)
    ensures
        final(s)@ == old(s)@.push(c),
{
    s.push(c);
}

/// The characters of a string slice, in order.
pub fn str_chars(s: &str) -> (v: Vec<char>)
    ensures
        v@ == s@,
{
    let mut v: Vec<char> = Vec::new();
    for c in it: s.chars()
        invariant
            v@ == it.seq().take(it.index() as int),
    {
        v.push(c);
    }
    v
}

/// The string made of the characters `s[from..to]`.
pub fn string_of(s: &[char], from: usize, to: usize) -> (r: String)
    requires
        from <= to <= s@.len(),
    ensures
        r@ == s@.subrange(from as int, to as int),
{
    let mut r = String::new();
    let mut i = from;
    while i < to
        invariant
            from <= i <= to <= s@.len(),
            r@ == s@.subrange(from as int, i as int),
        decreases to - i,
    {
        push_char(&mut r, s[i]);
        i = i + 1;
        assert(r@ =~= s@.subrange(from as int, i as int));
    }
    r
}

/// Appends the characters `s[from..to]` to `out`.
pub fn push_range(out: &mut String, s: &[char], from: usize, to: usize)
    requires
        from <= to <= s@.len(),
    ensures
        final(out)@ == old(out)@ + s@.subrange(from as int, to as int),
{
    let mut i = from;
    while i < to
        invariant
            from <= i <= to <= s@.len(),
            out@ == old(out)@ + s@.subrange(from as int, i as int),
        decreases to - i,
    {
        push_char(out, s[i]);
        i = i + 1;
        assert(out@ =~= old(out)@ + s@.subrange(from as int, i as int));
    }
}

/// Appends a string slice to `out`.
pub fn push_str(out: &mut String, s: &str)
    ensures
        final(out)@ == old(out)@ + s@,
{
    out.append(s);
}

/// `char::is_whitespace`.
pub fn is_whitespace(c: char) -> (b: bool)
    ensures
        b == is_ws(c),
{
    let u = c as u32;
    (0x9 <= u && u <= 0xd) || u == 0x20 || u == 0x85 || u == 0xa0 || u == 0x1680 || (0x2000
        <= u && u <= 0x200a) || u == 0x2028 || u == 0x2029 || u == 0x202f || u == 0x205f || u
        == 0x3000
}

/// The bounds of `trim(s[from..to])` inside `s`.
pub fn trim_bounds(s: &[char], from: usize, to: usize) -> (r: (usize, usize))
    requires
        from <= to <= s@.len(),
    ensures
        from <= r.0 <= r.1 <= to,
        s@.subrange(r.0 as int, r.1 as int) == trim(s@.subrange(from as int, to as int)),
{
    let ghost t = s@.subrange(from as int, to as int);
    let mut a = from;
    while a < to && is_whitespace(s[a])
        invariant
            from <= a <= to <= s@.len(),
            t == s@.subrange(from as int, to as int),
            forall|j: int| from <= j < a ==> is_ws(s@[j]),
        decreases to - a,
    {
        a = a + 1;
    }
    proof {
        lemma_trim_start_skip(t, a - from);
        assert(t.skip(a - from) =~= s@.subrange(a as int, to as int));
        let u = s@.subrange(a as int, to as int);
        if u.len() > 0 {
            assert(!is_ws(u[0]));
        }
        assert(trim_start(u) == u);
    }
    let mut b = to;
    while b > a && is_whitespace(s[b - 1])
        invariant
            from <= a <= b <= to <= s@.len(),
            forall|j: int| b <= j < to ==> is_ws(s@[j]),
        decreases b,
    {
        b = b - 1;
    }
    proof {
        let u = s@.subrange(a as int, to as int);
        lemma_trim_end_take(u, b - a);
        assert(u.take(b - a) =~= s@.subrange(a as int, b as int));
        let w = s@.subrange(a as int, b as int);
        if w.len() > 0 {
            assert(!is_ws(w.last()));
        }
    }
    (a, b)
}

/// The first index `i` in `from..to` with `s[i] == c`, or `to`.
pub fn find_from(s: &[char], c: char, from: usize, to: usize) -> (r: usize)
    requires
        from <= to <= s@.len(),
    ensures
        from <= r <= to,
        r < to ==> s@[r as int] == c,
        forall|j: int| from <= j < r ==> s@[j] != c,
{
    let mut i = from;
    while i < to && s[i] != c
        invariant
            from <= i <= to <= s@.len(),
            forall|j: int| from <= j < i ==> s@[j] != c,
        decreases to - i,
    {
        i = i + 1;
    }
    i
}

/// Whether `s[from..to]` equals `p`.
pub fn range_eq(s: &[char], from: usize, to: usize, p: &[char]) -> (b: bool)
    requires
        from <= to <= s@.len(),
    ensures
        b == (s@.subrange(from as int, to as int) == p@),
{
    if to - from != p.len() {
        return false;
    }
    let mut i: usize = 0;
    while i < p.len()
        invariant
            from <= to <= s@.len(),
            to - from == p@.len(),
            0 <= i <= p@.len(),
            forall|j: int| 0 <= j < i ==> s@[from + j] == p@[j],
        decreases p.len() - i,
    {
        if s[from + i] != p[i] {
            assert(s@.subrange(from as int, to as int)[i as int] != p@[i as int]);
            return false;
        }
        i = i + 1;
    }
    assert(s@.subrange(from as int, to as int) =~= p@);
    true
}

/// Whether `s[from..to]` starts with `p`.
pub fn range_starts_with(s: &[char], from: usize, to: usize, p: &[char]) -> (b: bool)
    requires
        from <= to <= s@.len(),
    ensures
        b == p@.is_prefix_of(s@.subrange(from as int, to as int)),
{
    if to - from < p.len() {
        return false;
    }
    let b = range_eq(s, from, from + p.len(), p);
    proof {
        assert(s@.subrange(from as int, to as int).take(p@.len() as int) =~= s@.subrange(
            from as int,
            from + p@.len(),
        ));
    }
    b
}

/// Whether two character sequences are equal.
pub fn chars_eq(a: &[char], b: &[char]) -> (r: bool)
    ensures
        r == (a@ == b@),
{
    let r = range_eq(a, 0, a.len(), b);
    proof {
        assert(a@.subrange(0, a@.len() as int) =~= a@);
    }
    r
}

/// Whether `list` holds `e`.
pub fn contains_chars(list: &Vec<Vec<char>>, e: &[char]) -> (b: bool)
    ensures
        b == list@.map_values(|v: Vec<char>| v@).contains(e@),
{
    let ghost lv = list@.map_values(|v: Vec<char>| v@);
    let mut i: usize = 0;
    while i < list.len()
        invariant
            i <= list@.len(),
            lv == list@.map_values(|v: Vec<char>| v@),
            forall|j: int| 0 <= j < i ==> lv[j] != e@,
        decreases list.len() - i,
    {
        if chars_eq(list[i].as_slice(), e) {
            assert(lv[i as int] == e@);
            return true;
        }
        i = i + 1;
    }
    false
}

/// Whether a string equals a string slice.
pub fn string_eq_str(a: &String, b: &str) -> (r: bool)
    ensures
        r == (a@ == b@),
{
    let av = str_chars(a.as_str());
    let bv = str_chars(b);
    chars_eq(av.as_slice(), bv.as_slice())
}

/// The lines of `s` (`str::lines`).
pub fn split_lines(s: &[char]) -> (r: Vec<Vec<char>>)
    ensures
        r@.len() == lines(s@).len(),
        forall|i: int| 0 <= i < r@.len() ==> #[trigger] r@[i]@ == lines(s@)[i],
{
    let mut r: Vec<Vec<char>> = Vec::new();
    let mut start: usize = 0;
    let n = s.len();
    let ghost mut done: Seq<Seq<char>> = seq![];
    assert(s@.skip(0) =~= s@);
    assert(done + lines(s@.skip(0)) =~= lines(s@));
    while start < n
        invariant
            n == s@.len(),
            start <= n,
            r@.len() == done.len(),
            forall|i: int| 0 <= i < r@.len() ==> #[trigger] r@[i]@ == done[i],
            lines(s@) == done + lines(s@.skip(start as int)),
        decreases n - start,
    {
        let e = find_from(s, '\n', start, n);
        let ghost t = s@.skip(start as int);
        proof {
            lemma_find_is(t, '\n', e - start);
        }
        let mut line_to = e;
        if e > start && s[e - 1] == '\r' && e < n {
            line_to = e - 1;
        }
        let mut line: Vec<char> = Vec::new();
        let mut i = start;
        while i < line_to
            invariant
                start <= i <= line_to <= n == s@.len(),
                line@ == s@.subrange(start as int, i as int),
            decreases line_to - i,
        {
            line.push(s[i]);
            i = i + 1;
            assert(line@ =~= s@.subrange(start as int, i as int));
        }
        proof {
            if e < n {
                assert(t.take(e - start) =~= s@.subrange(start as int, e as int));
                assert(t.skip(e - start + 1) =~= s@.skip(e + 1));
                assert(line@ =~= strip_cr(t.take(e - start)));
                assert(lines(t) == seq![line@] + lines(s@.skip(e + 1)));
            } else {
                assert(t =~= s@.subrange(start as int, n as int));
                assert(lines(t) == seq![line@]);
                assert(lines(s@.skip(n as int)) =~= seq![]) by {
                    assert(s@.skip(n as int).len() == 0);
                }
            }
            done = done.push(line@);
        }
        r.push(line);
        if e < n {
            start = e + 1;
            assert(lines(s@) == done + lines(s@.skip(start as int)));
        } else {
            start = n;
            assert(lines(s@) =~= done);
            assert(lines(s@.skip(start as int)) =~= seq![]) by {
                assert(s@.skip(start as int).len() == 0);
            }
        }
    }
    proof {
        assert(s@.skip(start as int).len() == 0);
        assert(done + lines(s@.skip(start as int)) =~= done);
    }
    r
}

/// The pieces of `s[from..to]` split at `c`, as index ranges into `s`.
pub fn split_ranges(s: &[char], from: usize, to: usize, c: char) -> (r: Vec<(usize, usize)>)
    requires
        from <= to <= s@.len(),
    ensures
        r@.len() == split(s@.subrange(from as int, to as int), c).len(),
        forall|i: int|
            0 <= i < r@.len() ==> from <= (#[trigger] r@[i]).0 <= r@[i].1 <= to && s@.subrange(
                r@[i].0 as int,
                r@[i].1 as int,
            ) == split(s@.subrange(from as int, to as int), c)[i],
{
    let ghost whole = s@.subrange(from as int, to as int);
    let mut r: Vec<(usize, usize)> = Vec::new();
    let mut start = from;
    let ghost mut done: Seq<Seq<char>> = seq![];
    assert(done + split(s@.subrange(start as int, to as int), c) =~= split(whole, c));
    loop
        invariant_except_break
            split(whole, c) == done + split(s@.subrange(start as int, to as int), c),
        invariant
            from <= start <= to <= s@.len(),
            whole == s@.subrange(from as int, to as int),
            r@.len() == done.len(),
            forall|i: int|
                0 <= i < r@.len() ==> from <= (#[trigger] r@[i]).0 <= r@[i].1 <= to
                    && s@.subrange(r@[i].0 as int, r@[i].1 as int) == done[i],
        ensures
            r@.len() == done.len(),
            forall|i: int|
                0 <= i < r@.len() ==> from <= (#[trigger] r@[i]).0 <= r@[i].1 <= to
                    && s@.subrange(r@[i].0 as int, r@[i].1 as int) == done[i],
            split(whole, c) == done,
        decreases to - start,
    {
        let e = find_from(s, c, start, to);
        let ghost t = s@.subrange(start as int, to as int);
        proof {
            lemma_find_is(t, c, e - start);
            assert(t.take(e - start) =~= s@.subrange(start as int, e as int));
            done = done.push(s@.subrange(start as int, e as int));
        }
        r.push((start, e));
        if e == to {
            proof {
                assert(t.take(e - start) =~= t);
                assert(split(t, c) == seq![t]);
                assert(split(whole, c) =~= done);
            }
            break;
        }
        proof {
            assert(t.skip(e - start + 1) =~= s@.subrange(e + 1, to as int));
            assert(split(whole, c) =~= done + split(s@.subrange(e + 1, to as int), c));
        }
        start = e + 1;
    }
    r
}

/// The character of the decimal digit `d`.
pub fn digit(d: u64) -> (c: char)
    requires
        d < 10,
    ensures
        c == digit_char(d as nat),
{
    if d == 0 { '0' }
    else if d == 1 { '1' }
    else if d == 2 { '2' }
    else if d == 3 { '3' }
    else if d == 4 { '4' }
    else if d == 5 { '5' }
    else if d == 6 { '6' }
    else if d == 7 { '7' }
    else if d == 8 { '8' }
    else { '9' }
}

/// The decimal representation of `n`.
pub fn decimal_chars(n: u128) -> (r: Vec<char>)
    ensures
        r@ == decimal(n as nat),
    decreases n,
{
    if n < 10 {
        let mut r = Vec::new();
        r.push(digit(n as u64));
        r
    } else {
        let mut r = decimal_chars(n / 10);
        r.push(digit((n % 10) as u64));
        r
    }
}

/// Appends the decimal representation of `n` to `out`.
pub fn push_decimal(out: &mut String, n: u128)
    ensures
        final(out)@ == old(out)@ + decimal(n as nat),
{
    let d = decimal_chars(n);
    push_range(out, d.as_slice(), 0, d.len());
    assert(d@.subrange(0, d@.len() as int) =~= d@);
}

/// Appends `s` padded on the left with spaces to `width` characters.
pub fn push_padded(out: &mut String, s: &[char], width: usize)
    ensures
        final(out)@ == old(out)@ + pad_left(s@, width as nat),
{
    let mut k: usize = 0;
    if s.len() < width {
        let pad = width - s.len();
        while k < pad
            invariant
                s@.len() < width,
                pad == width - s@.len(),
                k <= pad,
                out@ == old(out)@ + Seq::new(k as nat, |i: int| ' '),
            decreases pad - k,
        {
            push_char(out, ' ');
            k = k + 1;
            assert(out@ =~= old(out)@ + Seq::new(k as nat, |i: int| ' '));
        }
    }
    push_range(out, s, 0, s.len());
    assert(s@.subrange(0, s@.len() as int) =~= s@);
    assert(out@ =~= old(out)@ + pad_left(s@, width as nat));
}

/// `u64::from_str` on `s[from..to]`.
pub fn parse_u64_range(s: &[char], from: usize, to: usize) -> (r: Option<u64>)
    requires
        from <= to <= s@.len(),
    ensures
        r == parse_u64(s@.subrange(from as int, to as int)),
{
    let ghost t = s@.subrange(from as int, to as int);
    let mut i = from;
    if i < to && s[i] == '+' {
        i = i + 1;
    }
    let ghost digits = s@.subrange(i as int, to as int);
    proof {
        if t.len() > 0 && t[0] == '+' {
            assert(digits =~= t.drop_first());
        } else {
            assert(digits =~= t);
        }
    }
    if i == to {
        return None;
    }
    let start = i;
    let mut acc: u64 = 0;
    while i < to
        invariant
            from <= start <= i <= to <= s@.len(),
            start < to,
            t == s@.subrange(from as int, to as int),
            digits == s@.subrange(start as int, to as int),
            digits == (if t.len() > 0 && t[0] == '+' { t.drop_first() } else { t }),
            all_digits(s@.subrange(start as int, i as int)),
            acc == digits_value(s@.subrange(start as int, i as int)),
        decreases to - i,
    {
        let c = s[i];
        if !('0' <= c && c <= '9') {
            assert(digits[i - start] == c);
            assert(!is_digit(digits[i - start]));
            assert(!all_digits(digits));
            return None;
        }
        let d = (c as u32 - '0' as u32) as u64;
        let ghost prefix = s@.subrange(start as int, i as int);
        let ghost next = s@.subrange(start as int, i + 1);
        proof {
            assert(next.drop_last() =~= prefix);
            assert(next.last() == c);
            assert(digits_value(next) == acc * 10 + d);
        }
        if acc > (u64::MAX - d) / 10 {
            proof {
                assert(acc * 10 + d > u64::MAX) by (nonlinear_arith)
                    requires
                        acc > (u64::MAX - d) / 10,
                        d < 10,
                ;
                assert(digits.take((i + 1 - start) as int) =~= next);
                if all_digits(digits) {
                    lemma_digits_value_prefix_mono(digits, (i + 1 - start) as int);
                }
            }
            // Either a later character is not a digit, or the value overflows.
            return None;
        }
        acc = acc * 10 + d;
        i = i + 1;
        proof {
            assert forall|j: int| 0 <= j < next.len() implies is_digit(#[trigger] next[j]) by {
                if j < prefix.len() {
                    assert(next[j] == prefix[j]);
                }
            }
        }
    }
    proof {
        assert(s@.subrange(start as int, to as int) =~= digits);
    }
    Some(acc)
}

/// Taking a longer prefix of a digit string never decreases its value.
pub proof fn lemma_digits_value_prefix_mono(s: Seq<char>, k: int)
    requires
        0 <= k <= s.len(),
        all_digits(s),
    ensures
        digits_value(s) >= digits_value(s.take(k)),
    decreases s.len(),
{
    if k < s.len() {
        assert(s.drop_last().take(k) =~= s.take(k));
        assert(all_digits(s.drop_last())) by {
            assert forall|i: int| 0 <= i < s.drop_last().len() implies is_digit(
                #[trigger] s.drop_last()[i],
            ) by {
                assert(s.drop_last()[i] == s[i]);
            }
        }
        lemma_digits_value_prefix_mono(s.drop_last(), k);
    } else {
        assert(s.take(k) =~= s);
    }
}

} // verus!
