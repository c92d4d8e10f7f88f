//! A bumped manifest reads back as the version it was bumped to.
use crate::text::{find, is_ws, join, lines, line_end, strip_cr, trim, trim_end, trim_start};
use crate::version::{
    bumped, can_bump, lemma_find_concat, lemma_find_none, lemma_parsed_well_formed,
    lemma_version_string_parses, parse_semver, semver_well_formed, version_line,
    version_line_index, version_string, BumpType, SemVerV,
};
use vstd::prelude::*;

verus! {

/// Every character of `x` occurs in `s`.
pub open spec fn chars_within(x: Seq<char>, s: Seq<char>) -> bool {
    forall|k: int| 0 <= k < x.len() ==> s.contains(#[trigger] x[k])
}

/// A piece of `s` is made of characters of `s`.
proof fn lemma_within_subrange(s: Seq<char>, a: int, b: int)
    requires
        0 <= a <= b <= s.len(),
    ensures
        chars_within(s.subrange(a, b), s),
{
    assert forall|k: int| 0 <= k < b - a implies s.contains(#[trigger] s.subrange(a, b)[k]) by {
        assert(s.subrange(a, b)[k] == s[a + k]);
    }
}

/// `chars_within` is transitive.
proof fn lemma_within_trans(x: Seq<char>, y: Seq<char>, z: Seq<char>)
    requires
        chars_within(x, y),
        chars_within(y, z),
    ensures
        chars_within(x, z),
{
    assert forall|k: int| 0 <= k < x.len() implies z.contains(#[trigger] x[k]) by {
        assert(y.contains(x[k]));
        let j = choose|j: int| 0 <= j < y.len() && y[j] == x[k];
        assert(z.contains(y[j]));
    }
}

/// Trimming the start keeps characters of the text.
proof fn lemma_trim_start_within(s: Seq<char>)
    ensures
        chars_within(trim_start(s), s),
    decreases s.len(),
{
    if s.len() > 0 && is_ws(s[0]) {
        lemma_trim_start_within(s.drop_first());
        lemma_within_subrange(s, 1, s.len() as int);
        assert(s.drop_first() =~= s.subrange(1, s.len() as int));
        lemma_within_trans(trim_start(s.drop_first()), s.drop_first(), s);
    } else {
        lemma_within_subrange(s, 0, s.len() as int);
        assert(s =~= s.subrange(0, s.len() as int));
    }
}

/// Trimming the end keeps characters of the text.
proof fn lemma_trim_end_within(s: Seq<char>)
    ensures
        chars_within(trim_end(s), s),
    decreases s.len(),
{
    if s.len() > 0 && is_ws(s.last()) {
        lemma_trim_end_within(s.drop_last());
        lemma_within_subrange(s, 0, s.len() - 1);
        assert(s.drop_last() =~= s.subrange(0, s.len() - 1));
        lemma_within_trans(trim_end(s.drop_last()), s.drop_last(), s);
    } else {
        lemma_within_subrange(s, 0, s.len() as int);
        assert(s =~= s.subrange(0, s.len() as int));
    }
}

/// Trimming keeps characters of the text.
proof fn lemma_trim_within(s: Seq<char>)
    ensures
        chars_within(trim(s), s),
{
    lemma_trim_start_within(s);
    lemma_trim_end_within(trim_start(s));
    lemma_within_trans(trim(s), trim_start(s), s);
}

/// The build metadata of a parsed version is made of characters of its text.
proof fn lemma_build_within(input: Seq<char>)
    requires
        parse_semver(input) is Ok,
    ensures
        parse_semver(input)->Ok_0.build matches Some(b) ==> chars_within(b, input),
{
    let t = trim(input);
    let s = crate::version::strip_v(t);
    lemma_trim_within(input);
    if t.len() > 0 && t[0] == 'v' {
        lemma_within_subrange(t, 1, t.len() as int);
        assert(s =~= t.subrange(1, t.len() as int));
    } else {
        lemma_within_subrange(t, 0, t.len() as int);
        assert(s =~= t.subrange(0, t.len() as int));
    }
    lemma_within_trans(s, t, input);
    if let Some(i) = find(s, '+') {
        crate::text::lemma_find_bounds(s, '+');
        lemma_within_subrange(s, i + 1int, s.len() as int);
        assert(s.skip(i + 1int) =~= s.subrange(i + 1int, s.len() as int));
        lemma_within_trans(s.skip(i + 1int), s, input);
    }
}

/// `c` does not occur in `s`.
pub open spec fn avoids(s: Seq<char>, c: char) -> bool {
    forall|k: int| 0 <= k < s.len() ==> #[trigger] s[k] != c
}

/// A character missing from two texts is missing from both together.
pub(crate) proof fn lemma_avoids_concat(x: Seq<char>, y: Seq<char>, c: char)
    requires
        avoids(x, c),
        avoids(y, c),
    ensures
        avoids(x + y, c),
{
    assert forall|k: int| 0 <= k < (x + y).len() implies #[trigger] (x + y)[k] != c by {
        if k < x.len() {
            assert((x + y)[k] == x[k]);
        } else {
            assert((x + y)[k] == y[k - x.len()]);
        }
    }
}

/// Decimal numbers hold digits only.
pub(crate) proof fn lemma_decimal_avoids(n: nat, c: char)
    requires
        !crate::text::is_digit(c),
    ensures
        avoids(crate::text::decimal(n), c),
{
    crate::text::lemma_decimal_digits(n);
    assert forall|k: int| 0 <= k < crate::text::decimal(n).len() implies #[trigger] crate::text::decimal(n)[k] != c by {
        assert(crate::text::is_digit(crate::text::decimal(n)[k]));
    }
}

/// A character that is no digit, `.` or `+`, and that the build metadata
/// lacks, is not in the text of the bumped version.
proof fn lemma_bumped_avoids(v: SemVerV, bt: BumpType, c: char)
    requires
        !crate::text::is_digit(c),
        c != '.',
        c != '+',
        v.build matches Some(b) ==> avoids(b, c),
    ensures
        avoids(version_string(bumped(v, bt)), c),
{
    reveal_strlit(".");
    reveal_strlit("+");
    let nv = bumped(v, bt);
    lemma_decimal_avoids(nv.major as nat, c);
    lemma_decimal_avoids(nv.minor as nat, c);
    lemma_decimal_avoids(nv.patch as nat, c);
    let d1 = crate::text::decimal(nv.major as nat);
    let d2 = crate::text::decimal(nv.minor as nat);
    let d3 = crate::text::decimal(nv.patch as nat);
    assert(avoids("."@, c));
    lemma_avoids_concat(d1, "."@, c);
    lemma_avoids_concat(d1 + "."@, d2, c);
    lemma_avoids_concat(d1 + "."@ + d2, "."@, c);
    lemma_avoids_concat(d1 + "."@ + d2 + "."@, d3, c);
    let core = d1 + "."@ + d2 + "."@ + d3;
    if let Some(b) = nv.build {
        assert(avoids("+"@, c));
        lemma_avoids_concat(core, "+"@, c);
        lemma_avoids_concat(core + "+"@, b, c);
    }
}

/// A bump keeps a version well formed.
proof fn lemma_bumped_well_formed(v: SemVerV, bt: BumpType)
    requires
        semver_well_formed(v),
    ensures
        semver_well_formed(bumped(v, bt)),
{
    reveal_strlit("+");
    let nv = bumped(v, bt);
    crate::text::lemma_decimal_digits(nv.patch as nat);
    crate::text::lemma_decimal_digits(v.patch as nat);
    let d3 = crate::text::decimal(nv.patch as nat);
    assert(crate::text::is_digit(d3.last()));
    assert(crate::text::is_digit(crate::text::decimal(v.patch as nat).last()));
    match v.build {
        Some(b) => {
            if b.len() > 0 {
                assert(version_string(v).last() == b.last());
                assert(version_string(nv).last() == b.last());
            } else {
                assert(version_string(nv).last() == '+');
            }
        },
        None => {
            assert(version_string(nv).last() == d3.last());
        },
    }
}

/// A character missing from `s` is missing from text made of its characters.
proof fn lemma_within_avoids(x: Seq<char>, s: Seq<char>, c: char)
    requires
        chars_within(x, s),
        avoids(s, c),
    ensures
        avoids(x, c),
{
    assert forall|k: int| 0 <= k < x.len() implies #[trigger] x[k] != c by {
        assert(s.contains(x[k]));
    }
}

/// Leading whitespace stops at the last character of `p` when it is none.
proof fn lemma_trim_start_concat(p: Seq<char>, y: Seq<char>)
    requires
        p.len() > 0,
        !is_ws(p.last()),
    ensures
        trim_start(p + y) == trim_start(p) + y,
        trim_start(p).len() > 0,
        trim_start(p).last() == p.last(),
    decreases p.len(),
{
    if is_ws(p[0]) {
        assert((p + y).drop_first() =~= p.drop_first() + y);
        lemma_trim_start_concat(p.drop_first(), y);
    }
}

/// Trailing whitespace stops at the last character of `z` when it is none.
proof fn lemma_trim_end_keeps(z: Seq<char>, y: Seq<char>)
    requires
        z.len() > 0,
        !is_ws(z.last()),
    ensures
        z.is_prefix_of(trim_end(z + y)),
    decreases y.len(),
{
    if y.len() > 0 && is_ws(y.last()) {
        assert((z + y).drop_last() =~= z + y.drop_last());
        lemma_trim_end_keeps(z, y.drop_last());
    } else if y.len() == 0 {
        assert(z + y =~= z);
    } else {
        assert((z + y).take(z.len() as int) =~= z);
    }
}

/// `trim(p + y)` begins with `trim_start(p)` when `p` ends in a character that
/// is no whitespace.
proof fn lemma_trim_prefix(p: Seq<char>, y: Seq<char>)
    requires
        p.len() > 0,
        !is_ws(p.last()),
    ensures
        trim_start(p).len() > 0,
        trim_start(p).last() == p.last(),
        trim_start(p).is_prefix_of(trim(p + y)),
{
    lemma_trim_start_concat(p, y);
    lemma_trim_end_keeps(trim_start(p), y);
}

/// A trailing whitespace character does not change `trim`.
proof fn lemma_trim_drop_ws(s: Seq<char>)
    requires
        s.len() > 0,
        is_ws(s.last()),
    ensures
        trim(s) == trim(s.drop_last()),
    decreases s.len(),
{
    if is_ws(s[0]) {
        if s.len() == 1 {
            assert(s.drop_first() =~= Seq::<char>::empty());
            assert(s.drop_last() =~= Seq::<char>::empty());
        } else {
            lemma_trim_drop_ws(s.drop_first());
            assert(s.drop_first().drop_last() =~= s.drop_last().drop_first());
            assert(s.drop_last()[0] == s[0]);
        }
    } else {
        assert(s.len() >= 2);
        assert(s.drop_last()[0] == s[0]);
    }
}

/// The first quote of a line: its first `'`, or else its first `"`.
pub open spec fn first_quote(line: Seq<char>) -> Option<nat> {
    match find(line, '\'') {
        Some(i) => Some(i),
        None => find(line, '"'),
    }
}

/// Where the first quote of a line lies, and what comes before it.
proof fn lemma_first_quote_bounds(line: Seq<char>)
    ensures
        first_quote(line) matches Some(q) ==> q < line.len() && (line[q as int] == '\'' || line[
            q as int
        ] == '"'),
        first_quote(line) matches Some(q) ==> (line[q as int] == '"' ==> avoids(line, '\'')),
        first_quote(line) matches Some(q) ==> forall|j: int|
            0 <= j < q ==> line[j] != '\'' && (line[q as int] == '\'' || line[j] != '"'),
{
    crate::text::lemma_find_bounds(line, '\'');
    crate::text::lemma_find_bounds(line, '"');
}

/// Dropping a line's final `\r` does not change what it declares.
proof fn lemma_version_line_strip_cr(l: Seq<char>)
    ensures
        version_line(strip_cr(l)) == version_line(l),
{
    if l.len() > 0 && l.last() == '\r' {
        let m = l.drop_last();
        let r = seq!['\r'];
        assert(l =~= m + r);
        lemma_trim_drop_ws(l);
        lemma_find_none(r, '\'');
        lemma_find_none(r, '"');
        lemma_find_concat(m, r, '\'');
        lemma_find_concat(m, r, '"');
        assert(first_quote(l) == first_quote(m));
        lemma_first_quote_bounds(m);
        if let Some(q) = first_quote(m) {
            let qc = m[q as int];
            assert(l[q as int] == qc);
            assert(l.skip(q + 1int) =~= m.skip(q + 1int) + r);
            lemma_find_none(r, qc);
            lemma_find_concat(m.skip(q + 1int), r, qc);
            crate::text::lemma_find_bounds(m.skip(q + 1int), qc);
            if let Some(o) = find(m.skip(q + 1int), qc) {
                assert(l.subrange(q + 1int, (q + 1 + o) as int) =~= m.subrange(q + 1int, (q + 1 + o) as int));
            }
        }
    }
}

/// Writing the bumped version between the quotes of a version declaration
/// gives a line that declares the bumped version, with the same opening quote.
#[verifier::rlimit(60)]
proof fn lemma_rewritten_line(line: Seq<char>, q: nat, e: nat, v: SemVerV, bt: BumpType)
    requires
        version_line(line) == Ok::<Option<(nat, nat, SemVerV)>, crate::version::SemVerErr>(
            Some((q, e, v)),
        ),
        avoids(line, '\n'),
    ensures
        version_line(
            crate::version::replace_version(line, q, e, version_string(bumped(v, bt))),
        ) == Ok::<Option<(nat, nat, SemVerV)>, crate::version::SemVerErr>(
            Some((q, (q + 1 + version_string(bumped(v, bt)).len()) as nat, bumped(v, bt))),
        ),
        avoids(crate::version::replace_version(line, q, e, version_string(bumped(v, bt))), '\n'),
{
    reveal_strlit("version");
    reveal_strlit("--");
    let nv = bumped(v, bt);
    let x = version_string(nv);
    let nl = crate::version::replace_version(line, q, e, x);
    let t = trim(line);
    lemma_first_quote_bounds(line);
    assert(first_quote(line) == Some(q));
    let qc = line[q as int];
    let rest = line.skip(q + 1int);
    crate::text::lemma_find_bounds(rest, qc);
    let o = find(rest, qc)->0;
    assert(e == q + 1 + o);
    let old = line.subrange(q + 1int, e as int);
    assert(parse_semver(old) == Ok::<SemVerV, crate::version::SemVerErr>(v));
    assert(avoids(old, qc)) by {
        assert forall|k: int| 0 <= k < old.len() implies #[trigger] old[k] != qc by {
            assert(old[k] == rest[k]);
        }
    }
    assert(line[e as int] == qc) by {
        assert(rest[o as int] == qc);
    }
    // the new version text holds no quote that could end the declaration early
    lemma_build_within(old);
    lemma_within_subrange(line, q + 1int, e as int);
    if let Some(b) = v.build {
        lemma_within_avoids(b, old, qc);
        lemma_within_trans(b, old, line);
        lemma_within_avoids(b, line, '\n');
        if qc == '"' {
            lemma_within_avoids(b, line, '\'');
        }
    }
    lemma_bumped_avoids(v, bt, qc);
    lemma_bumped_avoids(v, bt, '\n');
    if qc == '"' {
        lemma_bumped_avoids(v, bt, '\'');
    }
    // and reads back as the bumped version
    lemma_parsed_well_formed(old);
    lemma_bumped_well_formed(v, bt);
    lemma_version_string_parses(nv);
    // the declaration's head is kept
    let p = line.take(q + 1int);
    let r = line.skip(e as int);
    assert(line =~= p + rest);
    assert(nl =~= p + (x + r));
    lemma_trim_prefix(p, rest);
    lemma_trim_prefix(p, x + r);
    let t0 = trim_start(p);
    let t2 = trim(nl);
    assert(t0 =~= t.take(t0.len() as int));
    assert(t0.len() >= 8) by {
        if t0.len() <= 7 {
            assert(t0.last() == t[t0.len() - 1]);
            assert(t[t0.len() - 1] == "version"@[t0.len() - 1]);
        }
    }
    assert(t0 =~= t2.take(t0.len() as int));
    assert(t.take(7) =~= t2.take(7)) by {
        assert forall|k: int| 0 <= k < 7 implies t.take(7)[k] == t2.take(7)[k] by {
            assert(t[k] == t0[k]);
            assert(t2[k] == t0[k]);
        }
    }
    assert(t.take(2) =~= t2.take(2)) by {
        assert forall|k: int| 0 <= k < 2 implies t.take(2)[k] == t2.take(2)[k] by {
            assert(t[k] == t0[k]);
            assert(t2[k] == t0[k]);
        }
    }
    assert(t[7] == t0[7] && t2[7] == t0[7]);
    // the opening quote stays where it was
    if qc == '\'' {
        crate::text::lemma_find_is(p, '\'', q as int);
        lemma_find_concat(p, x + r, '\'');
    } else {
        assert(avoids(p, '\'')) by {
            assert forall|k: int| 0 <= k < p.len() implies #[trigger] p[k] != '\'' by {
                assert(p[k] == line[k]);
            }
        }
        assert(avoids(r, '\'')) by {
            assert forall|k: int| 0 <= k < r.len() implies #[trigger] r[k] != '\'' by {
                assert(r[k] == line[e + k]);
            }
        }
        lemma_avoids_concat(x, r, '\'');
        lemma_avoids_concat(p, x + r, '\'');
        lemma_find_none(nl, '\'');
        crate::text::lemma_find_is(p, '"', q as int);
        lemma_find_concat(p, x + r, '"');
    }
    assert(nl[q as int] == qc);
    // and the closing quote follows the new version text
    assert(nl.skip(q + 1int) =~= x + r);
    lemma_find_none(x, qc);
    crate::text::lemma_find_is(r, qc, 0);
    lemma_find_concat(x, r, qc);
    assert(nl.subrange(q + 1int, (q + 1 + x.len()) as int) =~= x);
    // no line break appears
    assert(avoids(p, '\n')) by {
        assert forall|k: int| 0 <= k < p.len() implies #[trigger] p[k] != '\n' by {
            assert(p[k] == line[k]);
        }
    }
    assert(avoids(r, '\n')) by {
        assert forall|k: int| 0 <= k < r.len() implies #[trigger] r[k] != '\n' by {
            assert(r[k] == line[e + k]);
        }
    }
    lemma_avoids_concat(x, r, '\n');
    lemma_avoids_concat(p, x + r, '\n');
}

/// No line holds a line break; a text that does not end in one ends in a
/// non-empty line.
proof fn lemma_lines_shape(s: Seq<char>)
    ensures
        forall|j: int| 0 <= j < lines(s).len() ==> avoids(#[trigger] lines(s)[j], '\n'),
        s.len() > 0 ==> lines(s).len() > 0,
        s.len() > 0 && s.last() != '\n' ==> lines(s).last().len() > 0,
    decreases s.len(),
{
    if s.len() > 0 {
        crate::text::lemma_find_bounds(s, '\n');
        let e = line_end(s);
        if e < s.len() {
            let a = s.take(e as int);
            let rest = s.skip(e + 1int);
            lemma_lines_shape(rest);
            assert(avoids(strip_cr(a), '\n')) by {
                assert forall|k: int| 0 <= k < strip_cr(a).len() implies #[trigger] strip_cr(a)[k]
                    != '\n' by {
                    assert(strip_cr(a)[k] == s[k]);
                }
            }
            let ls = lines(s);
            assert(ls =~= seq![strip_cr(a)] + lines(rest));
            assert forall|j: int| 0 <= j < ls.len() implies avoids(#[trigger] ls[j], '\n') by {
                if j > 0 {
                    assert(ls[j] == lines(rest)[j - 1]);
                }
            }
            if s.last() != '\n' {
                assert(rest.len() > 0);
                assert(rest.last() == s.last());
            }
        } else {
            assert(avoids(s, '\n'));
        }
    }
}

/// The text before the first line break is the first line.
pub(crate) proof fn lemma_lines_cons(a: Seq<char>, b: Seq<char>)
    requires
        avoids(a, '\n'),
    ensures
        lines(a + seq!['\n'] + b) == seq![strip_cr(a)] + lines(b),
{
    let s = a + seq!['\n'] + b;
    lemma_find_none(a, '\n');
    crate::text::lemma_find_is(seq!['\n'] + b, '\n', 0);
    lemma_find_concat(a, seq!['\n'] + b, '\n');
    assert(a + (seq!['\n'] + b) =~= s);
    assert(s.take(a.len() as int) =~= a);
    assert(s.skip(a.len() + 1int) =~= b);
}

/// A text without line breaks is one line.
proof fn lemma_lines_single(a: Seq<char>)
    requires
        avoids(a, '\n'),
        a.len() > 0,
    ensures
        lines(a) == seq![a],
{
    lemma_find_none(a, '\n');
}

/// `join` seen from its first piece.
proof fn lemma_join_front(ls: Seq<Seq<char>>, sep: Seq<char>)
    requires
        ls.len() >= 2,
    ensures
        join(ls, sep) == ls[0] + sep + join(ls.drop_first(), sep),
    decreases ls.len(),
{
    if ls.len() == 2 {
        assert(ls.drop_last() =~= seq![ls[0]]);
        assert(ls.drop_first() =~= seq![ls[1]]);
        assert(join(ls.drop_last(), sep) == ls[0]);
        assert(join(ls.drop_first(), sep) == ls[1]);
    } else {
        let a = ls.drop_last();
        lemma_join_front(a, sep);
        assert(a.drop_first() =~= ls.drop_first().drop_last());
        assert(ls.drop_first().last() == ls.last());
        assert(join(ls.drop_first(), sep) == join(ls.drop_first().drop_last(), sep) + sep + ls.last());
        assert(join(ls, sep) == join(a, sep) + sep + ls.last());
        assert(join(ls, sep) =~= ls[0] + sep + join(ls.drop_first(), sep));
    }
}

/// The lines of joined lines: each is read back without a final `\r`, but for
/// the last one when no line break follows it.
pub open spec fn reread(ls: Seq<Seq<char>>, nl_end: bool) -> Seq<Seq<char>> {
    Seq::new(
        ls.len(),
        |j: int|
            if j + 1 < ls.len() || nl_end {
                strip_cr(ls[j])
            } else {
                ls[j]
            },
    )
}

/// The text of lines joined with line breaks, with a final one when `nl_end`.
pub open spec fn joined(ls: Seq<Seq<char>>, nl_end: bool) -> Seq<char> {
    if nl_end {
        join(ls, "\n"@).push('\n')
    } else {
        join(ls, "\n"@)
    }
}

/// Reading lines that were joined with line breaks.
proof fn lemma_lines_of_join(ls: Seq<Seq<char>>, nl_end: bool)
    requires
        ls.len() >= 1,
        forall|j: int| 0 <= j < ls.len() ==> avoids(#[trigger] ls[j], '\n'),
        !nl_end ==> ls.last().len() > 0,
    ensures
        lines(joined(ls, nl_end)) == reread(ls, nl_end),
    decreases ls.len(),
{
    reveal_strlit("\n");
    assert("\n"@ =~= seq!['\n']);
    if ls.len() == 1 {
        assert(join(ls, "\n"@) == ls[0]);
        if nl_end {
            lemma_lines_cons(ls[0], seq![]);
            assert(ls[0] + seq!['\n'] + Seq::<char>::empty() =~= ls[0].push('\n'));
            assert(lines(Seq::<char>::empty()) =~= Seq::<Seq<char>>::empty());
        } else {
            lemma_lines_single(ls[0]);
        }
        assert(lines(joined(ls, nl_end)) =~= reread(ls, nl_end));
    } else {
        let rest = ls.drop_first();
        lemma_join_front(ls, "\n"@);
        assert forall|j: int| 0 <= j < rest.len() implies avoids(#[trigger] rest[j], '\n') by {
            assert(rest[j] == ls[j + 1]);
        }
        lemma_lines_of_join(rest, nl_end);
        assert(joined(ls, nl_end) =~= ls[0] + seq!['\n'] + joined(rest, nl_end));
        lemma_lines_cons(ls[0], joined(rest, nl_end));
        assert(lines(joined(ls, nl_end)) =~= reread(ls, nl_end));
    }
}

/// The line that `version_line_index` finds declares a version, and the lines
/// before it declare none.
proof fn lemma_index_found(ls: Seq<Seq<char>>, k: nat, i: nat)
    requires
        version_line_index(ls, k) == Ok::<Option<nat>, crate::version::SemVerErr>(Some(i)),
    ensures
        k <= i < ls.len(),
        version_line(ls[i as int]) matches Ok(Some(_)),
        forall|j: int| k <= j < i ==> version_line(#[trigger] ls[j]) == Ok::<
            Option<(nat, nat, SemVerV)>,
            crate::version::SemVerErr,
        >(None),
    decreases ls.len() - k,
{
    if k < ls.len() {
        if version_line(ls[k as int]) == Ok::<Option<(nat, nat, SemVerV)>, crate::version::SemVerErr>(None) {
            lemma_index_found(ls, k + 1, i);
        }
    }
}

/// Lines that declare alike are searched alike.
proof fn lemma_index_same(a: Seq<Seq<char>>, b: Seq<Seq<char>>, k: nat)
    requires
        a.len() == b.len(),
        forall|j: int| 0 <= j < a.len() ==> version_line(#[trigger] a[j]) == version_line(b[j]),
    ensures
        version_line_index(a, k) == version_line_index(b, k),
    decreases a.len() - k,
{
    if k < a.len() {
        lemma_index_same(a, b, k + 1);
    }
}

/// The first line from `k` that declares a version is found.
proof fn lemma_index_of(ls: Seq<Seq<char>>, k: nat, i: nat)
    requires
        k <= i < ls.len(),
        version_line(ls[i as int]) matches Ok(Some(_)),
        forall|j: int| k <= j < i ==> version_line(#[trigger] ls[j]) == Ok::<
            Option<(nat, nat, SemVerV)>,
            crate::version::SemVerErr,
        >(None),
    ensures
        version_line_index(ls, k) == Ok::<Option<nat>, crate::version::SemVerErr>(Some(i)),
    decreases i - k,
{
    if k < i {
        lemma_index_of(ls, k + 1, i);
    }
}

/// Bumping the version of a manifest and reading the version of the result
/// gives the new version; the version read before the bump is the old one.
pub proof fn lemma_bump_reads_back(content: Seq<char>, bt: BumpType)
    requires
        crate::version::bumpable(content, bt),
        crate::version::updated_manifest(content, bt) is Ok,
    ensures
        crate::version::manifest_version_string(
            crate::version::updated_manifest(content, bt)->Ok_0.0,
        ) == Ok::<Seq<char>, crate::version::VersionErr>(
            crate::version::updated_manifest(content, bt)->Ok_0.2,
        ),
        crate::version::manifest_version_string(content) == Ok::<
            Seq<char>,
            crate::version::VersionErr,
        >(crate::version::updated_manifest(content, bt)->Ok_0.1),
{
    let ls = lines(content);
    let i = version_line_index(ls, 0)->Ok_0->0;
    lemma_index_found(ls, 0, i);
    let (q, e, v) = crate::version::line_version(ls[i as int]);
    assert(version_line(ls[i as int]) == Ok::<
        Option<(nat, nat, SemVerV)>,
        crate::version::SemVerErr,
    >(Some((q, e, v))));
    assert(crate::version::manifest_semver(content) == Ok::<
        SemVerV,
        crate::version::VersionErr,
    >(v));
    assert(can_bump(v, bt));
    let nv = bumped(v, bt);
    let x = version_string(nv);
    lemma_lines_shape(content);
    lemma_rewritten_line(ls[i as int], q, e, v, bt);
    let new_line = crate::version::replace_version(ls[i as int], q, e, x);
    let nl = ls.update(i as int, new_line);
    let nl_end = content.len() > 0 && content.last() == '\n';
    let text = crate::version::updated_manifest(content, bt)->Ok_0.0;
    assert(text == joined(nl, nl_end));
    assert forall|j: int| 0 <= j < nl.len() implies avoids(#[trigger] nl[j], '\n') by {
        if j != i {
            assert(nl[j] == ls[j]);
        }
    }
    assert(!nl_end ==> nl.last().len() > 0) by {
        if !nl_end {
            if i + 1 == nl.len() {
                lemma_first_quote_bounds(ls[i as int]);
                assert(first_quote(ls[i as int]) == Some(q));
                assert(new_line.len() > q);
            } else {
                assert(nl.last() == ls.last());
            }
        }
    }
    lemma_lines_of_join(nl, nl_end);
    let back = lines(text);
    assert forall|j: int| 0 <= j < back.len() implies version_line(#[trigger] back[j])
        == version_line(nl[j]) by {
        lemma_version_line_strip_cr(nl[j]);
    }
    lemma_index_same(back, nl, 0);
    assert forall|j: int| 0 <= j < i implies version_line(#[trigger] nl[j]) == Ok::<
        Option<(nat, nat, SemVerV)>,
        crate::version::SemVerErr,
    >(None) by {
        assert(nl[j] == ls[j]);
    }
    lemma_index_of(nl, 0, i);
    assert(version_line(back[i as int]) == version_line(nl[i as int]));
    assert(crate::version::manifest_semver(text) == Ok::<SemVerV, crate::version::VersionErr>(nv));
}

/// The index of the line whose version a bump rewrites.
pub open spec fn declaring_line(content: Seq<char>) -> int {
    version_line_index(lines(content), 0)->Ok_0->0 as int
}

/// Whether a line is read with a `\r` still at its end, which only happens
/// to a line that ends in two of them, or to a last line with no line break.
pub open spec fn ends_in_cr(l: Seq<char>) -> bool {
    l.len() > 0 && l.last() == '\r'
}

/// Bumping the version keeps the number of lines and every line but the
/// declaring one, when no line that a line break follows is read with a
/// final `\r` (such a `\r` is dropped when the text is read again).
pub proof fn lemma_bump_keeps_other_lines(content: Seq<char>, bt: BumpType)
    requires
        crate::version::bumpable(content, bt),
        crate::version::updated_manifest(content, bt) is Ok,
        forall|j: int|
            0 <= j < lines(content).len() && (j + 1 < lines(content).len() || (content.len() > 0
                && content.last() == '\n')) ==> !ends_in_cr(#[trigger] lines(content)[j]),
    ensures
        lines(crate::version::updated_manifest(content, bt)->Ok_0.0).len() == lines(content).len(),
        forall|j: int|
            0 <= j < lines(content).len() && j != declaring_line(content) ==> #[trigger] lines(
                crate::version::updated_manifest(content, bt)->Ok_0.0,
            )[j] == lines(content)[j],
{
    let ls = lines(content);
    let i = version_line_index(ls, 0)->Ok_0->0;
    lemma_index_found(ls, 0, i);
    let (q, e, v) = crate::version::line_version(ls[i as int]);
    assert(crate::version::manifest_semver(content) == Ok::<
        SemVerV,
        crate::version::VersionErr,
    >(v));
    lemma_lines_shape(content);
    lemma_rewritten_line(ls[i as int], q, e, v, bt);
    let x = version_string(bumped(v, bt));
    let new_line = crate::version::replace_version(ls[i as int], q, e, x);
    let nl = ls.update(i as int, new_line);
    let nl_end = content.len() > 0 && content.last() == '\n';
    let text = crate::version::updated_manifest(content, bt)->Ok_0.0;
    assert(text == joined(nl, nl_end));
    assert forall|j: int| 0 <= j < nl.len() implies avoids(#[trigger] nl[j], '\n') by {
        if j != i {
            assert(nl[j] == ls[j]);
        }
    }
    assert(!nl_end ==> nl.last().len() > 0) by {
        if !nl_end {
            if i + 1 == nl.len() {
                lemma_first_quote_bounds(ls[i as int]);
                assert(first_quote(ls[i as int]) == Some(q));
                assert(new_line.len() > q);
            } else {
                assert(nl.last() == ls.last());
            }
        }
    }
    lemma_lines_of_join(nl, nl_end);
    assert forall|j: int| 0 <= j < ls.len() && j != i implies #[trigger] lines(text)[j] == ls[j] by {
        assert(nl[j] == ls[j]);
        if j + 1 < ls.len() || nl_end {
            assert(!ends_in_cr(ls[j]));
        }
    }
}

/// A bump writes the new version between the same quotes of the declaring
/// line and nothing else there, keeps whether the text ends in a line break,
/// and the old and new versions are the text of the version read and of its
/// bump; lines that a line break follows are read back without a final `\r`.
pub proof fn lemma_bump_rewrites_declaration(content: Seq<char>, bt: BumpType)
    requires
        crate::version::bumpable(content, bt),
        crate::version::updated_manifest(content, bt) is Ok,
        forall|j: int|
            0 <= j < lines(content).len() && (j + 1 < lines(content).len() || (content.len() > 0
                && content.last() == '\n')) ==> !ends_in_cr(#[trigger] lines(content)[j]),
    ensures
        ({
            let (text, old_v, new_v) = crate::version::updated_manifest(content, bt)->Ok_0;
            let i = declaring_line(content);
            let line = lines(content)[i];
            let (q, e, v) = crate::version::line_version(line);
            &&& crate::version::manifest_semver(content) == Ok::<SemVerV, crate::version::VersionErr>(v)
            &&& old_v == version_string(v)
            &&& new_v == version_string(bumped(v, bt))
            &&& lines(text)[i] == crate::version::replace_version(line, q, e, new_v)
            &&& (text.len() > 0 && text.last() == '\n') == (content.len() > 0 && content.last()
                == '\n')
        }),
{
    let ls = lines(content);
    let i = version_line_index(ls, 0)->Ok_0->0;
    lemma_index_found(ls, 0, i);
    let (q, e, v) = crate::version::line_version(ls[i as int]);
    assert(crate::version::manifest_semver(content) == Ok::<
        SemVerV,
        crate::version::VersionErr,
    >(v));
    lemma_lines_shape(content);
    lemma_rewritten_line(ls[i as int], q, e, v, bt);
    let x = version_string(bumped(v, bt));
    let line = ls[i as int];
    let new_line = crate::version::replace_version(line, q, e, x);
    let nl = ls.update(i as int, new_line);
    let nl_end = content.len() > 0 && content.last() == '\n';
    let text = crate::version::updated_manifest(content, bt)->Ok_0.0;
    assert(text == joined(nl, nl_end));
    assert forall|j: int| 0 <= j < nl.len() implies avoids(#[trigger] nl[j], '\n') by {
        if j != i {
            assert(nl[j] == ls[j]);
        }
    }
    // the declaring line ends as it did, after its closing quote
    lemma_first_quote_bounds(line);
    assert(first_quote(line) == Some(q));
    crate::text::lemma_find_bounds(line.skip(q + 1int), line[q as int]);
    assert(e < line.len());
    assert(new_line.len() > 0 && new_line.last() == line.last());
    assert(!nl_end ==> nl.last().len() > 0) by {
        if !nl_end {
            if i + 1 != nl.len() {
                assert(nl.last() == ls.last());
            }
        }
    }
    lemma_lines_of_join(nl, nl_end);
    assert(nl[i as int] == new_line);
    if i + 1 < ls.len() || nl_end {
        assert(!ends_in_cr(line));
        assert(strip_cr(new_line) == new_line);
    }
    assert(lines(text)[i as int] == new_line);
    // the final line break
    if !nl_end {
        let last = nl.last();
        assert(last.len() > 0);
        if nl.len() == 1 {
            assert(join(nl, "\n"@) == nl[0]);
        } else {
            assert(join(nl, "\n"@) == join(nl.drop_last(), "\n"@) + "\n"@ + last);
        }
        assert(join(nl, "\n"@).last() == last.last());
        assert(last.last() != '\n');
    }
}

/// No line holds a character that the text lacks.
proof fn lemma_lines_avoid(s: Seq<char>, c: char)
    requires
        avoids(s, c),
    ensures
        forall|j: int| 0 <= j < lines(s).len() ==> avoids(#[trigger] lines(s)[j], c),
    decreases s.len(),
{
    if s.len() > 0 {
        crate::text::lemma_find_bounds(s, '\n');
        let e = line_end(s);
        if e < s.len() {
            let a = s.take(e as int);
            let rest = s.skip(e + 1int);
            assert(avoids(rest, c)) by {
                assert forall|k: int| 0 <= k < rest.len() implies #[trigger] rest[k] != c by {
                    assert(rest[k] == s[e + 1 + k]);
                }
            }
            lemma_lines_avoid(rest, c);
            assert(avoids(strip_cr(a), c)) by {
                assert forall|k: int| 0 <= k < strip_cr(a).len() implies #[trigger] strip_cr(a)[k]
                    != c by {
                    assert(strip_cr(a)[k] == s[k]);
                }
            }
            let ls = lines(s);
            assert(ls =~= seq![strip_cr(a)] + lines(rest));
            assert forall|j: int| 0 <= j < ls.len() implies avoids(#[trigger] ls[j], c) by {
                if j > 0 {
                    assert(ls[j] == lines(rest)[j - 1]);
                }
            }
        }
    }
}

/// The whole of a version bump on a manifest with no `\r`: the old version is
/// the version read, the new one is its bump; the result has as many lines,
/// every line but the declaring one is kept, the declaring line has only its
/// quoted version replaced, the result ends in a line break exactly when the
/// manifest does, and the result reads back the new version.
pub proof fn lemma_version_bump(content: Seq<char>, bt: BumpType)
    requires
        crate::version::bumpable(content, bt),
        crate::version::updated_manifest(content, bt) is Ok,
        avoids(content, '\r'),
    ensures
        ({
            let (text, old_v, new_v) = crate::version::updated_manifest(content, bt)->Ok_0;
            let i = declaring_line(content);
            let line = lines(content)[i];
            let (q, e, v) = crate::version::line_version(line);
            &&& crate::version::manifest_version_string(content) == Ok::<
                Seq<char>,
                crate::version::VersionErr,
            >(old_v)
            &&& new_v == version_string(bumped(v, bt))
            &&& crate::version::manifest_version_string(text) == Ok::<
                Seq<char>,
                crate::version::VersionErr,
            >(new_v)
            &&& lines(text).len() == lines(content).len()
            &&& forall|j: int|
                0 <= j < lines(content).len() && j != i ==> #[trigger] lines(text)[j] == lines(
                    content,
                )[j]
            &&& lines(text)[i] == crate::version::replace_version(line, q, e, new_v)
            &&& (text.len() > 0 && text.last() == '\n') == (content.len() > 0 && content.last()
                == '\n')
        }),
{
    lemma_lines_avoid(content, '\r');
    assert forall|j: int| 0 <= j < lines(content).len() implies !ends_in_cr(
        #[trigger] lines(content)[j],
    ) by {
        let l = lines(content)[j];
        if l.len() > 0 {
            assert(l[l.len() - 1] != '\r');
        }
    }
    lemma_bump_reads_back(content, bt);
    lemma_bump_keeps_other_lines(content, bt);
    lemma_bump_rewrites_declaration(content, bt);
}

} // verus!
