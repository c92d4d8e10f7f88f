//! Include patterns of a `.pack` file, archive sizes and the pack report.
use crate::text::{
    decimal, digit_char, find, find_from, join, lemma_find_is, lines, push_char, push_decimal, push_str,
    split, split_lines, split_ranges, str_chars, trim, trim_bounds, chars_eq,
};
use crate::readback::{avoids, lemma_avoids_concat, lemma_decimal_avoids, lemma_lines_cons};
use sha2::{Digest, Sha256};
use std::path::PathBuf;
use vstd::prelude::*;

verus! {

/// `std::path::PathBuf`, carried through as an opaque value.
#[verifier::external_type_specification]
#[verifier::external_body]
pub struct ExPathBuf(PathBuf);

/// A file selected for the archive.
#[derive(Debug)]
pub struct PackedEntry {
    /// The path inside the archive, `/`-separated and relative to the resource.
    pub relative_path: String,
    /// Where the file is read from.
    pub full_path: PathBuf,
    /// The file's size in bytes.
    pub size_bytes: u64,
}

// ---------------------------------------------------------------------------
// Include patterns
// ---------------------------------------------------------------------------

/// A line of a `.pack` file that holds a pattern: not blank and not a `#` comment.
pub open spec fn is_pattern_line(l: Seq<char>) -> bool {
    l.len() > 0 && l[0] != '#'
}

/// The patterns of a `.pack` file: its trimmed lines, without blank lines and comments.
pub open spec fn include_patterns(content: Seq<char>) -> Seq<Seq<char>> {
    lines(content).map_values(|l: Seq<char>| trim(l)).filter(|l: Seq<char>| is_pattern_line(l))
}

/// The texts of owned strings.
pub open spec fn owned_view(v: Seq<String>) -> Seq<Seq<char>> {
    v.map_values(|s: String| s@)
}

/// The include patterns of a `.pack` file, in order.
pub fn parse_include_patterns(content: &str) -> (r: Vec<String>)
    ensures
        owned_view(r@) == include_patterns(content@),
{
    let chars = str_chars(content);
    let ls = split_lines(chars.as_slice());
    let ghost tl = lines(content@).map_values(|l: Seq<char>| trim(l));
    let mut r: Vec<String> = Vec::new();
    let mut i: usize = 0;
    proof {
        reveal_with_fuel(Seq::<_>::filter, 1);
        assert(tl.take(0).filter(|l: Seq<char>| is_pattern_line(l)) =~= seq![]);
        assert(owned_view(r@) =~= seq![]);
    }
    while i < ls.len()
        invariant
            i <= ls@.len(),
            ls@.len() == lines(content@).len(),
            tl == lines(content@).map_values(|l: Seq<char>| trim(l)),
            forall|j: int| 0 <= j < ls@.len() ==> #[trigger] ls@[j]@ == lines(content@)[j],
            owned_view(r@) == tl.take(i as int).filter(|l: Seq<char>| is_pattern_line(l)),
        decreases ls.len() - i,
    {
        let line = ls[i].as_slice();
        let (a, b) = trim_bounds(line, 0, line.len());
        proof {
            assert(line@.subrange(0, line@.len() as int) =~= line@);
            assert(ls@[i as int]@ == lines(content@)[i as int]);
            assert(tl[i as int] == line@.subrange(a as int, b as int));
            assert(tl.take(i + 1).drop_last() =~= tl.take(i as int));
            reveal_with_fuel(Seq::<_>::filter, 1);
        }
        let ghost before = owned_view(r@);
        if a < b && line[a] != '#' {
            r.push(crate::text::string_of(line, a, b));
            proof {
                assert(owned_view(r@) =~= before.push(tl[i as int]));
            }
        }
        i = i + 1;
    }
    proof {
        assert(tl.take(i as int) =~= tl);
    }
    r
}

/// Whether a path segment matches a pattern segment: `*` matches anything; a
/// segment with a `*` matches when the text before its first `*` begins the
/// segment and the text after it ends it, without overlapping; any other
/// segment matches itself only.
pub open spec fn segment_matches_spec(pat: Seq<char>, s: Seq<char>) -> bool {
    if pat == seq!['*'] {
        true
    } else {
        match find(pat, '*') {
            None => pat == s,
            Some(i) => {
                let pre = pat.take(i as int);
                let post = pat.skip(i + 1int);
                pre.is_prefix_of(s) && post.is_suffix_of(s) && s.len() >= pre.len() + post.len()
            },
        }
    }
}

/// The segment `**`, which matches any number of path segments.
pub open spec fn is_globstar(seg: Seq<char>) -> bool {
    seg == seq!['*', '*']
}

/// Whether the path segments `path` match the pattern segments `pat`; `**`
/// matches any number of segments.
pub open spec fn components_match(pat: Seq<Seq<char>>, path: Seq<Seq<char>>) -> bool
    decreases pat.len(), path.len() + 2,
{
    if pat.len() == 0 {
        path.len() == 0
    } else if is_globstar(pat[0]) {
        if pat.len() == 1 {
            true
        } else {
            suffix_matches(pat.drop_first(), path, 0)
        }
    } else {
        path.len() > 0 && segment_matches_spec(pat[0], path[0]) && components_match(
            pat.drop_first(),
            path.drop_first(),
        )
    }
}

/// Whether `rest` matches the path with at least `i` leading segments dropped.
pub open spec fn suffix_matches(rest: Seq<Seq<char>>, path: Seq<Seq<char>>, i: nat) -> bool
    decreases rest.len() + 1, path.len() + 1 - i,
{
    if i > path.len() {
        false
    } else {
        components_match(rest, path.skip(i as int)) || suffix_matches(rest, path, i + 1)
    }
}

/// Whether a `/`-separated path matches a `/`-separated pattern.
pub open spec fn path_matches(path: Seq<char>, pattern: Seq<char>) -> bool {
    components_match(split(pattern, '/'), split(path, '/'))
}

/// Whether a path segment matches a pattern segment.
pub fn segment_matches(pat: &str, s: &str) -> (b: bool)
    ensures
        b == segment_matches_spec(pat@, s@),
{
    let p = str_chars(pat);
    let c = str_chars(s);
    segment_matches_chars(p.as_slice(), c.as_slice())
}

#[verifier::loop_isolation(false)]
fn segment_matches_chars(pat: &[char], s: &[char]) -> (b: bool)
    ensures
        b == segment_matches_spec(pat@, s@),
{
    if pat.len() == 1 && pat[0] == '*' {
        assert(pat@ =~= seq!['*']);
        return true;
    }
    proof {
        if pat@ == seq!['*'] {
            assert(pat@.len() == 1 && pat@[0] == '*');
        }
    }
    let n = pat.len();
    let star = find_from(pat, '*', 0, n);
    proof {
        lemma_find_is(pat@.subrange(0, n as int), '*', star as int);
        assert(pat@.subrange(0, n as int) =~= pat@);
    }
    if star == n {
        return chars_eq(pat, s);
    }
    let pre_len = star;
    let post_len = n - star - 1;
    if s.len() < pre_len + post_len {
        return false;
    }
    let mut i: usize = 0;
    while i < pre_len
        invariant
            i <= pre_len <= s@.len(),
            pre_len < pat@.len(),
            forall|j: int| 0 <= j < i ==> pat@[j] == s@[j],
        decreases pre_len - i,
    {
        if pat[i] != s[i] {
            proof {
                assert(pat@.take(pre_len as int)[i as int] != s@[i as int]);
            }
            return false;
        }
        i = i + 1;
    }
    let ghost post = pat@.skip(star + 1);
    let ghost tail = s@.skip(s@.len() - post_len);
    let mut k: usize = 0;
    while k < post_len
        invariant
            k <= post_len,
            star == pre_len,
            pre_len + post_len <= s@.len(),
            post_len == pat@.len() - pre_len - 1,
            post == pat@.skip(star + 1),
            tail == s@.skip(s@.len() - post_len),
            forall|j: int| 0 <= j < k ==> #[trigger] post[j] == tail[j],
        decreases post_len - k,
    {
        if pat[star + 1 + k] != s[s.len() - post_len + k] {
            proof {
                assert(post[k as int] != tail[k as int]);
            }
            return false;
        }
        k = k + 1;
    }
    proof {
        let pre = pat@.take(pre_len as int);
        assert(pre.is_prefix_of(s@)) by {
            assert(s@.take(pre_len as int) =~= pre);
        }
        assert(post.is_suffix_of(s@)) by {
            assert(tail =~= post);
        }
    }
    true
}

/// The texts of character vectors.
pub open spec fn pieces_view(v: Seq<Vec<char>>) -> Seq<Seq<char>> {
    v.map_values(|p: Vec<char>| p@)
}

/// The pieces of `s` split at `c`.
fn split_pieces(s: &[char], c: char) -> (r: Vec<Vec<char>>)
    ensures
        pieces_view(r@) == split(s@, c),
{
    let ranges = split_ranges(s, 0, s.len(), c);
    proof {
        assert(s@.subrange(0, s@.len() as int) =~= s@);
    }
    let mut r: Vec<Vec<char>> = Vec::new();
    let mut i: usize = 0;
    while i < ranges.len()
        invariant
            i <= ranges@.len(),
            ranges@.len() == split(s@, c).len(),
            forall|j: int|
                0 <= j < ranges@.len() ==> 0 <= (#[trigger] ranges@[j]).0 <= ranges@[j].1
                    <= s@.len() && s@.subrange(ranges@[j].0 as int, ranges@[j].1 as int) == split(
                    s@,
                    c,
                )[j],
            pieces_view(r@) == split(s@, c).take(i as int),
        decreases ranges.len() - i,
    {
        let (a, b) = ranges[i];
        let mut piece: Vec<char> = Vec::new();
        let mut k = a;
        while k < b
            invariant
                a <= k <= b <= s@.len(),
                piece@ == s@.subrange(a as int, k as int),
            decreases b - k,
        {
            piece.push(s[k]);
            k = k + 1;
            assert(piece@ =~= s@.subrange(a as int, k as int));
        }
        let ghost before = pieces_view(r@);
        r.push(piece);
        proof {
            assert(pieces_view(r@) =~= before.push(split(s@, c)[i as int]));
            assert(split(s@, c).take(i + 1) =~= split(s@, c).take(i as int).push(
                split(s@, c)[i as int],
            ));
        }
        i = i + 1;
    }
    proof {
        assert(split(s@, c).take(i as int) =~= split(s@, c));
    }
    r
}

/// Whether a pattern segment is `**`.
fn is_globstar_piece(p: &Vec<char>) -> (b: bool)
    ensures
        b == is_globstar(p@),
{
    if p.len() == 2 && p[0] == '*' && p[1] == '*' {
        assert(p@ =~= seq!['*', '*']);
        true
    } else {
        false
    }
}

/// `components_match` on the pattern pieces from `pi` and the path pieces from `qi`.
#[verifier::loop_isolation(false)]
fn match_components(pat: &Vec<Vec<char>>, pi: usize, path: &Vec<Vec<char>>, qi: usize) -> (b: bool)
    requires
        pi <= pat@.len(),
        qi <= path@.len(),
    ensures
        b == components_match(pieces_view(pat@).skip(pi as int), pieces_view(path@).skip(qi as int)),
    decreases pat@.len() - pi, path@.len() - qi + 2,
{
    let ghost pv = pieces_view(pat@).skip(pi as int);
    let ghost qv = pieces_view(path@).skip(qi as int);
    if pi == pat.len() {
        return qi == path.len();
    }
    proof {
        assert(pv[0] == pat@[pi as int]@);
        assert(pv.drop_first() =~= pieces_view(pat@).skip(pi + 1));
    }
    if is_globstar_piece(&pat[pi]) {
        if pi + 1 == pat.len() {
            return true;
        }
        let mut i = qi;
        loop
            invariant
                pi + 1 < pat@.len(),
                qi <= i <= path@.len(),
                pv == pieces_view(pat@).skip(pi as int),
                qv == pieces_view(path@).skip(qi as int),
                suffix_matches(pv.drop_first(), qv, 0) == suffix_matches(
                    pv.drop_first(),
                    qv,
                    (i - qi) as nat,
                ),
            decreases path@.len() - i,
        {
            proof {
                assert(qv.skip(i - qi) =~= pieces_view(path@).skip(i as int));
            }
            if match_components(pat, pi + 1, path, i) {
                return true;
            }
            if i == path.len() {
                proof {
                    assert(!suffix_matches(pv.drop_first(), qv, (i - qi + 1) as nat));
                }
                return false;
            }
            i = i + 1;
        }
    }
    if qi == path.len() {
        return false;
    }
    proof {
        assert(qv[0] == path@[qi as int]@);
        assert(qv.drop_first() =~= pieces_view(path@).skip(qi + 1));
    }
    segment_matches_chars(pat[pi].as_slice(), path[qi].as_slice()) && match_components(
        pat,
        pi + 1,
        path,
        qi + 1,
    )
}

/// Whether a `/`-separated path matches a pattern of `/`-separated segments,
/// where `*` matches within a segment and `**` matches any number of segments.
pub fn matches_pattern(path_str: &str, pattern: &str) -> (b: bool)
    ensures
        b == path_matches(path_str@, pattern@),
{
    let path_chars = str_chars(path_str);
    let pat_chars = str_chars(pattern);
    let path_parts = split_pieces(path_chars.as_slice(), '/');
    let pat_parts = split_pieces(pat_chars.as_slice(), '/');
    proof {
        assert(pieces_view(pat_parts@).skip(0) =~= pieces_view(pat_parts@));
        assert(pieces_view(path_parts@).skip(0) =~= pieces_view(path_parts@));
    }
    match_components(&pat_parts, 0, &path_parts, 0)
}

/// Whether a path text begins at the root.
pub open spec fn rooted(s: Seq<char>) -> bool {
    s.len() > 0 && s[0] == '/'
}

/// The component that piece `k` of a path (split at `/`) forms, as
/// `std::path::Path::components` reads a Unix path: the root `/` for the empty
/// piece before a leading separator; none for any other empty piece (repeated
/// or trailing separators) or for `.` after the first piece; the piece itself
/// otherwise (a leading `.` is the current directory).
pub open spec fn comp_at(pp: Seq<Seq<char>>, k: int, root: bool) -> Option<Seq<char>> {
    if k == 0 && root {
        Some(seq!['/'])
    } else if pp[k].len() == 0 {
        None
    } else if k > 0 && pp[k] == seq!['.'] {
        None
    } else {
        Some(pp[k])
    }
}

/// The components formed by the pieces from `k` on.
pub open spec fn comps_from(pp: Seq<Seq<char>>, k: int, root: bool) -> Seq<Seq<char>>
    decreases pp.len() - k,
{
    if k < 0 || k >= pp.len() {
        seq![]
    } else {
        match comp_at(pp, k, root) {
            Some(c) => seq![c] + comps_from(pp, k + 1, root),
            None => comps_from(pp, k + 1, root),
        }
    }
}

/// The components of a path.
pub open spec fn path_components(s: Seq<char>) -> Seq<Seq<char>> {
    comps_from(split(s, '/'), 0, rooted(s))
}

/// The piece at which the rest of a path begins once the components `bc` are
/// matched one by one from piece `k` on; `None` when they do not lead it.
pub open spec fn match_end(pp: Seq<Seq<char>>, k: int, root: bool, bc: Seq<Seq<char>>) -> Option<
    int,
>
    decreases pp.len() - k,
{
    if bc.len() == 0 {
        Some(k)
    } else if k < 0 || k >= pp.len() {
        None
    } else {
        match comp_at(pp, k, root) {
            None => match_end(pp, k + 1, root, bc),
            Some(c) => if c == bc[0] {
                match_end(pp, k + 1, root, bc.drop_first())
            } else {
                None
            },
        }
    }
}

/// A piece that forms no component in the body of a path: empty or `.`.
pub open spec fn skip_piece(p: Seq<char>) -> bool {
    p.len() == 0 || p == seq!['.']
}

/// The first piece from `k` on that is not skipped.
pub open spec fn first_kept(pp: Seq<Seq<char>>, k: int) -> int
    decreases pp.len() - k,
{
    if 0 <= k < pp.len() && skip_piece(pp[k]) {
        first_kept(pp, k + 1)
    } else {
        k
    }
}

/// The end of the pieces before `hi` once skipped pieces are dropped from the
/// end, not going below `lo`.
pub open spec fn last_kept(pp: Seq<Seq<char>>, lo: int, hi: int) -> int
    decreases hi,
{
    if hi > lo && hi > 0 && skip_piece(pp[hi - 1]) {
        last_kept(pp, lo, hi - 1)
    } else {
        hi
    }
}

/// `Path::strip_prefix` on a Unix path, as text: when the components of
/// `base` lead those of `path`, the rest of `path` after them, without
/// separators and `.` pieces at its end, nor at its start when `base` has a
/// component; `None` otherwise.
pub open spec fn strip_prefix_text(path: Seq<char>, base: Seq<char>) -> Option<Seq<char>> {
    let pp = split(path, '/');
    let root = rooted(path);
    let bc = path_components(base);
    match match_end(pp, 0, root, bc) {
        None => None,
        Some(j) => {
            let start = if bc.len() == 0 {
                j
            } else {
                first_kept(pp, j)
            };
            let lo = if start == 0 && (root || pp[0] == seq!['.']) {
                1int
            } else {
                start
            };
            let end = last_kept(pp, lo, pp.len() as int);
            if start == 0 && root && end == 1 {
                Some(seq!['/'])
            } else {
                Some(join(pp.subrange(start, end), seq!['/']))
            }
        },
    }
}

/// The path of `path` relative to the directory `base_dir`
/// (`path.strip_prefix(base_dir)`), or `path` itself when `base_dir` does not
/// lead it.
pub open spec fn relative_to(path: Seq<char>, base: Seq<char>) -> Seq<char> {
    match strip_prefix_text(path, base) {
        Some(t) => t,
        None => path,
    }
}

/// `\` replaced by `/`.
pub open spec fn forward_slashes(s: Seq<char>) -> Seq<char> {
    s.map_values(|c: char| if c == '\\' { '/' } else { c })
}

/// Whether a file is included: its path relative to the resource, with `/`
/// separators, matches one of the patterns.
pub open spec fn included(path: Seq<char>, base: Seq<char>, patterns: Seq<Seq<char>>) -> bool {
    exists|i: int|
        0 <= i < patterns.len() && path_matches(
            forward_slashes(relative_to(path, base)),
            #[trigger] patterns[i],
        )
}

/// A copy of `v`.
fn copy_chars(v: &[char]) -> (r: Vec<char>)
    ensures
        r@ == v@,
{
    let mut r: Vec<char> = Vec::new();
    let mut i: usize = 0;
    while i < v.len()
        invariant
            i <= v@.len(),
            r@ == v@.take(i as int),
        decreases v.len() - i,
    {
        r.push(v[i]);
        i = i + 1;
        assert(r@ =~= v@.take(i as int));
    }
    assert(v@.take(i as int) =~= v@);
    r
}

/// Whether a piece is `.`.
fn is_dot(p: &Vec<char>) -> (b: bool)
    ensures
        b == (p@ == seq!['.']),
{
    if p.len() == 1 && p[0] == '.' {
        assert(p@ =~= seq!['.']);
        true
    } else {
        false
    }
}

/// Whether a piece is skipped in the body of a path.
fn is_skip_piece(p: &Vec<char>) -> (b: bool)
    ensures
        b == skip_piece(p@),
{
    p.len() == 0 || is_dot(p)
}

/// The component of piece `k`.
fn comp_of(pp: &Vec<Vec<char>>, k: usize, root: bool) -> (r: Option<Vec<char>>)
    requires
        k < pp@.len(),
    ensures
        match r {
            Some(c) => comp_at(pieces_view(pp@), k as int, root) == Some(c@),
            None => comp_at(pieces_view(pp@), k as int, root) is None,
        },
{
    proof {
        assert(pieces_view(pp@)[k as int] == pp@[k as int]@);
    }
    if k == 0 && root {
        let mut v: Vec<char> = Vec::new();
        v.push('/');
        assert(v@ =~= seq!['/']);
        return Some(v);
    }
    if pp[k].len() == 0 {
        return None;
    }
    if k > 0 && is_dot(&pp[k]) {
        return None;
    }
    Some(copy_chars(pp[k].as_slice()))
}

/// Whether a path text begins at the root.
fn is_rooted(s: &[char]) -> (b: bool)
    ensures
        b == rooted(s@),
{
    s.len() > 0 && s[0] == '/'
}

/// The components of a path.
fn components_of(s: &[char]) -> (r: Vec<Vec<char>>)
    ensures
        pieces_view(r@) == path_components(s@),
{
    let pp = split_pieces(s, '/');
    let root = is_rooted(s);
    let ghost pv = pieces_view(pp@);
    let mut r: Vec<Vec<char>> = Vec::new();
    let mut k: usize = 0;
    while k < pp.len()
        invariant
            k <= pp@.len(),
            pv == pieces_view(pp@),
            pv == split(s@, '/'),
            root == rooted(s@),
            path_components(s@) == pieces_view(r@) + comps_from(pv, k as int, root),
        decreases pp.len() - k,
    {
        let ghost before = pieces_view(r@);
        match comp_of(&pp, k, root) {
            Some(c) => {
                r.push(c);
                proof {
                    assert(pieces_view(r@) =~= before.push(comp_at(pv, k as int, root)->0));
                    assert(before + comps_from(pv, k as int, root) =~= pieces_view(r@)
                        + comps_from(pv, k + 1, root));
                }
            },
            None => {},
        }
        k = k + 1;
    }
    proof {
        assert(pieces_view(r@) + comps_from(pv, k as int, root) =~= pieces_view(r@));
    }
    r
}

/// `match_end` from the first piece.
fn match_end_of(pp: &Vec<Vec<char>>, root: bool, bc: &Vec<Vec<char>>) -> (r: Option<usize>)
    ensures
        match r {
            Some(j) => match_end(pieces_view(pp@), 0, root, pieces_view(bc@)) == Some(j as int)
                && j <= pp@.len(),
            None => match_end(pieces_view(pp@), 0, root, pieces_view(bc@)) is None,
        },
{
    let ghost pv = pieces_view(pp@);
    let ghost bv = pieces_view(bc@);
    let mut k: usize = 0;
    let mut m: usize = 0;
    proof {
        assert(bv.skip(0) =~= bv);
    }
    while m < bc.len()
        invariant
            k <= pp@.len(),
            m <= bc@.len(),
            pv == pieces_view(pp@),
            bv == pieces_view(bc@),
            match_end(pv, 0, root, bv) == match_end(pv, k as int, root, bv.skip(m as int)),
        decreases pp.len() - k,
    {
        if k == pp.len() {
            return None;
        }
        proof {
            assert(bv.skip(m as int)[0] == bc@[m as int]@);
            assert(bv.skip(m as int).drop_first() =~= bv.skip(m + 1));
        }
        match comp_of(pp, k, root) {
            None => {},
            Some(c) => {
                if crate::text::chars_eq(c.as_slice(), bc[m].as_slice()) {
                    m = m + 1;
                } else {
                    return None;
                }
            },
        }
        k = k + 1;
    }
    proof {
        assert(bv.skip(m as int) =~= Seq::<Seq<char>>::empty());
    }
    Some(k)
}

/// `first_kept` from piece `k`.
fn first_kept_of(pp: &Vec<Vec<char>>, k: usize) -> (r: usize)
    requires
        k <= pp@.len(),
    ensures
        r == first_kept(pieces_view(pp@), k as int),
        k <= r <= pp@.len(),
{
    let ghost pv = pieces_view(pp@);
    let mut i = k;
    while i < pp.len() && is_skip_piece(&pp[i])
        invariant
            k <= i <= pp@.len(),
            pv == pieces_view(pp@),
            first_kept(pv, k as int) == first_kept(pv, i as int),
        decreases pp.len() - i,
    {
        assert(pv[i as int] == pp@[i as int]@);
        i = i + 1;
    }
    proof {
        if i < pp@.len() {
            assert(pv[i as int] == pp@[i as int]@);
        }
    }
    i
}

/// `last_kept` below `hi`, not going below `lo`.
fn last_kept_of(pp: &Vec<Vec<char>>, lo: usize, hi: usize) -> (r: usize)
    requires
        lo <= hi <= pp@.len(),
    ensures
        r == last_kept(pieces_view(pp@), lo as int, hi as int),
        lo <= r <= hi,
{
    let ghost pv = pieces_view(pp@);
    let mut i = hi;
    while i > lo && is_skip_piece(&pp[i - 1])
        invariant
            lo <= i <= hi,
            pv == pieces_view(pp@),
            hi <= pp@.len(),
            last_kept(pv, lo as int, hi as int) == last_kept(pv, lo as int, i as int),
        decreases i,
    {
        assert(pv[i - 1] == pp@[i - 1]@);
        i = i - 1;
    }
    proof {
        if i > lo {
            assert(pv[i - 1] == pp@[i - 1]@);
        }
    }
    i
}

/// Appends `s` with `\` replaced by `/`.
fn push_slashed(out: &mut String, s: &[char])
    ensures
        final(out)@ == old(out)@ + forward_slashes(s@),
{
    let mut i: usize = 0;
    while i < s.len()
        invariant
            i <= s@.len(),
            out@ == old(out)@ + forward_slashes(s@.take(i as int)),
        decreases s.len() - i,
    {
        let c = s[i];
        push_char(out, if c == '\\' { '/' } else { c });
        i = i + 1;
        assert(out@ =~= old(out)@ + forward_slashes(s@.take(i as int)));
    }
    assert(s@.take(i as int) =~= s@);
}

/// Appends the pieces `start..end` joined with `/`, with `\` replaced by `/`.
fn push_joined(out: &mut String, pp: &Vec<Vec<char>>, start: usize, end: usize)
    requires
        start <= end <= pp@.len(),
    ensures
        final(out)@ == old(out)@ + forward_slashes(
            join(pieces_view(pp@).subrange(start as int, end as int), seq!['/']),
        ),
{
    let ghost pv = pieces_view(pp@);
    let mut i = start;
    proof {
        assert(pv.subrange(start as int, start as int) =~= Seq::<Seq<char>>::empty());
        assert(old(out)@ + forward_slashes(Seq::<char>::empty()) =~= old(out)@);
    }
    while i < end
        invariant
            start <= i <= end <= pp@.len(),
            pv == pieces_view(pp@),
            out@ == old(out)@ + forward_slashes(join(pv.subrange(start as int, i as int), seq!['/'])),
        decreases end - i,
    {
        let ghost before = out@;
        let ghost prev = join(pv.subrange(start as int, i as int), seq!['/']);
        if i > start {
            push_char(out, '/');
        }
        push_slashed(out, pp[i].as_slice());
        proof {
            let sub = pv.subrange(start as int, i + 1);
            assert(sub.drop_last() =~= pv.subrange(start as int, i as int));
            assert(sub.last() == pp@[i as int]@);
            if i > start {
                assert(join(sub, seq!['/']) == prev + seq!['/'] + pp@[i as int]@);
                assert(forward_slashes(prev + seq!['/'] + pp@[i as int]@) =~= forward_slashes(prev)
                    + seq!['/'] + forward_slashes(pp@[i as int]@));
                assert(out@ =~= before + seq!['/'] + forward_slashes(pp@[i as int]@));
            } else {
                assert(sub =~= seq![pp@[i as int]@]);
                assert(join(sub, seq!['/']) == pp@[i as int]@);
                assert(before =~= old(out)@ + forward_slashes(prev));
                assert(prev =~= Seq::<char>::empty());
            }
        }
        i = i + 1;
    }
}

/// The archive path of a file: `path.strip_prefix(base_dir)` (or `path` when
/// `base_dir` does not lead it), with `\` replaced by `/`.
pub fn relative_path(path: &str, base_dir: &str) -> (r: String)
    ensures
        r@ == forward_slashes(relative_to(path@, base_dir@)),
{
    let p = str_chars(path);
    let b = str_chars(base_dir);
    let pp = split_pieces(p.as_slice(), '/');
    let root = is_rooted(p.as_slice());
    let bc = components_of(b.as_slice());
    let ghost pv = pieces_view(pp@);
    proof {
        assert(pv.len() > 0);
    }
    let mut r = String::new();
    match match_end_of(&pp, root, &bc) {
        None => {
            push_slashed(&mut r, p.as_slice());
        },
        Some(j) => {
            let start = if bc.len() == 0 {
                j
            } else {
                first_kept_of(&pp, j)
            };
            proof {
                assert(pv[0] == pp@[0]@);
            }
            let lo = if start == 0 && (root || is_dot(&pp[0])) {
                1
            } else {
                start
            };
            let end = last_kept_of(&pp, lo, pp.len());
            if start == 0 && root && end == 1 {
                push_char(&mut r, '/');
                proof {
                    assert(forward_slashes(seq!['/']) =~= seq!['/']);
                    assert(r@ =~= seq!['/']);
                }
            } else {
                push_joined(&mut r, &pp, start, end);
            }
        },
    }
    r
}

/// Whether the file at `path` goes into the archive of the resource in
/// `base_dir`: its relative path matches one of the patterns.
pub fn should_include(path: &str, base_dir: &str, patterns: &[String]) -> (b: bool)
    ensures
        b == included(path@, base_dir@, owned_view(patterns@)),
{
    let relative = relative_path(path, base_dir);
    let mut i: usize = 0;
    while i < patterns.len()
        invariant
            i <= patterns@.len(),
            relative@ == forward_slashes(relative_to(path@, base_dir@)),
            forall|j: int|
                0 <= j < i ==> !path_matches(relative@, #[trigger] owned_view(patterns@)[j]),
        decreases patterns.len() - i,
    {
        proof {
            assert(owned_view(patterns@)[i as int] == patterns@[i as int]@);
        }
        if matches_pattern(relative.as_str(), patterns[i].as_str()) {
            return true;
        }
        i = i + 1;
    }
    false
}

// ---------------------------------------------------------------------------
// Sizes
// ---------------------------------------------------------------------------

pub const KB: u64 = 1024;

pub const MB: u64 = 1048576;

pub const GB: u64 = 1073741824;

/// 2^53: below it every integer is exactly an `f64`.
pub const F64_EXACT: u128 = 0x20_0000_0000_0000;

/// `n / d` rounded to the nearest integer, ties to the even one.
pub open spec fn round_half_even(n: nat, d: nat) -> nat
    recommends
        d > 0,
{
    let q = n / d;
    let r = n % d;
    if 2 * r > d || (2 * r == d && q % 2 == 1) {
        q + 1
    } else {
        q
    }
}

/// The spacing of the `f64` values next to `b`: the least power of two `u`
/// (from `u` on) with `b < 2^53 * u`.
pub open spec fn ulp_from(b: nat, u: nat) -> nat
    decreases b - u,
{
    if u == 0 || b < F64_EXACT * u {
        u
    } else {
        ulp_from(b, 2 * u)
    }
}

/// `b as f64`: `b` rounded to the nearest `f64`, ties to an even mantissa.
pub open spec fn f64_of(b: nat) -> nat {
    let u = ulp_from(b, 1);
    round_half_even(b, u) * u
}

/// `q / 10^places` written with `places` decimals (one or two).
pub open spec fn fixed(q: nat, places: nat) -> Seq<char> {
    if places == 1 {
        decimal(q / 10) + seq!['.', digit_char(q % 10)]
    } else {
        decimal(q / 100) + seq!['.', digit_char((q / 10) % 10), digit_char(q % 10)]
    }
}

/// How `format_size` writes a number of bytes: below 1 KiB in bytes, then in
/// KB with one decimal, in MB and in GB with two, each rounded from the `f64`
/// quotient to the nearest, ties to even.
pub open spec fn size_text(bytes: nat) -> Seq<char> {
    if bytes >= GB {
        fixed(round_half_even(f64_of(bytes) * 100, GB as nat), 2) + " GB"@
    } else if bytes >= MB {
        fixed(round_half_even(bytes * 100, MB as nat), 2) + " MB"@
    } else if bytes >= KB {
        fixed(round_half_even(bytes * 10, KB as nat), 1) + " KB"@
    } else {
        decimal(bytes) + " B"@
    }
}

/// `n / d` rounded to the nearest integer, ties to even.
fn round_half_even_u128(n: u128, d: u128) -> (q: u128)
    requires
        0 < d <= u64::MAX,
        n < 0x8000_0000_0000_0000_0000_0000_0000_0000,
    ensures
        q == round_half_even(n as nat, d as nat),
{
    let q = n / d;
    let r = n % d;
    if 2 * r > d || (2 * r == d && q % 2 == 1) {
        q + 1
    } else {
        q
    }
}

/// The value of `b as f64`, computed on integers.
fn nearest_f64(b: u64) -> (m: u128)
    ensures
        m == f64_of(b as nat),
        m <= 0x1_0000_0000_0000_1000,
{
    let mut u: u128 = 1;
    while b as u128 >= F64_EXACT * u
        invariant
            0 < u <= 0x1000,
            ulp_from(b as nat, u as nat) == ulp_from(b as nat, 1),
        decreases b - u,
    {
        u = 2 * u;
    }
    let q = round_half_even_u128(b as u128, u);
    proof {
        assert(q <= b as nat / u as nat + 1);
        assert(b as nat / u as nat * u <= b) by (nonlinear_arith)
            requires u > 0;
        assert(q * u <= b + u) by (nonlinear_arith)
            requires q <= b as nat / u as nat + 1, b as nat / u as nat * u <= b, u > 0;
    }
    q * u
}

/// Appends `q / 10^places` with `places` decimals.
fn push_fixed(out: &mut String, q: u128, places: u64)
    requires
        places == 1 || places == 2,
    ensures
        final(out)@ == old(out)@ + fixed(q as nat, places as nat),
{
    if places == 1 {
        push_decimal(out, q / 10);
        push_char(out, '.');
        push_char(out, crate::text::digit((q % 10) as u64));
    } else {
        push_decimal(out, q / 100);
        push_char(out, '.');
        push_char(out, crate::text::digit(((q / 10) % 10) as u64));
        push_char(out, crate::text::digit((q % 10) as u64));
    }
}

/// A byte count written for people: `500 B`, `1.5 KB`, `1.00 MB`, `1.00 GB`.
pub fn format_size(bytes: u64) -> (r: String)
    ensures
        r@ == size_text(bytes as nat),
{
    let mut out = String::new();
    if bytes >= GB {
        let m = nearest_f64(bytes);
        let q = round_half_even_u128(m * 100, GB as u128);
        push_fixed(&mut out, q, 2);
        push_str(&mut out, " GB");
    } else if bytes >= MB {
        let q = round_half_even_u128(bytes as u128 * 100, MB as u128);
        push_fixed(&mut out, q, 2);
        push_str(&mut out, " MB");
    } else if bytes >= KB {
        let q = round_half_even_u128(bytes as u128 * 10, KB as u128);
        push_fixed(&mut out, q, 1);
        push_str(&mut out, " KB");
    } else {
        push_decimal(&mut out, bytes as u128);
        push_str(&mut out, " B");
    }
    assert(out@ =~= size_text(bytes as nat));
    out
}

// ---------------------------------------------------------------------------
// Report
// ---------------------------------------------------------------------------

/// The text of an optional string slice.
pub open spec fn opt_chars(o: Option<&str>) -> Option<Seq<char>> {
    match o {
        Some(h) => Some(h@),
        None => None,
    }
}

/// The lines of `ls`, each followed by a line break.
pub open spec fn unlines(ls: Seq<Seq<char>>) -> Seq<char>
    decreases ls.len(),
{
    if ls.len() == 0 {
        seq![]
    } else {
        unlines(ls.drop_last()) + ls.last() + seq!['\n']
    }
}

/// A line that `str::lines` gives back as it is: it holds no line break and
/// does not end in a carriage return.
pub open spec fn plain_line(l: Seq<char>) -> bool {
    avoids(l, '\n') && !(l.len() > 0 && l.last() == '\r')
}

/// The table row of one packed file, without its line break.
pub open spec fn entry_line(e: PackedEntry) -> Seq<char> {
    "| `"@ + e.relative_path@ + "` | "@ + size_text(e.size_bytes as nat) + " |"@
}

/// The status line's value.
pub open spec fn status_text(dry_run: bool) -> Seq<char> {
    if dry_run {
        "Dry Run (Simulated)"@
    } else {
        "Complete"@
    }
}

/// The first lines of the pack report: the title, the status, the archive,
/// the number of files, the total size in words and in bytes, and the
/// elapsed time.
pub open spec fn summary_lines(
    name: Seq<char>,
    zip: Seq<char>,
    count: nat,
    total: nat,
    elapsed: nat,
    dry_run: bool,
) -> Seq<Seq<char>> {
    seq![
        "# Pack Report: "@ + name,
        seq![],
        "- **Status:** "@ + status_text(dry_run),
        "- **Archive Output:** `"@ + zip + "`"@,
        "- **Files Packed:** "@ + decimal(count),
        "- **Total Size:** "@ + size_text(total) + " ("@ + decimal(total) + " bytes)"@,
        "- **Elapsed Time:** "@ + decimal(elapsed) + "ms"@,
    ]
}

/// The checksum line, when there is a checksum.
pub open spec fn checksum_lines(checksum: Option<Seq<char>>) -> Seq<Seq<char>> {
    match checksum {
        Some(h) => seq!["- **SHA256:** `"@ + h + "`"@],
        None => seq![],
    }
}

/// The head of the table of packed files.
pub open spec fn table_head_lines() -> Seq<Seq<char>> {
    seq![seq![], "### Included Files"@, seq![], "| File | Size |"@, "| :--- | :--- |"@]
}

/// One table row per packed file, in order.
pub open spec fn entry_lines(entries: Seq<PackedEntry>) -> Seq<Seq<char>> {
    Seq::new(entries.len(), |k: int| entry_line(entries[k]))
}

/// The lines of the pack report: its summary, the checksum line when there
/// is a checksum, the head of the table, and one row per packed file.
pub open spec fn report_lines(
    name: Seq<char>,
    zip: Seq<char>,
    entries: Seq<PackedEntry>,
    total: nat,
    elapsed: nat,
    dry_run: bool,
    checksum: Option<Seq<char>>,
) -> Seq<Seq<char>> {
    summary_lines(name, zip, entries.len(), total, elapsed, dry_run) + checksum_lines(checksum)
        + table_head_lines() + entry_lines(entries)
}

/// The Markdown pack report: its lines, each ended by a line break.
pub open spec fn report_text(
    name: Seq<char>,
    zip: Seq<char>,
    entries: Seq<PackedEntry>,
    total: nat,
    elapsed: nat,
    dry_run: bool,
    checksum: Option<Seq<char>>,
) -> Seq<char> {
    unlines(report_lines(name, zip, entries, total, elapsed, dry_run, checksum))
}

proof fn lemma_unlines_push(ls: Seq<Seq<char>>, l: Seq<char>)
    ensures
        unlines(ls.push(l)) == unlines(ls) + l + seq!['\n'],
{
    assert(ls.push(l).drop_last() =~= ls);
}

proof fn lemma_lines_unlines(ls: Seq<Seq<char>>)
    requires
        forall|k: int| 0 <= k < ls.len() ==> plain_line(#[trigger] ls[k]),
    ensures
        lines(unlines(ls)) == ls,
    decreases ls.len(),
{
    if ls.len() > 0 {
        let rest = ls.drop_first();
        assert forall|k: int| 0 <= k < rest.len() implies plain_line(#[trigger] rest[k]) by {
            assert(rest[k] == ls[k + 1]);
        }
        lemma_lines_unlines(rest);
        lemma_unlines_front(ls);
        assert(plain_line(ls[0]));
        lemma_lines_cons(ls[0], unlines(rest));
        assert(crate::text::strip_cr(ls[0]) == ls[0]);
        assert(lines(unlines(ls)) =~= ls);
    }
}

proof fn lemma_unlines_front(ls: Seq<Seq<char>>)
    requires
        ls.len() > 0,
    ensures
        unlines(ls) == ls[0] + seq!['\n'] + unlines(ls.drop_first()),
    decreases ls.len(),
{
    if ls.len() == 1 {
        assert(ls.drop_last() =~= Seq::<Seq<char>>::empty());
        assert(ls.drop_first() =~= Seq::<Seq<char>>::empty());
        assert(unlines(ls) =~= ls[0] + seq!['\n'] + unlines(ls.drop_first()));
    } else {
        let d = ls.drop_last();
        lemma_unlines_front(d);
        assert(d.drop_first() =~= ls.drop_first().drop_last());
        assert(ls.drop_first().last() == ls.last());
        assert(unlines(ls) =~= ls[0] + seq!['\n'] + unlines(ls.drop_first()));
    }
}

/// A text without line breaks, followed by a non-empty one without line
/// breaks that does not end in a carriage return, is a plain line.
proof fn lemma_plain_after(x: Seq<char>, y: Seq<char>)
    requires
        avoids(x, '\n'),
        avoids(y, '\n'),
        y.len() > 0,
        y.last() != '\r',
    ensures
        plain_line(x + y),
{
    lemma_avoids_concat(x, y, '\n');
    assert((x + y).last() == y.last());
}

/// Sizes are written without line breaks.
proof fn lemma_size_text_avoids(bytes: nat)
    ensures
        avoids(size_text(bytes), '\n'),
{
    reveal_strlit(" GB");
    reveal_strlit(" MB");
    reveal_strlit(" KB");
    reveal_strlit(" B");
    let q = if bytes >= GB {
        round_half_even(f64_of(bytes) * 100, GB as nat)
    } else if bytes >= MB {
        round_half_even(bytes * 100, MB as nat)
    } else {
        round_half_even(bytes * 10, KB as nat)
    };
    crate::text::lemma_digit_char(q % 10);
    crate::text::lemma_digit_char((q / 10) % 10);
    lemma_decimal_avoids(q / 10, '\n');
    lemma_decimal_avoids(q / 100, '\n');
    lemma_decimal_avoids(bytes, '\n');
    lemma_avoids_concat(decimal(q / 10), seq!['.', digit_char(q % 10)], '\n');
    lemma_avoids_concat(
        decimal(q / 100),
        seq!['.', digit_char((q / 10) % 10), digit_char(q % 10)],
        '\n',
    );
    if bytes >= GB {
        lemma_avoids_concat(fixed(q, 2), " GB"@, '\n');
    } else if bytes >= MB {
        lemma_avoids_concat(fixed(q, 2), " MB"@, '\n');
    } else if bytes >= KB {
        lemma_avoids_concat(fixed(q, 1), " KB"@, '\n');
    } else {
        lemma_avoids_concat(decimal(bytes), " B"@, '\n');
    }
}

/// A number written in decimal, after a text without line breaks, is a plain
/// line.
proof fn lemma_plain_decimal_after(x: Seq<char>, n: nat)
    requires
        avoids(x, '\n'),
    ensures
        plain_line(x + decimal(n)),
{
    lemma_decimal_avoids(n, '\n');
    crate::text::lemma_decimal_digits(n);
    assert(crate::text::is_digit(decimal(n).last()));
    lemma_plain_after(x, decimal(n));
}

/// The summary lines are plain when the name and the archive path are.
proof fn lemma_summary_plain(
    name: Seq<char>,
    zip: Seq<char>,
    count: nat,
    total: nat,
    elapsed: nat,
    dry_run: bool,
)
    requires
        plain_line(name),
        avoids(zip, '\n'),
    ensures
        forall|k: int|
            0 <= k < 7 ==> plain_line(
                #[trigger] summary_lines(name, zip, count, total, elapsed, dry_run)[k],
            ),
{
    let ls = summary_lines(name, zip, count, total, elapsed, dry_run);
    reveal_strlit("# Pack Report: ");
    reveal_strlit("- **Status:** ");
    reveal_strlit("Dry Run (Simulated)");
    reveal_strlit("Complete");
    reveal_strlit("- **Archive Output:** `");
    reveal_strlit("`");
    reveal_strlit("- **Files Packed:** ");
    reveal_strlit("- **Total Size:** ");
    reveal_strlit(" (");
    reveal_strlit(" bytes)");
    reveal_strlit("- **Elapsed Time:** ");
    reveal_strlit("ms");
    let title = "# Pack Report: "@;
    assert(avoids(title, '\n'));
    lemma_avoids_concat(title, name, '\n');
    if name.len() > 0 {
        assert((title + name).last() == name.last());
    }
    assert(plain_line(ls[0]));
    assert(plain_line(ls[1]));
    assert(avoids("- **Status:** "@, '\n'));
    assert(avoids(status_text(dry_run), '\n'));
    lemma_plain_after("- **Status:** "@, status_text(dry_run));
    assert(avoids("- **Archive Output:** `"@, '\n'));
    lemma_avoids_concat("- **Archive Output:** `"@, zip, '\n');
    lemma_plain_after("- **Archive Output:** `"@ + zip, "`"@);
    assert(avoids("- **Files Packed:** "@, '\n'));
    lemma_plain_decimal_after("- **Files Packed:** "@, count);
    assert(avoids("- **Total Size:** "@, '\n'));
    lemma_size_text_avoids(total);
    lemma_avoids_concat("- **Total Size:** "@, size_text(total), '\n');
    assert(avoids(" ("@, '\n'));
    lemma_avoids_concat("- **Total Size:** "@ + size_text(total), " ("@, '\n');
    lemma_decimal_avoids(total, '\n');
    lemma_avoids_concat("- **Total Size:** "@ + size_text(total) + " ("@, decimal(total), '\n');
    assert(avoids(" bytes)"@, '\n'));
    lemma_plain_after("- **Total Size:** "@ + size_text(total) + " ("@ + decimal(total), " bytes)"@);
    assert(avoids("- **Elapsed Time:** "@, '\n'));
    lemma_decimal_avoids(elapsed, '\n');
    lemma_avoids_concat("- **Elapsed Time:** "@, decimal(elapsed), '\n');
    assert(avoids("ms"@, '\n'));
    lemma_plain_after("- **Elapsed Time:** "@ + decimal(elapsed), "ms"@);
}

/// The checksum line, the head of the table and the rows are plain when the
/// checksum and the file paths hold no line break.
proof fn lemma_rest_plain(entries: Seq<PackedEntry>, checksum: Option<Seq<char>>)
    requires
        checksum matches Some(h) ==> avoids(h, '\n'),
        forall|k: int| 0 <= k < entries.len() ==> avoids((#[trigger] entries[k]).relative_path@, '\n'),
    ensures
        forall|k: int|
            0 <= k < checksum_lines(checksum).len() ==> plain_line(
                #[trigger] checksum_lines(checksum)[k],
            ),
        forall|k: int| 0 <= k < 5 ==> plain_line(#[trigger] table_head_lines()[k]),
        forall|k: int|
            0 <= k < entries.len() ==> plain_line(#[trigger] entry_lines(entries)[k]),
{
    reveal_strlit("- **SHA256:** `");
    reveal_strlit("`");
    reveal_strlit("### Included Files");
    reveal_strlit("| File | Size |");
    reveal_strlit("| :--- | :--- |");
    reveal_strlit("| `");
    reveal_strlit("` | ");
    reveal_strlit(" |");
    if let Some(h) = checksum {
        assert(avoids("- **SHA256:** `"@, '\n'));
        lemma_avoids_concat("- **SHA256:** `"@, h, '\n');
        lemma_plain_after("- **SHA256:** `"@ + h, "`"@);
        assert(checksum_lines(checksum)[0] == "- **SHA256:** `"@ + h + "`"@);
    }
    let t = table_head_lines();
    assert(avoids("### Included Files"@, '\n'));
    assert(avoids("| File | Size |"@, '\n'));
    assert(avoids("| :--- | :--- |"@, '\n'));
    assert(plain_line(t[0]) && plain_line(t[1]) && plain_line(t[2]) && plain_line(t[3])
        && plain_line(t[4]));
    assert(avoids("| `"@, '\n'));
    assert(avoids("` | "@, '\n'));
    assert(avoids(" |"@, '\n'));
    assert forall|k: int| 0 <= k < entries.len() implies plain_line(
        #[trigger] entry_lines(entries)[k],
    ) by {
        let e = entries[k];
        lemma_avoids_concat("| `"@, e.relative_path@, '\n');
        lemma_avoids_concat("| `"@ + e.relative_path@, "` | "@, '\n');
        lemma_size_text_avoids(e.size_bytes as nat);
        lemma_avoids_concat(
            "| `"@ + e.relative_path@ + "` | "@,
            size_text(e.size_bytes as nat),
            '\n',
        );
        lemma_plain_after(
            "| `"@ + e.relative_path@ + "` | "@ + size_text(e.size_bytes as nat),
            " |"@,
        );
    }
}

/// Read line by line, as `str::lines` reads it, the report gives back its
/// lines: the title, the status, the archive, the number of files, the total
/// size in words and in bytes, the elapsed time, the checksum line exactly
/// when there is a checksum, the head of the table and one row per packed
/// file, in order. This holds whenever the name, the archive path, the
/// checksum and the file paths hold no line break and the name does not end
/// in a carriage return.
pub proof fn lemma_report_lines(
    name: Seq<char>,
    zip: Seq<char>,
    entries: Seq<PackedEntry>,
    total: nat,
    elapsed: nat,
    dry_run: bool,
    checksum: Option<Seq<char>>,
)
    requires
        plain_line(name),
        avoids(zip, '\n'),
        checksum matches Some(h) ==> avoids(h, '\n'),
        forall|k: int| 0 <= k < entries.len() ==> avoids((#[trigger] entries[k]).relative_path@, '\n'),
    ensures
        lines(report_text(name, zip, entries, total, elapsed, dry_run, checksum)) == report_lines(
            name,
            zip,
            entries,
            total,
            elapsed,
            dry_run,
            checksum,
        ),
{
    let s = summary_lines(name, zip, entries.len(), total, elapsed, dry_run);
    let c = checksum_lines(checksum);
    let t = table_head_lines();
    let r = entry_lines(entries);
    lemma_summary_plain(name, zip, entries.len(), total, elapsed, dry_run);
    lemma_rest_plain(entries, checksum);
    let ls = report_lines(name, zip, entries, total, elapsed, dry_run, checksum);
    assert forall|k: int| 0 <= k < ls.len() implies plain_line(#[trigger] ls[k]) by {
        if k < s.len() {
            assert(ls[k] == s[k]);
        } else if k < s.len() + c.len() {
            assert(ls[k] == c[k - s.len()]);
        } else if k < s.len() + c.len() + t.len() {
            assert(ls[k] == t[k - s.len() - c.len()]);
        } else {
            assert(ls[k] == r[k - s.len() - c.len() - t.len()]);
        }
    }
    lemma_lines_unlines(ls);
}

/// Appends one line and its line break.
fn push_line_break(out: &mut String)
    ensures
        final(out)@ == old(out)@ + seq!['\n'],
{
    push_str(out, "\n");
    proof {
        reveal_strlit("\n");
    }
}

/// The Markdown report of a pack run: the archive, its size and time, the
/// checksum when there is one, and a table of the packed files.
pub fn generate_markdown_report(
    resource_name: &str,
    zip_path: &str,
    entries: &[PackedEntry],
    total_bytes: u64,
    elapsed_ms: u128,
    dry_run: bool,
    checksum: Option<&str>,
) -> (out: String)
    ensures
        out@ == report_text(
            resource_name@,
            zip_path@,
            entries@,
            total_bytes as nat,
            elapsed_ms as nat,
            dry_run,
            opt_chars(checksum),
        ),
{
    let ghost summary = summary_lines(
        resource_name@,
        zip_path@,
        entries@.len(),
        total_bytes as nat,
        elapsed_ms as nat,
        dry_run,
    );
    let mut out = String::new();
    push_str(&mut out, "# Pack Report: ");
    push_str(&mut out, resource_name);
    push_line_break(&mut out);
    proof {
        lemma_unlines_push(seq![], summary[0]);
        assert(unlines(Seq::<Seq<char>>::empty()) == Seq::<char>::empty());
        assert(summary.take(1) =~= Seq::<Seq<char>>::empty().push(summary[0]));
        assert(out@ =~= unlines(summary.take(1)));
    }
    push_line_break(&mut out);
    proof {
        lemma_unlines_push(summary.take(1), summary[1]);
        assert(summary.take(2) =~= summary.take(1).push(summary[1]));
        assert(out@ =~= unlines(summary.take(2)));
    }
    push_str(&mut out, "- **Status:** ");
    if dry_run {
        push_str(&mut out, "Dry Run (Simulated)");
    } else {
        push_str(&mut out, "Complete");
    }
    push_line_break(&mut out);
    proof {
        lemma_unlines_push(summary.take(2), summary[2]);
        assert(summary.take(3) =~= summary.take(2).push(summary[2]));
        assert(out@ =~= unlines(summary.take(3)));
    }
    push_str(&mut out, "- **Archive Output:** `");
    push_str(&mut out, zip_path);
    push_str(&mut out, "`");
    push_line_break(&mut out);
    proof {
        lemma_unlines_push(summary.take(3), summary[3]);
        assert(summary.take(4) =~= summary.take(3).push(summary[3]));
        assert(out@ =~= unlines(summary.take(4)));
    }
    push_str(&mut out, "- **Files Packed:** ");
    push_decimal(&mut out, entries.len() as u128);
    push_line_break(&mut out);
    proof {
        lemma_unlines_push(summary.take(4), summary[4]);
        assert(summary.take(5) =~= summary.take(4).push(summary[4]));
        assert(out@ =~= unlines(summary.take(5)));
    }
    push_str(&mut out, "- **Total Size:** ");
    let size = format_size(total_bytes);
    push_str(&mut out, size.as_str());
    push_str(&mut out, " (");
    push_decimal(&mut out, total_bytes as u128);
    push_str(&mut out, " bytes)");
    push_line_break(&mut out);
    proof {
        lemma_unlines_push(summary.take(5), summary[5]);
        assert(summary.take(6) =~= summary.take(5).push(summary[5]));
        assert(out@ =~= unlines(summary.take(6)));
    }
    push_str(&mut out, "- **Elapsed Time:** ");
    push_decimal(&mut out, elapsed_ms);
    push_str(&mut out, "ms");
    push_line_break(&mut out);
    proof {
        lemma_unlines_push(summary.take(6), summary[6]);
        assert(summary.take(7) =~= summary);
        assert(out@ =~= unlines(summary));
    }
    let ghost with_sum = summary + checksum_lines(opt_chars(checksum));
    match checksum {
        Some(h) => {
            push_str(&mut out, "- **SHA256:** `");
            push_str(&mut out, h);
            push_str(&mut out, "`");
            push_line_break(&mut out);
            proof {
                lemma_unlines_push(summary, "- **SHA256:** `"@ + h@ + "`"@);
                assert(with_sum =~= summary.push("- **SHA256:** `"@ + h@ + "`"@));
            }
        },
        None => {
            proof {
                assert(with_sum =~= summary);
            }
        },
    }
    assert(out@ =~= unlines(with_sum));
    let ghost table = table_head_lines();
    push_line_break(&mut out);
    proof {
        lemma_unlines_push(with_sum, table[0]);
        assert(with_sum + table.take(1) =~= with_sum.push(table[0]));
        assert(out@ =~= unlines(with_sum + table.take(1)));
    }
    push_str(&mut out, "### Included Files");
    push_line_break(&mut out);
    proof {
        lemma_unlines_push(with_sum + table.take(1), table[1]);
        assert(with_sum + table.take(2) =~= (with_sum + table.take(1)).push(table[1]));
        assert(out@ =~= unlines(with_sum + table.take(2)));
    }
    push_line_break(&mut out);
    proof {
        lemma_unlines_push(with_sum + table.take(2), table[2]);
        assert(with_sum + table.take(3) =~= (with_sum + table.take(2)).push(table[2]));
        assert(out@ =~= unlines(with_sum + table.take(3)));
    }
    push_str(&mut out, "| File | Size |");
    push_line_break(&mut out);
    proof {
        lemma_unlines_push(with_sum + table.take(3), table[3]);
        assert(with_sum + table.take(4) =~= (with_sum + table.take(3)).push(table[3]));
        assert(out@ =~= unlines(with_sum + table.take(4)));
    }
    push_str(&mut out, "| :--- | :--- |");
    push_line_break(&mut out);
    proof {
        lemma_unlines_push(with_sum + table.take(4), table[4]);
        assert(with_sum + table =~= (with_sum + table.take(4)).push(table[4]));
        assert(out@ =~= unlines(with_sum + table));
    }
    let ghost prefix = with_sum + table;
    let ghost rows = entry_lines(entries@);
    let mut i: usize = 0;
    while i < entries.len()
        invariant
            i <= entries@.len(),
            rows == entry_lines(entries@),
            out@ == unlines(prefix + rows.take(i as int)),
        decreases entries.len() - i,
    {
        let e = &entries[i];
        push_str(&mut out, "| `");
        push_str(&mut out, e.relative_path.as_str());
        push_str(&mut out, "` | ");
        let sz = format_size(e.size_bytes);
        push_str(&mut out, sz.as_str());
        push_str(&mut out, " |");
        push_line_break(&mut out);
        proof {
            lemma_unlines_push(prefix + rows.take(i as int), rows[i as int]);
            assert(prefix + rows.take(i + 1) =~= (prefix + rows.take(i as int)).push(rows[i as int]));
        }
        i = i + 1;
    }
    proof {
        assert(rows.take(i as int) =~= rows);
        assert(prefix + rows =~= report_lines(
            resource_name@,
            zip_path@,
            entries@,
            total_bytes as nat,
            elapsed_ms as nat,
            dry_run,
            opt_chars(checksum),
        ));
    }
    out
}

// ---------------------------------------------------------------------------
// Totals, names and messages
// ---------------------------------------------------------------------------

/// The sum of the sizes of the packed files.
pub open spec fn sizes_sum(entries: Seq<PackedEntry>) -> nat
    decreases entries.len(),
{
    if entries.len() == 0 {
        0
    } else {
        sizes_sum(entries.drop_last()) + entries.last().size_bytes as nat
    }
}

/// The sizes of the first files add up to no more than all of them.
proof fn lemma_sizes_sum_prefix(entries: Seq<PackedEntry>, n: int)
    requires
        0 <= n <= entries.len(),
    ensures
        sizes_sum(entries.take(n)) <= sizes_sum(entries),
    decreases entries.len() - n,
{
    if n < entries.len() {
        assert(entries.take(n + 1).drop_last() =~= entries.take(n));
        lemma_sizes_sum_prefix(entries, n + 1);
    } else {
        assert(entries.take(n) =~= entries);
    }
}

/// The total size of the packed files, which must fit in a `u64`.
pub fn total_size(entries: &[PackedEntry]) -> (t: u64)
    requires
        sizes_sum(entries@) <= u64::MAX,
    ensures
        t == sizes_sum(entries@),
{
    let mut t: u64 = 0;
    let mut i: usize = 0;
    while i < entries.len()
        invariant
            i <= entries@.len(),
            t == sizes_sum(entries@.take(i as int)),
            sizes_sum(entries@) <= u64::MAX,
        decreases entries.len() - i,
    {
        proof {
            assert(entries@.take(i + 1).drop_last() =~= entries@.take(i as int));
            lemma_sizes_sum_prefix(entries@, i + 1);
        }
        t = t + entries[i].size_bytes;
        i = i + 1;
    }
    proof {
        assert(entries@.take(i as int) =~= entries@);
    }
    t
}

/// The archive file name of a resource: `<name>.zip`.
pub fn archive_name(resource_name: &str) -> (r: String)
    ensures
        r@ == resource_name@ + ".zip"@,
{
    let mut r = String::new();
    push_str(&mut r, resource_name);
    push_str(&mut r, ".zip");
    r
}

/// The line that reports a pack run.
pub open spec fn summary_text(
    dry_run: bool,
    files: nat,
    total: nat,
    zip: Seq<char>,
    elapsed: nat,
) -> Seq<char> {
    (if dry_run {
        "[DRY RUN] Would pack "@
    } else {
        "Packed "@
    }) + decimal(files) + " files ("@ + size_text(total) + ") into '"@ + zip + "' ("@ + decimal(
        elapsed,
    ) + "ms)"@
}

/// The line that reports a pack run: how many files of what total size went,
/// or would go in a dry run, into which archive, and in how many milliseconds.
pub fn pack_summary(
    dry_run: bool,
    files: usize,
    total_bytes: u64,
    zip_path: &str,
    elapsed_ms: u128,
) -> (r: String)
    ensures
        r@ == summary_text(dry_run, files as nat, total_bytes as nat, zip_path@, elapsed_ms as nat),
{
    let mut r = String::new();
    if dry_run {
        push_str(&mut r, "[DRY RUN] Would pack ");
    } else {
        push_str(&mut r, "Packed ");
    }
    push_decimal(&mut r, files as u128);
    push_str(&mut r, " files (");
    let size = format_size(total_bytes);
    push_str(&mut r, size.as_str());
    push_str(&mut r, ") into '");
    push_str(&mut r, zip_path);
    push_str(&mut r, "' (");
    push_decimal(&mut r, elapsed_ms);
    push_str(&mut r, "ms)");
    r
}

// ---------------------------------------------------------------------------
// Checksum
// ---------------------------------------------------------------------------

/// The SHA-256 digest of a byte sequence.
pub uninterp spec fn sha256_of(data: Seq<u8>) -> Seq<u8>;

/// `Sha256::digest` of the sha2 crate (a method of its `Digest` trait): the
/// contract names the digest of `data` and states that it is 32 bytes long;
/// what SHA-256 computes is left to the name.
#[verifier::external_body]
fn sha256_digest(data: &[u8]) -> (d: Vec<u8>)
    ensures
        d@ == sha256_of(data@),
        d@.len() == 32,
{
    Sha256::digest(data).to_vec()
}

/// A hexadecimal digit, lower case.
pub open spec fn hex_digit(n: nat) -> char {
    if n < 10 {
        digit_char(n)
    } else if n == 10 {
        'a'
    } else if n == 11 {
        'b'
    } else if n == 12 {
        'c'
    } else if n == 13 {
        'd'
    } else if n == 14 {
        'e'
    } else {
        'f'
    }
}

/// Bytes written as lower-case hexadecimal, two digits each.
pub open spec fn hex_text(bytes: Seq<u8>) -> Seq<char>
    decreases bytes.len(),
{
    if bytes.len() == 0 {
        seq![]
    } else {
        hex_text(bytes.drop_last()) + seq![
            hex_digit(bytes.last() as nat / 16),
            hex_digit(bytes.last() as nat % 16),
        ]
    }
}

/// Two digits per byte.
proof fn lemma_hex_len(bytes: Seq<u8>)
    ensures
        hex_text(bytes).len() == 2 * bytes.len(),
    decreases bytes.len(),
{
    if bytes.len() > 0 {
        lemma_hex_len(bytes.drop_last());
    }
}

/// The lower-case hexadecimal digit of `n`.
fn hex_char(n: u8) -> (c: char)
    requires
        n < 16,
    ensures
        c == hex_digit(n as nat),
{
    if n < 10 {
        crate::text::digit(n as u64)
    } else if n == 10 {
        'a'
    } else if n == 11 {
        'b'
    } else if n == 12 {
        'c'
    } else if n == 13 {
        'd'
    } else if n == 14 {
        'e'
    } else {
        'f'
    }
}

/// Lower-case hexadecimal of `bytes`.
pub fn hex_string(bytes: &[u8]) -> (r: String)
    ensures
        r@ == hex_text(bytes@),
        r@.len() == 2 * bytes@.len(),
{
    let mut r = String::new();
    let mut i: usize = 0;
    while i < bytes.len()
        invariant
            i <= bytes@.len(),
            r@ == hex_text(bytes@.take(i as int)),
        decreases bytes.len() - i,
    {
        proof {
            assert(bytes@.take(i + 1).drop_last() =~= bytes@.take(i as int));
        }
        let b = bytes[i];
        push_char(&mut r, hex_char(b / 16));
        push_char(&mut r, hex_char(b % 16));
        i = i + 1;
        assert(r@ =~= hex_text(bytes@.take(i as int)));
    }
    proof {
        assert(bytes@.take(i as int) =~= bytes@);
        lemma_hex_len(bytes@);
    }
    r
}

/// The SHA-256 checksum of an archive's bytes, as 64 lower-case hexadecimal
/// digits.
pub fn compute_sha256(data: &[u8]) -> (r: String)
    ensures
        r@ == hex_text(sha256_of(data@)),
        r@.len() == 64,
{
    let d = sha256_digest(data);
    hex_string(d.as_slice())
}

} // verus!
