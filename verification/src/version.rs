//! Semantic versions and the `version` declaration of a manifest.
use crate::text::{
    decimal, find, find_from, is_ws, lemma_find_is, lines, parse_u64, parse_u64_range, push_char,
    push_decimal, push_range, push_str, split, split_lines, split_ranges, str_chars, string_of,
    trim, trim_bounds,
};
use vstd::prelude::*;

verus! {

#[derive(Debug, Clone, Copy, PartialEq, Eq)]
pub enum BumpType {
    Major,
    Minor,
    Patch,
}

#[derive(Debug, Clone, PartialEq, Eq)]
pub struct SemVer {
    pub major: u64,
    pub minor: u64,
    pub patch: u64,
    pub prerelease: Option<String>,
    pub build: Option<String>,
}

/// The mathematical value of a [`SemVer`].
pub struct SemVerV {
    pub major: u64,
    pub minor: u64,
    pub patch: u64,
    pub prerelease: Option<Seq<char>>,
    pub build: Option<Seq<char>>,
}

pub open spec fn opt_view(o: Option<String>) -> Option<Seq<char>> {
    match o {
        Some(s) => Some(s@),
        None => None,
    }
}

impl View for SemVer {
    type V = SemVerV;

    open spec fn view(&self) -> SemVerV {
        SemVerV {
            major: self.major,
            minor: self.minor,
            patch: self.patch,
            prerelease: opt_view(self.prerelease),
            build: opt_view(self.build),
        }
    }
}

/// Why a text is not a semantic version.
#[derive(Debug, Clone, PartialEq, Eq)]
pub enum SemVerError {
    /// The text does not have the form `MAJOR.MINOR.PATCH` (the whole input is kept).
    InvalidFormat(String),
    InvalidMajor(String),
    InvalidMinor(String),
    InvalidPatch(String),
}

pub enum SemVerErr {
    InvalidFormat(Seq<char>),
    InvalidMajor(Seq<char>),
    InvalidMinor(Seq<char>),
    InvalidPatch(Seq<char>),
}

impl View for SemVerError {
    type V = SemVerErr;

    open spec fn view(&self) -> SemVerErr {
        match self {
            SemVerError::InvalidFormat(s) => SemVerErr::InvalidFormat(s@),
            SemVerError::InvalidMajor(s) => SemVerErr::InvalidMajor(s@),
            SemVerError::InvalidMinor(s) => SemVerErr::InvalidMinor(s@),
            SemVerError::InvalidPatch(s) => SemVerErr::InvalidPatch(s@),
        }
    }
}

pub open spec fn semver_error_message(e: SemVerErr) -> Seq<char> {
    match e {
        SemVerErr::InvalidFormat(s) => "Invalid SemVer format '"@ + s
            + "': expected MAJOR.MINOR.PATCH (e.g., '1.0.0')"@,
        SemVerErr::InvalidMajor(s) => "Invalid major version '"@ + s + "'"@,
        SemVerErr::InvalidMinor(s) => "Invalid minor version '"@ + s + "'"@,
        SemVerErr::InvalidPatch(s) => "Invalid patch version '"@ + s + "'"@,
    }
}

impl SemVerError {
    /// The text that describes the error.
    pub fn message(&self) -> (m: String)
        ensures
            m@ == semver_error_message(self@),
    {
        let mut m = String::new();
        match self {
            SemVerError::InvalidFormat(s) => {
                push_str(&mut m, "Invalid SemVer format '");
                push_str(&mut m, s.as_str());
                push_str(&mut m, "': expected MAJOR.MINOR.PATCH (e.g., '1.0.0')");
            },
            SemVerError::InvalidMajor(s) => {
                push_str(&mut m, "Invalid major version '");
                push_str(&mut m, s.as_str());
                push_str(&mut m, "'");
            },
            SemVerError::InvalidMinor(s) => {
                push_str(&mut m, "Invalid minor version '");
                push_str(&mut m, s.as_str());
                push_str(&mut m, "'");
            },
            SemVerError::InvalidPatch(s) => {
                push_str(&mut m, "Invalid patch version '");
                push_str(&mut m, s.as_str());
                push_str(&mut m, "'");
            },
        }
        m
    }
}

// ---------------------------------------------------------------------------
// Specification
// ---------------------------------------------------------------------------

/// `str::split_once` on one character.
pub open spec fn split_once(s: Seq<char>, c: char) -> Option<(Seq<char>, Seq<char>)> {
    match find(s, c) {
        Some(i) => Some((s.take(i as int), s.skip(i + 1int))),
        None => None,
    }
}

/// `s` without one leading `v`.
pub open spec fn strip_v(s: Seq<char>) -> Seq<char> {
    if s.len() > 0 && s[0] == 'v' {
        s.drop_first()
    } else {
        s
    }
}

/// The numeric part, the prerelease and the build metadata of a version text.
pub open spec fn semver_pieces(input: Seq<char>) -> (Seq<char>, Option<Seq<char>>, Option<Seq<char>>) {
    let s = strip_v(trim(input));
    let (s1, build) = match split_once(s, '+') {
        Some((a, b)) => (a, Some(b)),
        None => (s, None),
    };
    let (s2, prerelease) = match split_once(s1, '-') {
        Some((a, p)) => (a, Some(p)),
        None => (s1, None),
    };
    (s2, prerelease, build)
}

/// The version that a text denotes: surrounding whitespace and a leading `v` are
/// ignored; `+build` is split at the first `+`, then `-prerelease` at the first
/// `-`, and the rest must be three dot-separated `u64` numbers.
pub open spec fn parse_semver(input: Seq<char>) -> Result<SemVerV, SemVerErr> {
    let (s2, prerelease, build) = semver_pieces(input);
    let parts = split(s2, '.');
    if parts.len() != 3 {
        Err(SemVerErr::InvalidFormat(input))
    } else if parse_u64(parts[0]) is None {
        Err(SemVerErr::InvalidMajor(parts[0]))
    } else if parse_u64(parts[1]) is None {
        Err(SemVerErr::InvalidMinor(parts[1]))
    } else if parse_u64(parts[2]) is None {
        Err(SemVerErr::InvalidPatch(parts[2]))
    } else {
        Ok(
            SemVerV {
                major: parse_u64(parts[0])->0,
                minor: parse_u64(parts[1])->0,
                patch: parse_u64(parts[2])->0,
                prerelease,
                build,
            },
        )
    }
}

/// `MAJOR.MINOR.PATCH`, then `-prerelease` and `+build` when present.
pub open spec fn version_string(v: SemVerV) -> Seq<char> {
    let core = decimal(v.major as nat) + "."@ + decimal(v.minor as nat) + "."@ + decimal(
        v.patch as nat,
    );
    let with_pre = match v.prerelease {
        Some(p) => core + "-"@ + p,
        None => core,
    };
    match v.build {
        Some(b) => with_pre + "+"@ + b,
        None => with_pre,
    }
}

/// Whether the component that `bt` increments is below its maximum.
pub open spec fn can_bump(v: SemVerV, bt: BumpType) -> bool {
    match bt {
        BumpType::Major => v.major < u64::MAX,
        BumpType::Minor => v.minor < u64::MAX,
        BumpType::Patch => v.patch < u64::MAX,
    }
}

/// The version after a bump: the lower components reset to zero and the
/// prerelease is dropped; the build metadata stays.
pub open spec fn bumped(v: SemVerV, bt: BumpType) -> SemVerV {
    match bt {
        BumpType::Major => SemVerV {
            major: (v.major + 1) as u64,
            minor: 0,
            patch: 0,
            prerelease: None,
            ..v
        },
        BumpType::Minor => SemVerV {
            minor: (v.minor + 1) as u64,
            patch: 0,
            prerelease: None,
            ..v
        },
        BumpType::Patch => SemVerV { patch: (v.patch + 1) as u64, prerelease: None, ..v },
    }
}

// ---------------------------------------------------------------------------
// Executable SemVer
// ---------------------------------------------------------------------------

/// The numeric part (as a range of `s`), the prerelease and the build metadata.
#[verifier::rlimit(60)]
fn version_pieces(s: &[char]) -> (r: (usize, usize, Option<String>, Option<String>))
    ensures
        r.0 <= r.1 <= s@.len(),
        s@.subrange(r.0 as int, r.1 as int) == semver_pieces(s@).0,
        opt_view(r.2) == semver_pieces(s@).1,
        opt_view(r.3) == semver_pieces(s@).2,
{
    let (a, b) = trim_bounds(s, 0, s.len());
    proof {
        assert(s@.subrange(0, s@.len() as int) =~= s@);
    }
    let a2 = if a < b && s[a] == 'v' {
        a + 1
    } else {
        a
    };
    let ghost st = strip_v(trim(s@));
    proof {
        assert(s@.subrange(a2 as int, b as int) =~= st);
    }
    let plus = find_from(s, '+', a2, b);
    proof {
        lemma_find_is(st, '+', plus - a2);
    }
    let rest_end = plus;
    let build = if plus < b {
        Some(string_of(s, plus + 1, b))
    } else {
        None
    };
    let ghost s1 = s@.subrange(a2 as int, rest_end as int);
    proof {
        if plus < b {
            assert(st.take(plus - a2) =~= s1);
            assert(st.skip(plus - a2 + 1) =~= s@.subrange(plus + 1, b as int));
        } else {
            assert(st =~= s1);
        }
    }
    let minus = find_from(s, '-', a2, rest_end);
    proof {
        lemma_find_is(s1, '-', minus - a2);
    }
    let core_end = minus;
    let prerelease = if minus < rest_end {
        Some(string_of(s, minus + 1, rest_end))
    } else {
        None
    };
    proof {
        if minus < rest_end {
            assert(s1.take(minus - a2) =~= s@.subrange(a2 as int, core_end as int));
            assert(s1.skip(minus - a2 + 1) =~= s@.subrange(minus + 1, rest_end as int));
        } else {
            assert(s1 =~= s@.subrange(a2 as int, core_end as int));
        }
    }
    (a2, core_end, prerelease, build)
}

impl SemVer {
    pub fn parse(input: &str) -> (r: Result<SemVer, SemVerError>)
        ensures
            match (r, parse_semver(input@)) {
                (Ok(v), Ok(sv)) => v@ == sv,
                (Err(e), Err(se)) => e@ == se,
                _ => false,
            },
    {
        let v = str_chars(input);
        Self::parse_chars(v.as_slice())
    }

    /// [`SemVer::parse`] on a sequence of characters.
    pub fn parse_chars(s: &[char]) -> (r: Result<SemVer, SemVerError>)
        ensures
            match (r, parse_semver(s@)) {
                (Ok(v), Ok(sv)) => v@ == sv,
                (Err(e), Err(se)) => e@ == se,
                _ => false,
            },
    {
        let (a2, core_end, prerelease, build) = version_pieces(s);
        let parts = split_ranges(s, a2, core_end, '.');
        if parts.len() != 3 {
            let whole = string_of(s, 0, s.len());
            proof {
                assert(s@.subrange(0, s@.len() as int) =~= s@);
            }
            return Err(SemVerError::InvalidFormat(whole));
        }
        let (m0, m1) = parts[0];
        let (n0, n1) = parts[1];
        let (p0, p1) = parts[2];
        let major = match parse_u64_range(s, m0, m1) {
            Some(x) => x,
            None => {
                return Err(SemVerError::InvalidMajor(string_of(s, m0, m1)));
            },
        };
        let minor = match parse_u64_range(s, n0, n1) {
            Some(x) => x,
            None => {
                return Err(SemVerError::InvalidMinor(string_of(s, n0, n1)));
            },
        };
        let patch = match parse_u64_range(s, p0, p1) {
            Some(x) => x,
            None => {
                return Err(SemVerError::InvalidPatch(string_of(s, p0, p1)));
            },
        };
        Ok(SemVer { major, minor, patch, prerelease, build })
    }

    /// Whether `bump(bump_type)` can increment the component without overflow.
    pub fn can_bump(&self, bump_type: BumpType) -> (b: bool)
        ensures
            b == can_bump(self@, bump_type),
    {
        match bump_type {
            BumpType::Major => self.major < u64::MAX,
            BumpType::Minor => self.minor < u64::MAX,
            BumpType::Patch => self.patch < u64::MAX,
        }
    }

    pub fn bump(&mut self, bump_type: BumpType)
        requires
            can_bump(old(self)@, bump_type),
        ensures
            final(self)@ == bumped(old(self)@, bump_type),
    {
        match bump_type {
            BumpType::Major => {
                self.major = self.major + 1;
                self.minor = 0;
                self.patch = 0;
                self.prerelease = None;
            },
            BumpType::Minor => {
                self.minor = self.minor + 1;
                self.patch = 0;
                self.prerelease = None;
            },
            BumpType::Patch => {
                self.patch = self.patch + 1;
                self.prerelease = None;
            },
        }
    }

    pub fn to_version_string(&self) -> (r: String)
        ensures
            r@ == version_string(self@),
    {
        let mut out = String::new();
        push_decimal(&mut out, self.major as u128);
        push_str(&mut out, ".");
        push_decimal(&mut out, self.minor as u128);
        push_str(&mut out, ".");
        push_decimal(&mut out, self.patch as u128);
        match &self.prerelease {
            Some(p) => {
                push_str(&mut out, "-");
                push_str(&mut out, p.as_str());
            },
            None => {},
        }
        match &self.build {
            Some(b) => {
                push_str(&mut out, "+");
                push_str(&mut out, b.as_str());
            },
            None => {},
        }
        out
    }
}

// ---------------------------------------------------------------------------
// The `version` declaration of a manifest
// ---------------------------------------------------------------------------

/// Why no version could be read from or bumped in a manifest.
#[derive(Debug, Clone, PartialEq, Eq)]
pub enum VersionError {
    /// The first `version` declaration holds text that is not a version.
    SemVer(SemVerError),
    /// No line declares a version.
    NotFound,
}

pub enum VersionErr {
    SemVer(SemVerErr),
    NotFound,
}

impl View for VersionError {
    type V = VersionErr;

    open spec fn view(&self) -> VersionErr {
        match self {
            VersionError::SemVer(e) => VersionErr::SemVer(e@),
            VersionError::NotFound => VersionErr::NotFound,
        }
    }
}

pub open spec fn version_error_message(e: VersionErr) -> Seq<char> {
    match e {
        VersionErr::SemVer(e) => semver_error_message(e),
        VersionErr::NotFound => "No valid 'version' declaration found in manifest content"@,
    }
}

impl VersionError {
    /// The text that describes the error.
    pub fn message(&self) -> (m: String)
        ensures
            m@ == version_error_message(self@),
    {
        match self {
            VersionError::SemVer(e) => e.message(),
            VersionError::NotFound => String::from_str(
                "No valid 'version' declaration found in manifest content",
            ),
        }
    }
}

/// Characters that may follow the word `version` in a declaration.
pub open spec fn version_follow(c: char) -> bool {
    c == ' ' || c == '\t' || c == '(' || c == '=' || c == '\'' || c == '"'
}

/// The quoted version of a `version` declaration line: the positions of the
/// opening and closing quote and the version between them. A line that is a
/// comment, that does not start with the word `version`, or that has no
/// quoted text gives `None`; quoted text that is not a version is an error.
/// The opening quote is the first `'` of the line, or else its first `"`.
pub open spec fn version_line(line: Seq<char>) -> Result<Option<(nat, nat, SemVerV)>, SemVerErr> {
    let t = trim(line);
    if "--"@.is_prefix_of(t) {
        Ok(None)
    } else if !"version"@.is_prefix_of(t) {
        Ok(None)
    } else if t.len() > "version"@.len() && !version_follow(t["version"@.len() as int]) {
        Ok(None)
    } else {
        let q = match find(line, '\'') {
            Some(i) => Some(i),
            None => find(line, '"'),
        };
        match q {
            None => Ok(None),
            Some(q) => {
                let qc = line[q as int];
                match find(line.skip(q + 1int), qc) {
                    None => Ok(None),
                    Some(o) => {
                        let e = q + 1 + o;
                        match parse_semver(line.subrange(q + 1int, e as int)) {
                            Ok(v) => Ok(Some((q, e, v))),
                            Err(er) => Err(er),
                        }
                    },
                }
            },
        }
    }
}

/// The index of the first line from `i` on that declares a version, unless a
/// line before it fails to parse.
pub open spec fn version_line_index(ls: Seq<Seq<char>>, i: nat) -> Result<Option<nat>, SemVerErr>
    decreases ls.len() - i,
{
    if i >= ls.len() {
        Ok(None)
    } else {
        match version_line(ls[i as int]) {
            Err(e) => Err(e),
            Ok(Some(_)) => Ok(Some(i)),
            Ok(None) => version_line_index(ls, i + 1),
        }
    }
}

/// The quote positions and version of a line that declares one.
pub open spec fn line_version(line: Seq<char>) -> (nat, nat, SemVerV) {
    match version_line(line) {
        Ok(Some(t)) => t,
        _ => arbitrary(),
    }
}

/// The first version declared in a manifest.
pub open spec fn manifest_semver(content: Seq<char>) -> Result<SemVerV, VersionErr> {
    let ls = lines(content);
    match version_line_index(ls, 0) {
        Err(e) => Err(VersionErr::SemVer(e)),
        Ok(None) => Err(VersionErr::NotFound),
        Ok(Some(i)) => Ok(line_version(ls[i as int]).2),
    }
}

/// The text of the first version declared in a manifest.
pub open spec fn manifest_version_string(content: Seq<char>) -> Result<Seq<char>, VersionErr> {
    match manifest_semver(content) {
        Ok(v) => Ok(version_string(v)),
        Err(e) => Err(e),
    }
}

/// A line with the version between its quotes replaced by `v`.
pub open spec fn replace_version(line: Seq<char>, q: nat, e: nat, v: Seq<char>) -> Seq<char> {
    line.take(q + 1int) + v + line.skip(e as int)
}

/// Whether the first declared version (if any) can take the bump.
pub open spec fn bumpable(content: Seq<char>, bt: BumpType) -> bool {
    manifest_semver(content) matches Ok(v) ==> can_bump(v, bt)
}

/// The manifest with its first declared version bumped, together with the old
/// and the new version text. Every other line is kept; lines are joined with
/// `\n`, and a final line ending is kept.
pub open spec fn updated_manifest(content: Seq<char>, bt: BumpType) -> Result<
    (Seq<char>, Seq<char>, Seq<char>),
    VersionErr,
> {
    let ls = lines(content);
    match version_line_index(ls, 0) {
        Err(e) => Err(VersionErr::SemVer(e)),
        Ok(None) => Err(VersionErr::NotFound),
        Ok(Some(i)) => {
            let (q, e, v) = line_version(ls[i as int]);
            let nv = bumped(v, bt);
            let new_line = replace_version(ls[i as int], q, e, version_string(nv));
            let body = crate::text::join(ls.update(i as int, new_line), "\n"@);
            let text = if content.len() > 0 && content.last() == '\n' {
                body.push('\n')
            } else {
                body
            };
            Ok((text, version_string(v), version_string(nv)))
        },
    }
}

pub open spec fn line_result_view(r: Result<Option<(usize, usize, SemVer)>, SemVerError>) -> Result<
    Option<(nat, nat, SemVerV)>,
    SemVerErr,
> {
    match r {
        Ok(Some((q, e, v))) => Ok(Some((q as nat, e as nat, v@))),
        Ok(None) => Ok(None),
        Err(e) => Err(e@),
    }
}

fn is_version_follow(c: char) -> (b: bool)
    ensures
        b == version_follow(c),
{
    c == ' ' || c == '\t' || c == '(' || c == '=' || c == '\'' || c == '"'
}

/// Reads the quoted version of a `version` declaration line.
fn try_extract_quoted_version(line: &[char]) -> (r: Result<
    Option<(usize, usize, SemVer)>,
    SemVerError,
>)
    ensures
        line_result_view(r) == version_line(line@),
        r matches Ok(Some((q, e, v))) ==> q < e < line@.len(),
{
    let (a, b) = trim_bounds(line, 0, line.len());
    proof {
        assert(line@.subrange(0, line@.len() as int) =~= line@);
    }
    let dashes = str_chars("--");
    if crate::text::range_starts_with(line, a, b, dashes.as_slice()) {
        return Ok(None);
    }
    let word = str_chars("version");
    if !crate::text::range_starts_with(line, a, b, word.as_slice()) {
        return Ok(None);
    }
    if b - a > word.len() && !is_version_follow(line[a + word.len()]) {
        return Ok(None);
    }
    let n = line.len();
    let single = find_from(line, '\'', 0, n);
    proof {
        lemma_find_is(line@.subrange(0, n as int), '\'', single as int);
        assert(line@.subrange(0, n as int) =~= line@);
    }
    let q = if single < n {
        single
    } else {
        let double = find_from(line, '"', 0, n);
        proof {
            lemma_find_is(line@.subrange(0, n as int), '"', double as int);
        }
        double
    };
    if q == n {
        return Ok(None);
    }
    let qc = line[q];
    let e = find_from(line, qc, q + 1, n);
    proof {
        lemma_find_is(line@.subrange(q + 1, n as int), qc, e - (q + 1));
        assert(line@.subrange(q + 1, n as int) =~= line@.skip(q + 1));
    }
    if e == n {
        return Ok(None);
    }
    let mut inner: Vec<char> = Vec::new();
    let mut k = q + 1;
    while k < e
        invariant
            q + 1 <= k <= e <= line@.len(),
            inner@ == line@.subrange(q + 1, k as int),
        decreases e - k,
    {
        inner.push(line[k]);
        k = k + 1;
        assert(inner@ =~= line@.subrange(q + 1, k as int));
    }
    match SemVer::parse_chars(inner.as_slice()) {
        Ok(v) => Ok(Some((q, e, v))),
        Err(er) => Err(er),
    }
}

/// Finds the first line that declares a version.
fn find_version_line(ls: &Vec<Vec<char>>, content: Ghost<Seq<char>>) -> (r: Result<
    Option<(usize, usize, usize, SemVer)>,
    SemVerError,
>)
    requires
        ls@.len() == lines(content@).len(),
        forall|i: int| 0 <= i < ls@.len() ==> #[trigger] ls@[i]@ == lines(content@)[i],
    ensures
        match (r, version_line_index(lines(content@), 0)) {
            (Ok(Some((i, q, e, v))), Ok(Some(si))) => i == si && i < ls@.len() && (q as nat, e as nat, v@)
                == line_version(ls@[i as int]@) && q < e < ls@[i as int]@.len(),
            (Ok(None), Ok(None)) => true,
            (Err(er), Err(se)) => er@ == se,
            _ => false,
        },
{
    let ghost lv = lines(content@);
    let mut i: usize = 0;
    while i < ls.len()
        invariant
            i <= ls@.len(),
            ls@.len() == lv.len(),
            lv == lines(content@),
            forall|j: int| 0 <= j < ls@.len() ==> #[trigger] ls@[j]@ == lv[j],
            version_line_index(lv, 0) == version_line_index(lv, i as nat),
        decreases ls.len() - i,
    {
        let line = ls[i].as_slice();
        proof {
            assert(ls@[i as int]@ == lv[i as int]);
        }
        match try_extract_quoted_version(line) {
            Err(e) => {
                return Err(e);
            },
            Ok(Some((q, e, v))) => {
                return Ok(Some((i, q, e, v)));
            },
            Ok(None) => {},
        }
        i = i + 1;
    }
    Ok(None)
}

/// The first version declared in the manifest text.
pub fn manifest_version(content: &str) -> (r: Result<SemVer, VersionError>)
    ensures
        match (r, manifest_semver(content@)) {
            (Ok(v), Ok(sv)) => v@ == sv,
            (Err(e), Err(se)) => e@ == se,
            _ => false,
        },
{
    let chars = str_chars(content);
    let ls = split_lines(chars.as_slice());
    match find_version_line(&ls, Ghost(content@)) {
        Err(e) => Err(VersionError::SemVer(e)),
        Ok(None) => Err(VersionError::NotFound),
        Ok(Some((_, _, _, v))) => Ok(v),
    }
}

/// The text of the first version declared in the manifest text.
pub fn extract_version(content: &str) -> (r: Result<String, VersionError>)
    ensures
        match (r, manifest_version_string(content@)) {
            (Ok(s), Ok(ss)) => s@ == ss,
            (Err(e), Err(se)) => e@ == se,
            _ => false,
        },
{
    match manifest_version(content) {
        Ok(v) => Ok(v.to_version_string()),
        Err(e) => Err(e),
    }
}

/// Bumps the first version declared in the manifest text, keeping the
/// declaration's syntax; returns the new text, the old and the new version.
pub fn update_manifest_version(content: &str, bump_type: BumpType) -> (r: Result<
    (String, String, String),
    VersionError,
>)
    requires
        bumpable(content@, bump_type),
    ensures
        match (r, updated_manifest(content@, bump_type)) {
            (Ok((t, o, n)), Ok((st, so, sn))) => t@ == st && o@ == so && n@ == sn,
            (Err(e), Err(se)) => e@ == se,
            _ => false,
        },
{
    let chars = str_chars(content);
    let ls = split_lines(chars.as_slice());
    let ghost lv = lines(content@);
    match find_version_line(&ls, Ghost(content@)) {
        Err(e) => Err(VersionError::SemVer(e)),
        Ok(None) => Err(VersionError::NotFound),
        Ok(Some((i, q, e, v))) => {
            let old_ver = v.to_version_string();
            let mut nv = v;
            nv.bump(bump_type);
            let new_ver = nv.to_version_string();
            let line = ls[i].as_slice();
            let mut updated_line = String::new();
            push_range(&mut updated_line, line, 0, q + 1);
            push_str(&mut updated_line, new_ver.as_str());
            push_range(&mut updated_line, line, e, line.len());
            proof {
                assert(line@.subrange(0, q + 1) =~= line@.take(q + 1));
                assert(line@.subrange(e as int, line@.len() as int) =~= line@.skip(e as int));
            }
            let ghost new_line = updated_line@;
            let ghost nl = lv.update(i as int, new_line);
            let mut text = String::new();
            let mut k: usize = 0;
            while k < ls.len()
                invariant
                    k <= ls@.len(),
                    ls@.len() == lv.len() == nl.len(),
                    i < ls@.len(),
                    nl == lv.update(i as int, new_line),
                    new_line == updated_line@,
                    forall|j: int| 0 <= j < ls@.len() ==> #[trigger] ls@[j]@ == lv[j],
                    k > 0 ==> text@ == crate::text::join(nl.take(k as int), "\n"@),
                    k == 0 ==> text@ == Seq::<char>::empty(),
                decreases ls.len() - k,
            {
                let ghost before = text@;
                if k > 0 {
                    push_str(&mut text, "\n");
                }
                if k == i {
                    push_str(&mut text, updated_line.as_str());
                } else {
                    let l = ls[k].as_slice();
                    push_range(&mut text, l, 0, l.len());
                    proof {
                        assert(l@.subrange(0, l@.len() as int) =~= l@);
                    }
                }
                proof {
                    assert(nl[k as int] == (if k == i { new_line } else { lv[k as int] }));
                    if k > 0 {
                        assert(nl.take(k + 1).drop_last() =~= nl.take(k as int));
                        assert(text@ =~= before + "\n"@ + nl[k as int]);
                    } else {
                        assert(text@ =~= nl[0]);
                        assert(nl.take(1) =~= seq![nl[0]]);
                    }
                }
                k = k + 1;
            }
            let n = chars.len();
            if n > 0 && chars[n - 1] == '\n' {
                push_char(&mut text, '\n');
            }
            proof {
                assert(nl.take(ls@.len() as int) =~= nl);
                if ls@.len() == 0 {
                    assert(false);
                }
            }
            Ok((text, old_ver, new_ver))
        },
    }
}

// ---------------------------------------------------------------------------
// Laws
// ---------------------------------------------------------------------------

/// A version whose text reads back as itself: its prerelease holds no `+` and
/// its text does not end in whitespace.
pub open spec fn semver_well_formed(v: SemVerV) -> bool {
    &&& v.prerelease matches Some(p) ==> forall|k: int| 0 <= k < p.len() ==> p[k] != '+'
    &&& !is_ws(version_string(v).last())
}

pub proof fn lemma_find_concat(a: Seq<char>, b: Seq<char>, c: char)
    ensures
        find(a + b, c) == (match find(a, c) {
            Some(i) => Some(i),
            None => match find(b, c) {
                Some(j) => Some(j + a.len()),
                None => None,
            },
        }),
    decreases a.len(),
{
    if a.len() == 0 {
        assert(a + b =~= b);
    } else {
        assert((a + b).drop_first() =~= a.drop_first() + b);
        lemma_find_concat(a.drop_first(), b, c);
    }
}

pub proof fn lemma_find_none(s: Seq<char>, c: char)
    requires
        forall|k: int| 0 <= k < s.len() ==> s[k] != c,
    ensures
        find(s, c) is None,
{
    crate::text::lemma_find_is(s, c, s.len() as int);
}

proof fn lemma_digits_no(s: Seq<char>, c: char)
    requires
        crate::text::all_digits(s),
        !crate::text::is_digit(c),
    ensures
        find(s, c) is None,
{
    assert forall|k: int| 0 <= k < s.len() implies s[k] != c by {
        assert(crate::text::is_digit(s[k]));
    }
    lemma_find_none(s, c);
}

proof fn lemma_trim_fixed(s: Seq<char>)
    requires
        s.len() > 0,
        !is_ws(s[0]),
        !is_ws(s.last()),
    ensures
        trim(s) == s,
{
}

/// The numeric part `d1.d2.d3` splits into its three numbers.
proof fn lemma_split_core(d1: Seq<char>, d2: Seq<char>, d3: Seq<char>)
    requires
        crate::text::all_digits(d1),
        crate::text::all_digits(d2),
        crate::text::all_digits(d3),
    ensures
        split(d1 + "."@ + d2 + "."@ + d3, '.') == seq![d1, d2, d3],
{
    reveal_strlit(".");
    lemma_digits_no(d1, '.');
    lemma_digits_no(d2, '.');
    lemma_digits_no(d3, '.');
    let s = d1 + "."@ + d2 + "."@ + d3;
    lemma_find_concat(d1, "."@ + d2 + "."@ + d3, '.');
    assert(d1 + ("."@ + d2 + "."@ + d3) =~= s);
    assert(find("."@ + d2 + "."@ + d3, '.') == Some(0nat));
    let r1 = d2 + "."@ + d3;
    assert(s.take(d1.len() as int) =~= d1);
    assert(s.skip(d1.len() + 1int) =~= r1);
    lemma_find_concat(d2, "."@ + d3, '.');
    assert(d2 + ("."@ + d3) =~= r1);
    assert(find("."@ + d3, '.') == Some(0nat));
    assert(r1.take(d2.len() as int) =~= d2);
    assert(r1.skip(d2.len() + 1int) =~= d3);
    assert(split(d3, '.') == seq![d3]);
    assert(split(r1, '.') =~= seq![d2, d3]);
    assert(split(s, '.') =~= seq![d1, d2, d3]);
}

/// Reading back the text of a well-formed version gives the version.
pub proof fn lemma_version_string_parses(v: SemVerV)
    requires
        semver_well_formed(v),
    ensures
        parse_semver(version_string(v)) == Ok::<SemVerV, SemVerErr>(v),
{
    reveal_strlit(".");
    reveal_strlit("-");
    reveal_strlit("+");
    let d1 = decimal(v.major as nat);
    let d2 = decimal(v.minor as nat);
    let d3 = decimal(v.patch as nat);
    crate::text::lemma_decimal_digits(v.major as nat);
    crate::text::lemma_decimal_digits(v.minor as nat);
    crate::text::lemma_decimal_digits(v.patch as nat);
    crate::text::lemma_parse_decimal(v.major);
    crate::text::lemma_parse_decimal(v.minor);
    crate::text::lemma_parse_decimal(v.patch);
    let core = d1 + "."@ + d2 + "."@ + d3;
    // the numeric part holds neither '+' nor '-'
    assert forall|k: int| 0 <= k < core.len() implies core[k] != '+' && core[k] != '-' by {
        if k < d1.len() {
            assert(core[k] == d1[k]);
            assert(crate::text::is_digit(d1[k]));
        } else if k == d1.len() {
        } else if k < d1.len() + 1 + d2.len() {
            assert(core[k] == d2[k - d1.len() - 1]);
            assert(crate::text::is_digit(d2[k - d1.len() - 1]));
        } else if k == d1.len() + 1 + d2.len() {
        } else {
            assert(core[k] == d3[k - d1.len() - 2 - d2.len()]);
            assert(crate::text::is_digit(d3[k - d1.len() - 2 - d2.len()]));
        }
    }
    lemma_find_none(core, '+');
    lemma_find_none(core, '-');
    let with_pre = match v.prerelease {
        Some(p) => core + "-"@ + p,
        None => core,
    };
    let vs = version_string(v);
    assert(vs[0] == d1[0]);
    assert(crate::text::is_digit(d1[0]));
    lemma_trim_fixed(vs);
    assert(strip_v(trim(vs)) == vs);
    // '+' is only the build separator
    assert(find(with_pre, '+') is None) by {
        if let Some(p) = v.prerelease {
            lemma_find_none(p, '+');
            assert("-"@.len() == 1 && "-"@[0] == '-');
            lemma_find_none("-"@, '+');
            lemma_find_concat(core, "-"@, '+');
            lemma_find_concat(core + "-"@, p, '+');
        }
    }
    assert(split_once(vs, '+') == (match v.build {
        Some(b) => Some((with_pre, b)),
        None => None::<(Seq<char>, Seq<char>)>,
    })) by {
        if let Some(b) = v.build {
            lemma_find_concat(with_pre, "+"@ + b, '+');
            assert(with_pre + ("+"@ + b) =~= vs);
            assert(vs.take(with_pre.len() as int) =~= with_pre);
            assert(vs.skip(with_pre.len() + 1int) =~= b);
        }
    }
    assert(split_once(with_pre, '-') == (match v.prerelease {
        Some(p) => Some((core, p)),
        None => None::<(Seq<char>, Seq<char>)>,
    })) by {
        if let Some(p) = v.prerelease {
            lemma_find_concat(core, "-"@ + p, '-');
            assert(core + ("-"@ + p) =~= with_pre);
            assert(with_pre.take(core.len() as int) =~= core);
            assert(with_pre.skip(core.len() + 1int) =~= p);
        }
    }
    assert(semver_pieces(vs) == (core, v.prerelease, v.build));
    lemma_split_core(d1, d2, d3);
}

proof fn lemma_trim_last(s: Seq<char>)
    ensures
        trim(s).len() > 0 ==> !is_ws(trim(s).last()),
        trim(s).len() > 0 ==> !is_ws(trim(s)[0]),
{
    lemma_trim_start_first(s);
    lemma_trim_end_last(crate::text::trim_start(s));
    lemma_trim_end_prefix(crate::text::trim_start(s));
}

proof fn lemma_trim_start_first(s: Seq<char>)
    ensures
        crate::text::trim_start(s).len() > 0 ==> !is_ws(crate::text::trim_start(s)[0]),
    decreases s.len(),
{
    if s.len() > 0 && is_ws(s[0]) {
        lemma_trim_start_first(s.drop_first());
    }
}

proof fn lemma_trim_end_last(s: Seq<char>)
    ensures
        crate::text::trim_end(s).len() > 0 ==> !is_ws(crate::text::trim_end(s).last()),
    decreases s.len(),
{
    if s.len() > 0 && is_ws(s.last()) {
        lemma_trim_end_last(s.drop_last());
    }
}

proof fn lemma_trim_end_prefix(s: Seq<char>)
    ensures
        crate::text::trim_end(s).is_prefix_of(s),
    decreases s.len(),
{
    if s.len() > 0 && is_ws(s.last()) {
        lemma_trim_end_prefix(s.drop_last());
        let t = crate::text::trim_end(s.drop_last());
        assert forall|k: int| 0 <= k < t.len() implies t[k] == s[k] by {
            assert(t[k] == s.drop_last()[k]);
        }
    } else {
        assert(s.take(s.len() as int) =~= s);
    }
}

/// Every parsed version is well formed.
pub proof fn lemma_parsed_well_formed(input: Seq<char>)
    requires
        parse_semver(input) is Ok,
    ensures
        semver_well_formed(parse_semver(input)->Ok_0),
{
    reveal_strlit(".");
    reveal_strlit("-");
    reveal_strlit("+");
    let v = parse_semver(input)->Ok_0;
    let t = trim(input);
    let s = strip_v(t);
    lemma_trim_last(input);
    let (s1, build) = match split_once(s, '+') {
        Some((a, b)) => (a, Some(b)),
        None => (s, None),
    };
    crate::text::lemma_find_bounds(s, '+');
    crate::text::lemma_find_bounds(s1, '-');
    // the prerelease lies before the first '+'
    if let Some(p) = v.prerelease {
        let j = find(s1, '-')->0;
        assert(p =~= s1.skip(j + 1int));
        assert forall|k: int| 0 <= k < p.len() implies p[k] != '+' by {
            assert(p[k] == s1[j + 1 + k]);
            if let Some(i) = find(s, '+') {
                assert(s1 =~= s.take(i as int));
                assert(s1[j + 1 + k] == s[j + 1 + k]);
            }
        }
    }
    // the last character
    crate::text::lemma_decimal_digits(v.patch as nat);
    let d3 = decimal(v.patch as nat);
    assert(crate::text::is_digit(d3.last()));
    let vs = version_string(v);
    if s.len() > 0 {
        assert(s.last() == t.last());
    }
    match v.build {
        Some(b) => {
            let i = find(s, '+')->0;
            assert(b =~= s.skip(i + 1int));
            if b.len() > 0 {
                assert(b.last() == s.last());
            }
            assert(vs.last() == (if b.len() > 0 { b.last() } else { '+' }));
        },
        None => {
            assert(s1 == s);
            match v.prerelease {
                Some(p) => {
                    let j = find(s1, '-')->0;
                    assert(p =~= s1.skip(j + 1int));
                    if p.len() > 0 {
                        assert(p.last() == s.last());
                    }
                    assert(vs.last() == (if p.len() > 0 { p.last() } else { '-' }));
                },
                None => {
                    assert(vs.last() == d3.last());
                },
            }
        },
    }
}

/// Writing a parsed version and reading it back gives the same version.
pub proof fn lemma_semver_round_trip(input: Seq<char>)
    requires
        parse_semver(input) is Ok,
    ensures
        parse_semver(version_string(parse_semver(input)->Ok_0)) == parse_semver(input),
{
    lemma_parsed_well_formed(input);
    lemma_version_string_parses(parse_semver(input)->Ok_0);
}

/// Parsing the text of a version gives the version back whenever its
/// prerelease holds no `+` and neither its prerelease nor its build metadata
/// holds whitespace.
pub proof fn lemma_version_text_parses_back(v: SemVerV)
    requires
        v.prerelease matches Some(p) ==> forall|k: int|
            0 <= k < p.len() ==> #[trigger] p[k] != '+' && !is_ws(p[k]),
        v.build matches Some(b) ==> forall|k: int| 0 <= k < b.len() ==> !is_ws(#[trigger] b[k]),
    ensures
        parse_semver(version_string(v)) == Ok::<SemVerV, SemVerErr>(v),
{
    reveal_strlit("-");
    reveal_strlit("+");
    crate::text::lemma_decimal_digits(v.patch as nat);
    let d3 = decimal(v.patch as nat);
    assert(crate::text::is_digit(d3.last()));
    let vs = version_string(v);
    match v.build {
        Some(b) => {
            if b.len() > 0 {
                assert(vs.last() == b.last());
                assert(!is_ws(b[b.len() - 1]));
            } else {
                assert(vs.last() == '+');
            }
        },
        None => {
            match v.prerelease {
                Some(p) => {
                    if p.len() > 0 {
                        assert(vs.last() == p.last());
                        assert(!is_ws(p[p.len() - 1]));
                    } else {
                        assert(vs.last() == '-');
                    }
                },
                None => {
                    assert(vs.last() == d3.last());
                },
            }
        },
    }
    assert(semver_well_formed(v));
    lemma_version_string_parses(v);
}

/// What `SemVer::parse` accepts and what it reads: with `s` the trimmed input
/// without one leading `v`, the build metadata is what follows the first `+`
/// of `s`, the prerelease what follows the first `-` before it, and the text
/// before both must be three `.`-separated `u64` numbers, which are the major,
/// minor and patch numbers.
pub proof fn lemma_semver_reads(input: Seq<char>)
    ensures
        ({
            let s = strip_v(trim(input));
            let (core0, build) = match split_once(s, '+') {
                Some((a, b)) => (a, Some(b)),
                None => (s, None),
            };
            let (core, prerelease) = match split_once(core0, '-') {
                Some((a, p)) => (a, Some(p)),
                None => (core0, None),
            };
            let parts = split(core, '.');
            &&& parse_semver(input) is Ok <==> parts.len() == 3 && parse_u64(parts[0]) is Some
                && parse_u64(parts[1]) is Some && parse_u64(parts[2]) is Some
            &&& parse_semver(input) is Ok ==> parse_semver(input)->Ok_0 == (SemVerV {
                major: parse_u64(parts[0])->0,
                minor: parse_u64(parts[1])->0,
                patch: parse_u64(parts[2])->0,
                prerelease,
                build,
            })
        }),
{
}

} // verus!
