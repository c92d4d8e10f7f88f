//! Lint rules for a parsed `fxmanifest.lua`.
use crate::ast::{
    ascii_lowercase, ascii_lowercase_range, key_name, str_eq, strs_view, values_of, GameV, Key,
    KeyV, Manifest, ManifestV, StatementV, first_scalar,
};
use crate::diagnostic::{Diagnostic, Severity};
use crate::text::{
    chars_eq, contains_chars, decimal, push_decimal, push_str, str_chars, trim, trim_bounds,
};
use vstd::prelude::*;

verus! {

/// The severity and message of a diagnostic.
pub open spec fn diag_view(d: Diagnostic) -> (Severity, Seq<char>) {
    (d.severity, d.message@)
}

/// The severities and messages of diagnostics.
pub open spec fn diags_view(v: Seq<Diagnostic>) -> Seq<(Severity, Seq<char>)> {
    v.map_values(|d: Diagnostic| diag_view(d))
}

/// An error with message `m`.
pub open spec fn err(m: Seq<char>) -> (Severity, Seq<char>) {
    (Severity::Error, m)
}

/// A warning with message `m`.
pub open spec fn warn(m: Seq<char>) -> (Severity, Seq<char>) {
    (Severity::Warning, m)
}

// ---------------------------------------------------------------------------
// Required declarations
// ---------------------------------------------------------------------------

/// `fx_version` and `game` are required, should name known values, and
/// `lua54 'yes'` is recommended.
pub open spec fn declaration_checks(m: ManifestV) -> Seq<(Severity, Seq<char>)> {
    let fx = match m.fx_version {
        None => seq![err("missing required declaration 'fx_version'"@)],
        Some(v) => if v != "cerulean"@ {
            seq![warn("unknown fx_version '"@ + v + "' (expected \"cerulean\")"@)]
        } else {
            seq![]
        },
    };
    let game = match m.game {
        None => seq![err("missing required declaration 'game'"@)],
        Some(GameV::Other(name)) => seq![warn("unknown game '"@ + name + "'"@)],
        Some(_) => seq![],
    };
    let lua = match first_scalar(m.statements, KeyV::Lua54) {
        Some(v) => trim(v) == "yes"@,
        None => false,
    };
    fx + game + if lua {
        seq![]
    } else {
        seq![warn("'lua54' is not enabled; FiveM expects lua54 'yes'"@)]
    }
}

/// No diagnostic carries a span: the manifest rules report no location.
pub open spec fn spanless(v: Seq<Diagnostic>) -> bool {
    forall|i: int| 0 <= i < v.len() ==> (#[trigger] v[i]).span is None
}

fn push_diag(out: &mut Vec<Diagnostic>, severity: Severity, message: String)
    ensures
        diags_view(final(out)@) == diags_view(old(out)@).push((severity, message@)),
        spanless(old(out)@) ==> spanless(final(out)@),
{
    let d = match severity {
        Severity::Error => Diagnostic::error(message),
        Severity::Warning => Diagnostic::warning(message),
    };
    let ghost before = diags_view(out@);
    let ghost prev = out@;
    out.push(d);
    proof {
        assert(diags_view(out@) =~= before.push((severity, d.message@)));
        if spanless(prev) {
            assert forall|i: int| 0 <= i < out@.len() implies (#[trigger] out@[i]).span is None by {
                if i < prev.len() {
                    assert(out@[i] == prev[i]);
                }
            }
        }
    }
}

/// Checks the required declarations: `fx_version`, `game` and `lua54 'yes'`.
pub fn check_declarations(manifest: &Manifest) -> (out: Vec<Diagnostic>)
    ensures
        diags_view(out@) == declaration_checks(manifest@),
        spanless(out@),
{
    let mut out: Vec<Diagnostic> = Vec::new();
    match &manifest.fx_version {
        None => push_diag(
            &mut out,
            Severity::Error,
            String::from_str("missing required declaration 'fx_version'"),
        ),
        Some(version) => {
            if !str_eq(version.as_str(), "cerulean") {
                let mut m = String::from_str("unknown fx_version '");
                push_str(&mut m, version.as_str());
                push_str(&mut m, "' (expected \"cerulean\")");
                push_diag(&mut out, Severity::Warning, m);
            }
        },
    }
    let ghost after_fx = diags_view(out@);
    match &manifest.game {
        None => push_diag(
            &mut out,
            Severity::Error,
            String::from_str("missing required declaration 'game'"),
        ),
        Some(crate::ast::Game::Other(name)) => {
            let mut m = String::from_str("unknown game '");
            push_str(&mut m, name.as_str());
            push_str(&mut m, "'");
            push_diag(&mut out, Severity::Warning, m);
        },
        Some(_) => {},
    }
    let ghost after_game = diags_view(out@);
    let lua = manifest.get(&Key::Lua54);
    let enabled = match lua {
        Some(v) => {
            let c = str_chars(v);
            let (a, b) = trim_bounds(c.as_slice(), 0, c.len());
            proof {
                assert(c@.subrange(0, c@.len() as int) =~= c@);
            }
            let yes = str_chars("yes");
            crate::text::range_eq(c.as_slice(), a, b, yes.as_slice())
        },
        None => false,
    };
    if !enabled {
        push_diag(
            &mut out,
            Severity::Warning,
            String::from_str("'lua54' is not enabled; FiveM expects lua54 'yes'"),
        );
    }
    proof {
        assert(diags_view(out@) =~= declaration_checks(manifest@));
    }
    out
}

// ---------------------------------------------------------------------------
// Script and file entries
// ---------------------------------------------------------------------------

/// The keys whose entries name files of the resource.
pub open spec fn file_keys() -> Seq<KeyV> {
    seq![KeyV::ClientScripts, KeyV::ServerScripts, KeyV::SharedScripts, KeyV::Files]
}

/// `*` or `?` makes an entry a pattern rather than a path.
pub open spec fn is_glob_spec(e: Seq<char>) -> bool {
    e.contains('*') || e.contains('?')
}

/// Entries that `check_script_files` looks for on disk: not a resource
/// reference (`@...`) and not a pattern.
pub open spec fn checked_entry(e: Seq<char>) -> bool {
    !(e.len() > 0 && e[0] == '@') && !is_glob_spec(e)
}

/// The diagnostics for the entries `es[from..]` of one key, with `seen` the
/// checked entries before them.
pub open spec fn entry_checks(
    key: KeyV,
    es: Seq<Seq<char>>,
    seen: Seq<Seq<char>>,
    existing: Seq<Seq<char>>,
) -> Seq<(Severity, Seq<char>)>
    decreases es.len(),
{
    if es.len() == 0 {
        seq![]
    } else {
        let e = es[0];
        if !checked_entry(e) {
            entry_checks(key, es.drop_first(), seen, existing)
        } else {
            let missing = if existing.contains(e) {
                seq![]
            } else {
                seq![err("'"@ + key_name(key) + "' entry '"@ + e + "' does not exist on disk"@)]
            };
            let dup = if seen.contains(e) {
                seq![err("duplicate entry '"@ + e + "' in '"@ + key_name(key) + "'"@)]
            } else {
                seq![]
            };
            missing + dup + entry_checks(key, es.drop_first(), seen.push(e), existing)
        }
    }
}

/// Entries of the script and file keys must exist (`existing` lists the
/// entries that name files on disk) and must not repeat within a key.
pub open spec fn script_file_checks(m: ManifestV, existing: Seq<Seq<char>>) -> Seq<
    (Severity, Seq<char>),
> {
    entry_checks(KeyV::ClientScripts, values_of(m.statements, KeyV::ClientScripts), seq![], existing)
        + entry_checks(
        KeyV::ServerScripts,
        values_of(m.statements, KeyV::ServerScripts),
        seq![],
        existing,
    ) + entry_checks(
        KeyV::SharedScripts,
        values_of(m.statements, KeyV::SharedScripts),
        seq![],
        existing,
    ) + entry_checks(KeyV::Files, values_of(m.statements, KeyV::Files), seq![], existing)
}

/// Whether an entry is a glob pattern (it holds `*` or `?`).
pub fn is_glob(entry: &[char]) -> (b: bool)
    ensures
        b == is_glob_spec(entry@),
{
    let n = entry.len();
    let star = crate::text::find_from(entry, '*', 0, n);
    let question = crate::text::find_from(entry, '?', 0, n);
    proof {
        if star < n {
            assert(entry@[star as int] == '*');
        }
        if question < n {
            assert(entry@[question as int] == '?');
        }
    }
    star < n || question < n
}

fn is_checked_entry(e: &[char]) -> (b: bool)
    ensures
        b == checked_entry(e@),
{
    !(e.len() > 0 && e[0] == '@') && !is_glob(e)
}

/// The checked entries of the values of one key.
pub open spec fn checked_values(m: ManifestV, key: KeyV) -> Seq<Seq<char>> {
    values_of(m.statements, key).filter(|e: Seq<char>| checked_entry(e))
}

/// The entries of the script and file keys to look for on disk, in order.
pub open spec fn file_entry_list(m: ManifestV) -> Seq<Seq<char>> {
    checked_values(m, KeyV::ClientScripts) + checked_values(m, KeyV::ServerScripts)
        + checked_values(m, KeyV::SharedScripts) + checked_values(m, KeyV::Files)
}

/// The texts of owned strings.
pub open spec fn owned_strings_view(v: Seq<String>) -> Seq<Seq<char>> {
    v.map_values(|s: String| s@)
}

fn push_checked(r: &mut Vec<String>, vals: &Vec<&str>)
    ensures
        owned_strings_view(final(r)@) == owned_strings_view(old(r)@) + strs_view(vals@).filter(
            |e: Seq<char>| checked_entry(e),
        ),
{
    let ghost vv = strs_view(vals@);
    let mut j: usize = 0;
    proof {
        assert(vv.take(0).filter(|e: Seq<char>| checked_entry(e)) =~= seq![]) by {
            reveal_with_fuel(Seq::<_>::filter, 1);
        }
        assert(owned_strings_view(r@) =~= owned_strings_view(old(r)@) + vv.take(0).filter(
            |e: Seq<char>| checked_entry(e),
        ));
    }
    while j < vals.len()
        invariant
            j <= vals@.len(),
            vv == strs_view(vals@),
            owned_strings_view(r@) == owned_strings_view(old(r)@) + vv.take(j as int).filter(
                |e: Seq<char>| checked_entry(e),
            ),
        decreases vals.len() - j,
    {
        let ghost before = owned_strings_view(r@);
        let c = str_chars(vals[j]);
        proof {
            assert(vv[j as int] == vals@[j as int]@);
            assert(vv.take(j + 1).drop_last() =~= vv.take(j as int));
            reveal_with_fuel(Seq::<_>::filter, 1);
        }
        if is_checked_entry(c.as_slice()) {
            r.push(String::from_str(vals[j]));
            proof {
                assert(owned_strings_view(r@) =~= before.push(vv[j as int]));
            }
        }
        j = j + 1;
    }
    proof {
        assert(vv.take(j as int) =~= vv);
    }
}

/// The entries of the script and file keys to look for on disk, in order.
pub fn file_entries(manifest: &Manifest) -> (r: Vec<String>)
    ensures
        owned_strings_view(r@) == file_entry_list(manifest@),
{
    let mut r: Vec<String> = Vec::new();
    let client = manifest.values(&Key::ClientScripts);
    push_checked(&mut r, &client);
    let server = manifest.values(&Key::ServerScripts);
    push_checked(&mut r, &server);
    let shared = manifest.values(&Key::SharedScripts);
    push_checked(&mut r, &shared);
    let files = manifest.values(&Key::Files);
    push_checked(&mut r, &files);
    proof {
        assert(owned_strings_view(r@) =~= file_entry_list(manifest@));
    }
    r
}

/// The diagnostics for the values of one key.
fn check_entries(key: &Key, vals: &Vec<&str>, existing: &Vec<Vec<char>>, out: &mut Vec<Diagnostic>)
    requires
        spanless(old(out)@),
    ensures
        spanless(final(out)@),
        diags_view(final(out)@) == diags_view(old(out)@) + entry_checks(
            key@,
            strs_view(vals@),
            seq![],
            existing@.map_values(|v: Vec<char>| v@),
        ),
{
    let ghost ev = existing@.map_values(|v: Vec<char>| v@);
    let ghost vv = strs_view(vals@);
    let mut seen: Vec<Vec<char>> = Vec::new();
    let mut j: usize = 0;
    proof {
        assert(vv.skip(0) =~= vv);
        assert(seen@.map_values(|v: Vec<char>| v@) =~= seq![]);
    }
    while j < vals.len()
        invariant
            j <= vals@.len(),
            vv == strs_view(vals@),
            ev == existing@.map_values(|v: Vec<char>| v@),
            spanless(out@),
            diags_view(old(out)@) + entry_checks(key@, vv, seq![], ev) == diags_view(out@)
                + entry_checks(key@, vv.skip(j as int), seen@.map_values(|v: Vec<char>| v@), ev),
        decreases vals.len() - j,
    {
        let ghost sv = seen@.map_values(|v: Vec<char>| v@);
        let ghost before = diags_view(out@);
        let e = str_chars(vals[j]);
        proof {
            assert(vv.skip(j as int)[0] == e@);
            assert(vv.skip(j as int).drop_first() =~= vv.skip(j + 1));
        }
        if is_checked_entry(e.as_slice()) {
            if !contains_chars(existing, e.as_slice()) {
                let mut m = String::from_str("'");
                push_str(&mut m, key.as_str());
                push_str(&mut m, "' entry '");
                push_str(&mut m, vals[j]);
                push_str(&mut m, "' does not exist on disk");
                push_diag(out, Severity::Error, m);
            }
            let ghost mid = diags_view(out@);
            if contains_chars(&seen, e.as_slice()) {
                let mut m = String::from_str("duplicate entry '");
                push_str(&mut m, vals[j]);
                push_str(&mut m, "' in '");
                push_str(&mut m, key.as_str());
                push_str(&mut m, "'");
                push_diag(out, Severity::Error, m);
            }
            seen.push(e);
            proof {
                assert(seen@.map_values(|v: Vec<char>| v@) =~= sv.push(vv[j as int]));
                let missing = if ev.contains(vv[j as int]) {
                    seq![]
                } else {
                    seq![
                        err("'"@ + key_name(key@) + "' entry '"@ + vv[j as int]
                            + "' does not exist on disk"@),
                    ]
                };
                let dup = if sv.contains(vv[j as int]) {
                    seq![err("duplicate entry '"@ + vv[j as int] + "' in '"@ + key_name(key@) + "'"@)]
                } else {
                    seq![]
                };
                assert(mid =~= before + missing);
                assert(diags_view(out@) =~= before + missing + dup);
            }
        }
        j = j + 1;
    }
    proof {
        assert(vv.skip(j as int) =~= seq![]);
        assert(diags_view(out@) =~= diags_view(out@) + entry_checks(
            key@,
            vv.skip(j as int),
            seen@.map_values(|v: Vec<char>| v@),
            ev,
        ));
    }
}

/// Checks that script and file entries exist and are not repeated. `existing`
/// holds the entries that name files on disk.
pub fn check_script_files(manifest: &Manifest, existing: &Vec<String>) -> (out: Vec<Diagnostic>)
    ensures
        diags_view(out@) == script_file_checks(manifest@, existing@.map_values(|s: String| s@)),
        spanless(out@),
{
    let mut ex: Vec<Vec<char>> = Vec::new();
    let mut i: usize = 0;
    while i < existing.len()
        invariant
            i <= existing@.len(),
            ex@.map_values(|v: Vec<char>| v@) == existing@.map_values(|s: String| s@).take(
                i as int,
            ),
        decreases existing.len() - i,
    {
        let c = str_chars(existing[i].as_str());
        let ghost before = ex@.map_values(|v: Vec<char>| v@);
        ex.push(c);
        proof {
            assert(ex@.map_values(|v: Vec<char>| v@) =~= before.push(existing@[i as int]@));
            assert(existing@.map_values(|s: String| s@).take(i + 1) =~= existing@.map_values(
                |s: String| s@,
            ).take(i as int).push(existing@[i as int]@));
        }
        i = i + 1;
        assert(ex@.map_values(|v: Vec<char>| v@) =~= existing@.map_values(|s: String| s@).take(
            i as int,
        ));
    }
    proof {
        assert(existing@.map_values(|s: String| s@).take(i as int) =~= existing@.map_values(
            |s: String| s@,
        ));
    }
    let mut out: Vec<Diagnostic> = Vec::new();
    let ghost m = manifest@;
    let client = manifest.values(&Key::ClientScripts);
    check_entries(&Key::ClientScripts, &client, &ex, &mut out);
    let server = manifest.values(&Key::ServerScripts);
    check_entries(&Key::ServerScripts, &server, &ex, &mut out);
    let shared = manifest.values(&Key::SharedScripts);
    check_entries(&Key::SharedScripts, &shared, &ex, &mut out);
    let files = manifest.values(&Key::Files);
    check_entries(&Key::Files, &files, &ex, &mut out);
    proof {
        assert(diags_view(out@) =~= script_file_checks(
            manifest@,
            existing@.map_values(|s: String| s@),
        ));
    }
    out
}

// ---------------------------------------------------------------------------
// Repeated declarations
// ---------------------------------------------------------------------------

/// The index of `name` in a tally.
pub open spec fn tally_index(t: Seq<(Seq<char>, nat)>, name: Seq<char>) -> Option<nat>
    decreases t.len(),
{
    if t.len() == 0 {
        None
    } else if t.last().0 == name {
        Some((t.len() - 1) as nat)
    } else {
        tally_index(t.drop_last(), name)
    }
}

/// Adds one occurrence of `name` to a tally.
pub open spec fn tally_add(t: Seq<(Seq<char>, nat)>, name: Seq<char>) -> Seq<(Seq<char>, nat)> {
    match tally_index(t, name) {
        Some(i) => t.update(i as int, (name, t[i as int].1 + 1)),
        None => t.push((name, 1)),
    }
}

/// How often each name occurs, names in order of first occurrence.
pub open spec fn tally(names: Seq<Seq<char>>) -> Seq<(Seq<char>, nat)>
    decreases names.len(),
{
    if names.len() == 0 {
        seq![]
    } else {
        tally_add(tally(names.drop_last()), names.last())
    }
}

/// The key names of the scalar declarations, in order.
pub open spec fn scalar_names(stmts: Seq<StatementV>) -> Seq<Seq<char>>
    decreases stmts.len(),
{
    if stmts.len() == 0 {
        seq![]
    } else {
        let rest = scalar_names(stmts.drop_last());
        match stmts.last() {
            StatementV::Scalar(k, _) => rest.push(key_name(k)),
            _ => rest,
        }
    }
}

/// One warning per name declared as a scalar more than once.
pub open spec fn repeat_warnings(t: Seq<(Seq<char>, nat)>) -> Seq<(Severity, Seq<char>)>
    decreases t.len(),
{
    if t.len() == 0 {
        seq![]
    } else {
        let rest = repeat_warnings(t.drop_last());
        let (name, count) = t.last();
        if count > 1 {
            rest.push(warn("declaration '"@ + name + "' appears "@ + decimal(count) + " times"@))
        } else {
            rest
        }
    }
}

/// A warning for each scalar declaration that appears more than once.
pub open spec fn duplicate_checks(m: ManifestV) -> Seq<(Severity, Seq<char>)> {
    repeat_warnings(tally(scalar_names(m.statements)))
}

/// The names and counts of a tally.
pub open spec fn tally_view(v: Seq<(Vec<char>, usize)>) -> Seq<(Seq<char>, nat)> {
    v.map_values(|p: (Vec<char>, usize)| (p.0@, p.1 as nat))
}

/// The index of `name` in a tally.
fn find_tally(counts: &Vec<(Vec<char>, usize)>, name: &[char]) -> (r: Option<usize>)
    ensures
        match r {
            Some(i) => i < counts@.len() && tally_index(tally_view(counts@), name@) == Some(
                i as nat,
            ),
            None => tally_index(tally_view(counts@), name@) is None,
        },
{
    let ghost tv = tally_view(counts@);
    let mut k = counts.len();
    proof {
        assert(tv.take(k as int) =~= tv);
    }
    while k > 0
        invariant
            k <= counts@.len(),
            tv == tally_view(counts@),
            tally_index(tv, name@) == tally_index(tv.take(k as int), name@),
        decreases k,
    {
        proof {
            assert(tv.take(k as int).drop_last() =~= tv.take(k - 1));
        }
        if chars_eq(counts[k - 1].0.as_slice(), name) {
            return Some(k - 1);
        }
        k = k - 1;
    }
    None
}

/// Warns about scalar declarations that appear more than once.
pub fn check_duplicates(manifest: &Manifest) -> (out: Vec<Diagnostic>)
    ensures
        diags_view(out@) == duplicate_checks(manifest@),
        spanless(out@),
{
    let mut counts: Vec<(Vec<char>, usize)> = Vec::new();
    let ghost sv = manifest@.statements;
    let mut i: usize = 0;
    while i < manifest.statements.len()
        invariant
            i <= manifest.statements@.len(),
            sv == manifest@.statements,
            sv == crate::ast::statements_view(manifest.statements@),
            tally_view(counts@) == tally(scalar_names(sv.take(i as int))),
            forall|k: int| 0 <= k < counts@.len() ==> (#[trigger] counts@[k]).1 <= i,
        decreases manifest.statements.len() - i,
    {
        proof {
            assert(sv.take(i + 1).drop_last() =~= sv.take(i as int));
            assert(sv.take(i + 1).last() == manifest.statements@[i as int]@);
        }
        match &manifest.statements[i] {
            crate::ast::Statement::Scalar { key, .. } => {
                let name = str_chars(key.as_str());
                let ghost tv = tally_view(counts@);
                let ghost nm = name@;
                proof {
                    let pre = scalar_names(sv.take(i as int));
                    assert(scalar_names(sv.take(i + 1)) == pre.push(nm));
                    assert(pre.push(nm).drop_last() =~= pre);
                    assert(tally(pre.push(nm)) == tally_add(tally(pre), nm));
                }
                let found_at = find_tally(&counts, name.as_slice());
                if let Some(idx) = found_at {
                    let c = counts[idx].1;
                    let entry = (name, c + 1);
                    counts.set(idx, entry);
                    proof {
                        assert(tally_index(tv, entry.0@) == Some(idx as nat));
                        assert(tally_view(counts@) =~= tally_add(tv, entry.0@));
                    }
                } else {
                    counts.push((name, 1));
                    proof {
                        assert(tally_view(counts@) =~= tally_add(tv, counts@.last().0@));
                    }
                }
            },
            _ => {
                assert(scalar_names(sv.take(i + 1)) == scalar_names(sv.take(i as int)));
            },
        }
        i = i + 1;
    }
    proof {
        assert(sv.take(i as int) =~= sv);
    }
    let mut out: Vec<Diagnostic> = Vec::new();
    let mut k: usize = 0;
    let ghost tv = tally_view(counts@);
    while k < counts.len()
        invariant
            k <= counts@.len(),
            tv == tally_view(counts@),
            diags_view(out@) == repeat_warnings(tv.take(k as int)),
            spanless(out@),
        decreases counts.len() - k,
    {
        proof {
            assert(tv.take(k + 1).drop_last() =~= tv.take(k as int));
        }
        let name = &counts[k].0;
        let count = counts[k].1;
        if count > 1 {
            let mut m = String::from_str("declaration '");
            crate::text::push_range(&mut m, name.as_slice(), 0, name.len());
            push_str(&mut m, "' appears ");
            push_decimal(&mut m, count as u128);
            push_str(&mut m, " times");
            proof {
                assert(name@.subrange(0, name@.len() as int) =~= name@);
            }
            push_diag(&mut out, Severity::Warning, m);
        }
        k = k + 1;
    }
    proof {
        assert(tv.take(k as int) =~= tv);
    }
    out
}

// ---------------------------------------------------------------------------
// Framework dependencies
// ---------------------------------------------------------------------------

/// Whether some entry of `vs` starts with `prefix`.
pub open spec fn any_prefixed(vs: Seq<Seq<char>>, prefix: Seq<char>) -> bool {
    exists|j: int| 0 <= j < vs.len() && prefix.is_prefix_of(#[trigger] vs[j])
}

/// Whether a client, server or shared script entry starts with `prefix`.
pub open spec fn references(m: ManifestV, prefix: Seq<char>) -> bool {
    ||| any_prefixed(values_of(m.statements, KeyV::ClientScripts), prefix)
    ||| any_prefixed(values_of(m.statements, KeyV::ServerScripts), prefix)
    ||| any_prefixed(values_of(m.statements, KeyV::SharedScripts), prefix)
}

/// The resources of the frameworks whose script prefix (`@es_extended/`,
/// `@qb-core/`, `@qbx_core/`) the scripts reference, in that order.
pub open spec fn referenced_frameworks(m: ManifestV) -> Seq<Seq<char>> {
    (if references(m, "@es_extended/"@) { seq!["es_extended"@] } else { seq![] }) + (if references(
        m,
        "@qb-core/"@,
    ) {
        seq!["qb-core"@]
    } else {
        seq![]
    }) + (if references(m, "@qbx_core/"@) { seq!["qbx_core"@] } else { seq![] })
}

/// The declared dependencies: `dependency` values, then `dependencies` values.
pub open spec fn declared_dependencies(m: ManifestV) -> Seq<Seq<char>> {
    values_of(m.statements, KeyV::Dependency) + values_of(m.statements, KeyV::Dependencies)
}

/// Whether a dependency names `resource`, ignoring surrounding whitespace and ASCII case.
pub open spec fn names_resource(dep: Seq<char>, resource: Seq<char>) -> bool {
    ascii_lowercase(trim(dep)) == ascii_lowercase(resource)
}

/// Whether `resource` is among the declared dependencies, ignoring ASCII case
/// and surrounding whitespace.
pub open spec fn is_declared(deps: Seq<Seq<char>>, resource: Seq<char>) -> bool {
    exists|d: int| 0 <= d < deps.len() && names_resource(#[trigger] deps[d], resource)
}

/// One warning per referenced framework that no dependency declares.
pub open spec fn missing_dependencies(refs: Seq<Seq<char>>, deps: Seq<Seq<char>>) -> Seq<
    (Severity, Seq<char>),
>
    decreases refs.len(),
{
    if refs.len() == 0 {
        seq![]
    } else {
        let rest = missing_dependencies(refs.drop_last(), deps);
        let r = refs.last();
        if is_declared(deps, r) {
            rest
        } else {
            rest.push(
                warn(
                    "'"@ + r
                        + "' is referenced by scripts but not declared under dependency/dependencies"@,
                ),
            )
        }
    }
}

/// A warning for each framework that scripts use but no dependency declares.
pub open spec fn framework_checks(m: ManifestV) -> Seq<(Severity, Seq<char>)> {
    missing_dependencies(referenced_frameworks(m), declared_dependencies(m))
}

fn any_starts_with(vals: &Vec<&str>, prefix: &str) -> (b: bool)
    ensures
        b == any_prefixed(strs_view(vals@), prefix@),
{
    let p = str_chars(prefix);
    let mut j: usize = 0;
    while j < vals.len()
        invariant
            j <= vals@.len(),
            p@ == prefix@,
            forall|k: int| 0 <= k < j ==> !prefix@.is_prefix_of(#[trigger] strs_view(vals@)[k]),
        decreases vals.len() - j,
    {
        let c = str_chars(vals[j]);
        proof {
            assert(strs_view(vals@)[j as int] == c@);
            assert(c@.subrange(0, c@.len() as int) =~= c@);
        }
        if crate::text::range_starts_with(c.as_slice(), 0, c.len(), p.as_slice()) {
            return true;
        }
        j = j + 1;
    }
    false
}

fn script_references(manifest: &Manifest, prefix: &str) -> (b: bool)
    ensures
        b == references(manifest@, prefix@),
{
    let client = manifest.values(&Key::ClientScripts);
    let server = manifest.values(&Key::ServerScripts);
    let shared = manifest.values(&Key::SharedScripts);
    any_starts_with(&client, prefix) || any_starts_with(&server, prefix) || any_starts_with(
        &shared,
        prefix,
    )
}

/// Whether `dep` names `resource`, ignoring surrounding whitespace and ASCII case.
fn dependency_names(dep: &str, resource: &str) -> (b: bool)
    ensures
        b == names_resource(dep@, resource@),
{
    let d = str_chars(dep);
    let (a, e) = trim_bounds(d.as_slice(), 0, d.len());
    proof {
        assert(d@.subrange(0, d@.len() as int) =~= d@);
    }
    let dl = ascii_lowercase_range(d.as_slice(), a, e);
    let r = str_chars(resource);
    let rl = ascii_lowercase_range(r.as_slice(), 0, r.len());
    proof {
        assert(r@.subrange(0, r@.len() as int) =~= r@);
    }
    chars_eq(dl.as_slice(), rl.as_slice())
}

fn declares(deps: &Vec<&str>, resource: &str) -> (b: bool)
    ensures
        b == is_declared(strs_view(deps@), resource@),
{
    let mut j: usize = 0;
    while j < deps.len()
        invariant
            j <= deps@.len(),
            forall|k: int|
                0 <= k < j ==> !names_resource(#[trigger] strs_view(deps@)[k], resource@),
        decreases deps.len() - j,
    {
        proof {
            assert(strs_view(deps@)[j as int] == deps@[j as int]@);
        }
        if dependency_names(deps[j], resource) {
            return true;
        }
        j = j + 1;
    }
    false
}

/// Warns about frameworks that scripts import but that no dependency declares.
pub fn check_framework_dependencies(manifest: &Manifest) -> (out: Vec<Diagnostic>)
    ensures
        diags_view(out@) == framework_checks(manifest@),
        spanless(out@),
{
    let mut referenced: Vec<&str> = Vec::new();
    if script_references(manifest, "@es_extended/") {
        referenced.push("es_extended");
    }
    if script_references(manifest, "@qb-core/") {
        referenced.push("qb-core");
    }
    if script_references(manifest, "@qbx_core/") {
        referenced.push("qbx_core");
    }
    proof {
        assert(strs_view(referenced@) =~= referenced_frameworks(manifest@));
    }
    let mut out: Vec<Diagnostic> = Vec::new();
    if referenced.len() == 0 {
        return out;
    }
    let mut declared = manifest.values(&Key::Dependency);
    let more = manifest.values(&Key::Dependencies);
    let mut j: usize = 0;
    let ghost first = strs_view(declared@);
    while j < more.len()
        invariant
            j <= more@.len(),
            strs_view(declared@) == first + strs_view(more@).take(j as int),
        decreases more.len() - j,
    {
        let ghost before = strs_view(declared@);
        declared.push(more[j]);
        proof {
            assert(strs_view(declared@) =~= before.push(more@[j as int]@));
            assert(strs_view(more@).take(j + 1) =~= strs_view(more@).take(j as int).push(
                more@[j as int]@,
            ));
        }
        j = j + 1;
    }
    proof {
        assert(strs_view(more@).take(j as int) =~= strs_view(more@));
    }
    let ghost deps = strs_view(declared@);
    let ghost refs = strs_view(referenced@);
    let mut k: usize = 0;
    while k < referenced.len()
        invariant
            k <= referenced@.len(),
            deps == strs_view(declared@),
            refs == strs_view(referenced@),
            diags_view(out@) == missing_dependencies(refs.take(k as int), deps),
            spanless(out@),
        decreases referenced.len() - k,
    {
        proof {
            assert(refs.take(k + 1).drop_last() =~= refs.take(k as int));
            assert(refs[k as int] == referenced@[k as int]@);
        }
        if !declares(&declared, referenced[k]) {
            let mut m = String::from_str("'");
            push_str(&mut m, referenced[k]);
            push_str(
                &mut m,
                "' is referenced by scripts but not declared under dependency/dependencies",
            );
            push_diag(&mut out, Severity::Warning, m);
        }
        k = k + 1;
    }
    proof {
        assert(refs.take(k as int) =~= refs);
    }
    out
}

// ---------------------------------------------------------------------------
// All rules
// ---------------------------------------------------------------------------

/// Every diagnostic of the manifest, in rule order.
pub open spec fn lint_checks(m: ManifestV, existing: Seq<Seq<char>>) -> Seq<(Severity, Seq<char>)> {
    declaration_checks(m) + script_file_checks(m, existing) + duplicate_checks(m)
        + framework_checks(m)
}

/// Runs every rule over the manifest; `existing` holds the script and file
/// entries that name files on disk.
pub fn lint_manifest(manifest: &Manifest, existing: &Vec<String>) -> (out: Vec<Diagnostic>)
    ensures
        diags_view(out@) == lint_checks(manifest@, existing@.map_values(|s: String| s@)),
        spanless(out@),
{
    let mut out = check_declarations(manifest);
    let mut more = check_script_files(manifest, existing);
    out.append(&mut more);
    let mut more = check_duplicates(manifest);
    out.append(&mut more);
    let mut more = check_framework_dependencies(manifest);
    out.append(&mut more);
    proof {
        assert(diags_view(out@) =~= lint_checks(manifest@, existing@.map_values(|s: String| s@)));
        assert(spanless(out@));
    }
    out
}

/// The number of errors among diagnostics.
pub open spec fn error_count(d: Seq<(Severity, Seq<char>)>) -> nat
    decreases d.len(),
{
    if d.len() == 0 {
        0
    } else {
        error_count(d.drop_last()) + if d.last().0 == Severity::Error {
            1nat
        } else {
            0nat
        }
    }
}

/// The number of error-severity diagnostics.
pub fn count_errors(diagnostics: &Vec<Diagnostic>) -> (n: usize)
    ensures
        n == error_count(diags_view(diagnostics@)),
        n <= diagnostics@.len(),
{
    let ghost dv = diags_view(diagnostics@);
    let mut n: usize = 0;
    let mut i: usize = 0;
    while i < diagnostics.len()
        invariant
            i <= diagnostics@.len(),
            dv == diags_view(diagnostics@),
            n == error_count(dv.take(i as int)),
            n <= i,
        decreases diagnostics.len() - i,
    {
        proof {
            assert(dv.take(i + 1).drop_last() =~= dv.take(i as int));
        }
        match diagnostics[i].severity {
            Severity::Error => {
                n = n + 1;
            },
            Severity::Warning => {},
        }
        i = i + 1;
    }
    proof {
        assert(dv.take(i as int) =~= dv);
    }
    n
}

/// The closing line of a validation run: that nothing was found, or how many
/// errors and warnings were.
pub open spec fn outcome_text(d: Seq<(Severity, Seq<char>)>, path: Seq<char>, elapsed: nat) -> Seq<
    char,
> {
    if d.len() == 0 {
        "No issues found in '"@ + path + "' ("@ + decimal(elapsed) + "ms)"@
    } else {
        decimal(error_count(d)) + " error(s), "@ + decimal((d.len() - error_count(d)) as nat)
            + " warning(s) in '"@ + path + "' ("@ + decimal(elapsed) + "ms)"@
    }
}

/// The closing line of a validation of the manifest at `path`.
pub fn validation_outcome(diagnostics: &Vec<Diagnostic>, path: &str, elapsed_ms: u128) -> (r: String)
    ensures
        r@ == outcome_text(diags_view(diagnostics@), path@, elapsed_ms as nat),
{
    let mut r = String::new();
    if diagnostics.len() == 0 {
        push_str(&mut r, "No issues found in '");
    } else {
        let errors = count_errors(diagnostics);
        push_decimal(&mut r, errors as u128);
        push_str(&mut r, " error(s), ");
        push_decimal(&mut r, (diagnostics.len() - errors) as u128);
        push_str(&mut r, " warning(s) in '");
    }
    push_str(&mut r, path);
    push_str(&mut r, "' (");
    push_decimal(&mut r, elapsed_ms);
    push_str(&mut r, "ms)");
    r
}

// ---------------------------------------------------------------------------
// Frameworks used by scripts
// ---------------------------------------------------------------------------

/// The warning for a framework resource `r` that scripts use but no
/// dependency declares.
pub open spec fn undeclared_framework(r: Seq<char>) -> (Severity, Seq<char>) {
    (
        Severity::Warning,
        "'"@ + r + "' is referenced by scripts but not declared under dependency/dependencies"@,
    )
}

proof fn lemma_undeclared_injective(r1: Seq<char>, r2: Seq<char>)
    requires
        undeclared_framework(r1) == undeclared_framework(r2),
    ensures
        r1 == r2,
{
    let a = "'"@;
    let m1 = undeclared_framework(r1).1;
    let m2 = undeclared_framework(r2).1;
    assert(m1.len() == m2.len());
    assert forall|k: int| 0 <= k < r1.len() implies r1[k] == r2[k] by {
        assert(m1[a.len() + k] == r1[k]);
        assert(m2[a.len() + k] == r2[k]);
    }
    assert(r1 =~= r2);
}

proof fn lemma_missing_contains(refs: Seq<Seq<char>>, deps: Seq<Seq<char>>, r: Seq<char>)
    ensures
        missing_dependencies(refs, deps).contains(undeclared_framework(r)) <==> (refs.contains(r)
            && !is_declared(deps, r)),
    decreases refs.len(),
{
    if refs.len() > 0 {
        let d = refs.drop_last();
        lemma_missing_contains(d, deps, r);
        let last = refs.last();
        let rest = missing_dependencies(d, deps);
        assert(refs =~= d.push(last));
        if rest.push(undeclared_framework(last)).contains(undeclared_framework(r)) && !rest.contains(
            undeclared_framework(r),
        ) {
            let k = choose|k: int|
                0 <= k < rest.len() + 1 && rest.push(undeclared_framework(last))[k]
                    == undeclared_framework(r);
            assert(k == rest.len());
            lemma_undeclared_injective(last, r);
        }
        if refs.contains(r) && !d.contains(r) {
            let k = choose|k: int| 0 <= k < refs.len() && refs[k] == r;
            assert(k == refs.len() - 1);
        }
        if d.contains(r) {
            let k = choose|k: int| 0 <= k < d.len() && d[k] == r;
            assert(refs[k] == r);
        }
        if rest.contains(undeclared_framework(r)) {
            let k = choose|k: int| 0 <= k < rest.len() && rest[k] == undeclared_framework(r);
            assert(rest.push(undeclared_framework(last))[k] == undeclared_framework(r));
        }
        if last == r && !is_declared(deps, r) {
            assert(rest.push(undeclared_framework(last))[rest.len() as int] == undeclared_framework(
                r,
            ));
        }
    }
}

/// The framework resources whose warnings the lint knows.
pub open spec fn is_framework(r: Seq<char>) -> bool {
    r == "es_extended"@ || r == "qb-core"@ || r == "qbx_core"@
}

/// A framework resource `r` (`es_extended`, `qb-core` or `qbx_core`) draws
/// its warning exactly when a client, server or shared script entry starts
/// with `@r/` and no `dependency` or `dependencies` value names `r`, ignoring
/// ASCII case and surrounding whitespace.
pub proof fn lemma_framework_warning(m: ManifestV, r: Seq<char>)
    requires
        is_framework(r),
    ensures
        ({
            let p = "@"@ + r + "/"@;
            let client = values_of(m.statements, KeyV::ClientScripts);
            let server = values_of(m.statements, KeyV::ServerScripts);
            let shared = values_of(m.statements, KeyV::SharedScripts);
            let deps = values_of(m.statements, KeyV::Dependency) + values_of(
                m.statements,
                KeyV::Dependencies,
            );
            framework_checks(m).contains(undeclared_framework(r)) <==> ({
                &&& {
                    ||| exists|j: int| 0 <= j < client.len() && p.is_prefix_of(#[trigger] client[j])
                    ||| exists|j: int| 0 <= j < server.len() && p.is_prefix_of(#[trigger] server[j])
                    ||| exists|j: int| 0 <= j < shared.len() && p.is_prefix_of(#[trigger] shared[j])
                }
                &&& !exists|d: int|
                    0 <= d < deps.len() && ascii_lowercase(trim(#[trigger] deps[d]))
                        == ascii_lowercase(r)
            })
        }),
{
    reveal_strlit("es_extended");
    reveal_strlit("qb-core");
    reveal_strlit("qbx_core");
    reveal_strlit("@es_extended/");
    reveal_strlit("@qb-core/");
    reveal_strlit("@qbx_core/");
    reveal_strlit("@");
    reveal_strlit("/");
    let p = "@"@ + r + "/"@;
    let es = "es_extended"@;
    let qb = "qb-core"@;
    let qbx = "qbx_core"@;
    assert(es.len() == 11 && qb.len() == 7 && qbx.len() == 8);
    if r == es {
        assert(p =~= "@es_extended/"@);
    } else if r == qb {
        assert(p =~= "@qb-core/"@);
    } else {
        assert(p =~= "@qbx_core/"@);
    }
    let refs = referenced_frameworks(m);
    let a: Seq<Seq<char>> = if references(m, "@es_extended/"@) { seq![es] } else { seq![] };
    let b: Seq<Seq<char>> = if references(m, "@qb-core/"@) { seq![qb] } else { seq![] };
    let c: Seq<Seq<char>> = if references(m, "@qbx_core/"@) { seq![qbx] } else { seq![] };
    assert(refs == a + b + c);
    assert(refs.contains(r) <==> references(m, p)) by {
        if references(m, p) {
            if r == es {
                assert(refs[0] == r);
            } else if r == qb {
                assert(refs[a.len() as int] == r);
            } else {
                assert(refs[(a.len() + b.len()) as int] == r);
            }
        }
        if refs.contains(r) {
            let k = choose|k: int| 0 <= k < refs.len() && refs[k] == r;
            if k < a.len() {
                assert(refs[k] == a[k]);
            } else if k < a.len() + b.len() {
                assert(refs[k] == b[k - a.len()]);
            } else {
                assert(refs[k] == c[k - a.len() - b.len()]);
            }
        }
    }
    lemma_missing_contains(refs, declared_dependencies(m), r);
}

/// A full lint run warns about a framework resource `r` whose `@r/` prefix
/// starts a client, server or shared script entry when no `dependency` or
/// `dependencies` value names `r`.
pub proof fn lemma_lint_warns_undeclared_framework(
    m: ManifestV,
    existing: Seq<Seq<char>>,
    r: Seq<char>,
    key: KeyV,
    j: int,
)
    requires
        is_framework(r),
        key == KeyV::ClientScripts || key == KeyV::ServerScripts || key == KeyV::SharedScripts,
        0 <= j < values_of(m.statements, key).len(),
        ("@"@ + r + "/"@).is_prefix_of(values_of(m.statements, key)[j]),
        forall|d: int|
            0 <= d < declared_dependencies(m).len() ==> ascii_lowercase(
                trim(#[trigger] declared_dependencies(m)[d]),
            ) != ascii_lowercase(r),
    ensures
        lint_checks(m, existing).contains(undeclared_framework(r)),
{
    lemma_framework_warning(m, r);
    let f = framework_checks(m);
    let k = choose|k: int| 0 <= k < f.len() && f[k] == undeclared_framework(r);
    let pre = declaration_checks(m) + script_file_checks(m, existing) + duplicate_checks(m);
    assert(lint_checks(m, existing) == pre + f);
    assert((pre + f)[pre.len() + k] == f[k]);
}

} // verus!
