//! Stage 4 of the manifest pipeline: the strongly-typed manifest.
use crate::text::{chars_eq, str_chars, string_of, trim, trim_bounds};
use vstd::prelude::*;

verus! {

/// Well-known manifest keys; unknown keys fall back to [`Key::Other`].
#[derive(Debug, Clone, PartialEq, Eq, Hash)]
pub enum Key {
    FxVersion,
    Game,
    Author,
    Description,
    Version,
    ClientScripts,
    ServerScripts,
    SharedScripts,
    Files,
    Dependency,
    Dependencies,
    Lua54,
    Other(String),
}

/// The mathematical value of a [`Key`].
pub enum KeyV {
    FxVersion,
    Game,
    Author,
    Description,
    Version,
    ClientScripts,
    ServerScripts,
    SharedScripts,
    Files,
    Dependency,
    Dependencies,
    Lua54,
    Other(Seq<char>),
}

impl View for Key {
    type V = KeyV;

    open spec fn view(&self) -> KeyV {
        match self {
            Key::FxVersion => KeyV::FxVersion,
            Key::Game => KeyV::Game,
            Key::Author => KeyV::Author,
            Key::Description => KeyV::Description,
            Key::Version => KeyV::Version,
            Key::ClientScripts => KeyV::ClientScripts,
            Key::ServerScripts => KeyV::ServerScripts,
            Key::SharedScripts => KeyV::SharedScripts,
            Key::Files => KeyV::Files,
            Key::Dependency => KeyV::Dependency,
            Key::Dependencies => KeyV::Dependencies,
            Key::Lua54 => KeyV::Lua54,
            Key::Other(s) => KeyV::Other(s@),
        }
    }
}

/// The key that a declaration name denotes (`Key::parse`).
pub open spec fn key_of(s: Seq<char>) -> KeyV {
    if s == "fx_version"@ {
        KeyV::FxVersion
    } else if s == "game"@ {
        KeyV::Game
    } else if s == "author"@ {
        KeyV::Author
    } else if s == "description"@ {
        KeyV::Description
    } else if s == "version"@ {
        KeyV::Version
    } else if s == "client_scripts"@ || s == "client_script"@ {
        KeyV::ClientScripts
    } else if s == "server_scripts"@ || s == "server_script"@ {
        KeyV::ServerScripts
    } else if s == "shared_scripts"@ || s == "shared_script"@ {
        KeyV::SharedScripts
    } else if s == "files"@ {
        KeyV::Files
    } else if s == "dependency"@ {
        KeyV::Dependency
    } else if s == "dependencies"@ {
        KeyV::Dependencies
    } else if s == "lua54"@ {
        KeyV::Lua54
    } else {
        KeyV::Other(s)
    }
}

/// The canonical name of a key (`Key::as_str`).
pub open spec fn key_name(k: KeyV) -> Seq<char> {
    match k {
        KeyV::FxVersion => "fx_version"@,
        KeyV::Game => "game"@,
        KeyV::Author => "author"@,
        KeyV::Description => "description"@,
        KeyV::Version => "version"@,
        KeyV::ClientScripts => "client_scripts"@,
        KeyV::ServerScripts => "server_scripts"@,
        KeyV::SharedScripts => "shared_scripts"@,
        KeyV::Files => "files"@,
        KeyV::Dependency => "dependency"@,
        KeyV::Dependencies => "dependencies"@,
        KeyV::Lua54 => "lua54"@,
        KeyV::Other(s) => s,
    }
}

/// Whether `s` is one of the names that `Key::parse` maps to a well-known key.
pub open spec fn is_known_key_name(s: Seq<char>) -> bool {
    !(key_of(s) is Other)
}

/// Reading back the name of a key gives the key again, except for an `Other`
/// key that carries the name of a well-known key.
pub proof fn lemma_key_name_round_trip(k: KeyV)
    requires
        k matches KeyV::Other(s) ==> !is_known_key_name(s),
    ensures
        key_of(key_name(k)) == k,
{
    reveal_strlit("fx_version");
    assert("fx_version"@.len() == 10);
    reveal_strlit("game");
    assert("game"@.len() == 4);
    reveal_strlit("author");
    assert("author"@.len() == 6);
    reveal_strlit("description");
    assert("description"@.len() == 11);
    reveal_strlit("version");
    assert("version"@.len() == 7);
    reveal_strlit("client_scripts");
    assert("client_scripts"@.len() == 14);
    reveal_strlit("client_script");
    assert("client_script"@.len() == 13);
    reveal_strlit("server_scripts");
    assert("server_scripts"@.len() == 14);
    reveal_strlit("server_script");
    assert("server_script"@.len() == 13);
    reveal_strlit("shared_scripts");
    assert("shared_scripts"@.len() == 14);
    reveal_strlit("shared_script");
    assert("shared_script"@.len() == 13);
    reveal_strlit("files");
    assert("files"@.len() == 5);
    reveal_strlit("dependency");
    assert("dependency"@.len() == 10);
    reveal_strlit("dependencies");
    assert("dependencies"@.len() == 12);
    reveal_strlit("lua54");
    assert("lua54"@.len() == 5);
    assert("fx_version"@[0] == 'f' && "dependency"@[0] == 'd');
    assert("files"@[0] == 'f' && "lua54"@[0] == 'l');
    assert("client_scripts"@[1] == 'l' && "server_scripts"@[1] == 'e' && "shared_scripts"@[1] == 'h');
    assert("client_script"@[1] == 'l' && "server_script"@[1] == 'e' && "shared_script"@[1] == 'h');
}

/// Whether two string slices hold the same characters.
pub fn str_eq(a: &str, b: &str) -> (r: bool)
    ensures
        r == (a@ == b@),
{
    let av = str_chars(a);
    let bv = str_chars(b);
    chars_eq(av.as_slice(), bv.as_slice())
}

impl Key {
    /// The key that a declaration name denotes; unknown names give [`Key::Other`].
    pub fn parse(s: &str) -> (k: Key)
        ensures
            k@ == key_of(s@),
    {
        if str_eq(s, "fx_version") {
            Key::FxVersion
        } else if str_eq(s, "game") {
            Key::Game
        } else if str_eq(s, "author") {
            Key::Author
        } else if str_eq(s, "description") {
            Key::Description
        } else if str_eq(s, "version") {
            Key::Version
        } else if str_eq(s, "client_scripts") || str_eq(s, "client_script") {
            Key::ClientScripts
        } else if str_eq(s, "server_scripts") || str_eq(s, "server_script") {
            Key::ServerScripts
        } else if str_eq(s, "shared_scripts") || str_eq(s, "shared_script") {
            Key::SharedScripts
        } else if str_eq(s, "files") {
            Key::Files
        } else if str_eq(s, "dependency") {
            Key::Dependency
        } else if str_eq(s, "dependencies") {
            Key::Dependencies
        } else if str_eq(s, "lua54") {
            Key::Lua54
        } else {
            Key::Other(s.to_string())
        }
    }

    /// The canonical name of the key.
    pub fn as_str(&self) -> (r: &str)
        ensures
            r@ == key_name(self@),
    {
        match self {
            Key::FxVersion => "fx_version",
            Key::Game => "game",
            Key::Author => "author",
            Key::Description => "description",
            Key::Version => "version",
            Key::ClientScripts => "client_scripts",
            Key::ServerScripts => "server_scripts",
            Key::SharedScripts => "shared_scripts",
            Key::Files => "files",
            Key::Dependency => "dependency",
            Key::Dependencies => "dependencies",
            Key::Lua54 => "lua54",
            Key::Other(s) => s.as_str(),
        }
    }

    /// Whether two keys are the same key.
    pub fn same(&self, other: &Key) -> (r: bool)
        ensures
            r == (self@ == other@),
    {
        match (self, other) {
            (Key::FxVersion, Key::FxVersion) => true,
            (Key::Game, Key::Game) => true,
            (Key::Author, Key::Author) => true,
            (Key::Description, Key::Description) => true,
            (Key::Version, Key::Version) => true,
            (Key::ClientScripts, Key::ClientScripts) => true,
            (Key::ServerScripts, Key::ServerScripts) => true,
            (Key::SharedScripts, Key::SharedScripts) => true,
            (Key::Files, Key::Files) => true,
            (Key::Dependency, Key::Dependency) => true,
            (Key::Dependencies, Key::Dependencies) => true,
            (Key::Lua54, Key::Lua54) => true,
            (Key::Other(a), Key::Other(b)) => str_eq(a.as_str(), b.as_str()),
            _ => false,
        }
    }

    /// A copy of the key.
    pub fn duplicate(&self) -> (k: Key)
        ensures
            k@ == self@,
    {
        match self {
            Key::FxVersion => Key::FxVersion,
            Key::Game => Key::Game,
            Key::Author => Key::Author,
            Key::Description => Key::Description,
            Key::Version => Key::Version,
            Key::ClientScripts => Key::ClientScripts,
            Key::ServerScripts => Key::ServerScripts,
            Key::SharedScripts => Key::SharedScripts,
            Key::Files => Key::Files,
            Key::Dependency => Key::Dependency,
            Key::Dependencies => Key::Dependencies,
            Key::Lua54 => Key::Lua54,
            Key::Other(s) => Key::Other(s.clone()),
        }
    }
}

/// A parsed declaration in the manifest.
#[derive(Debug, Clone, PartialEq, Eq)]
pub enum Statement {
    /// `key 'value'`, `key('value')` or `key = 'value'`
    Scalar { key: Key, value: String },
    /// `key { 'a', 'b' }`, `key = { ... }` or `key('a', 'b')`
    Table { key: Key, values: Vec<String> },
}

/// The mathematical value of a [`Statement`].
pub enum StatementV {
    Scalar(KeyV, Seq<char>),
    Table(KeyV, Seq<Seq<char>>),
}

pub open spec fn strings_view(v: Seq<String>) -> Seq<Seq<char>> {
    v.map_values(|s: String| s@)
}

impl View for Statement {
    type V = StatementV;

    open spec fn view(&self) -> StatementV {
        match self {
            Statement::Scalar { key, value } => StatementV::Scalar(key@, value@),
            Statement::Table { key, values } => StatementV::Table(key@, strings_view(values@)),
        }
    }
}

pub open spec fn statement_key(s: StatementV) -> KeyV {
    match s {
        StatementV::Scalar(k, _) => k,
        StatementV::Table(k, _) => k,
    }
}

impl Statement {
    pub fn key(&self) -> (k: &Key)
        ensures
            k@ == statement_key(self@),
    {
        match self {
            Statement::Scalar { key, .. } => key,
            Statement::Table { key, .. } => key,
        }
    }
}

/// Supported FiveM game targets.
#[derive(Debug, Clone, PartialEq, Eq)]
pub enum Game {
    Gta5,
    Rdr3,
    Other(String),
}

pub enum GameV {
    Gta5,
    Rdr3,
    Other(Seq<char>),
}

impl View for Game {
    type V = GameV;

    open spec fn view(&self) -> GameV {
        match self {
            Game::Gta5 => GameV::Gta5,
            Game::Rdr3 => GameV::Rdr3,
            Game::Other(s) => GameV::Other(s@),
        }
    }
}

/// `char::to_ascii_lowercase`.
pub open spec fn ascii_lower(c: char) -> char {
    if 'A' <= c <= 'Z' {
        ((c as u32) + 32) as char
    } else {
        c
    }
}

pub open spec fn ascii_lowercase(s: Seq<char>) -> Seq<char> {
    s.map_values(|c: char| ascii_lower(c))
}

/// The game target that a `game` value names, ignoring surrounding whitespace
/// and ASCII case.
pub open spec fn game_of(s: Seq<char>) -> GameV {
    let t = trim(s);
    if ascii_lowercase(t) == "gta5"@ {
        GameV::Gta5
    } else if ascii_lowercase(t) == "rdr3"@ {
        GameV::Rdr3
    } else {
        GameV::Other(t)
    }
}

pub fn to_ascii_lower(c: char) -> (r: char)
    ensures
        r == ascii_lower(c),
{
    if 'A' <= c && c <= 'Z' {
        ((c as u32 as u8) + 32) as char
    } else {
        c
    }
}

/// `s[from..to]` in ASCII lower case.
pub fn ascii_lowercase_range(s: &[char], from: usize, to: usize) -> (r: Vec<char>)
    requires
        from <= to <= s@.len(),
    ensures
        r@ == ascii_lowercase(s@.subrange(from as int, to as int)),
{
    let mut r: Vec<char> = Vec::new();
    let mut i = from;
    while i < to
        invariant
            from <= i <= to <= s@.len(),
            r@ == ascii_lowercase(s@.subrange(from as int, i as int)),
        decreases to - i,
    {
        r.push(to_ascii_lower(s[i]));
        i = i + 1;
        assert(r@ =~= ascii_lowercase(s@.subrange(from as int, i as int)));
    }
    r
}

impl Game {
    pub fn parse(s: &str) -> (g: Game)
        ensures
            g@ == game_of(s@),
    {
        let v = str_chars(s);
        let (a, b) = trim_bounds(v.as_slice(), 0, v.len());
        proof {
            assert(v@.subrange(0, v@.len() as int) =~= v@);
        }
        let lower = ascii_lowercase_range(v.as_slice(), a, b);
        let gta5 = str_chars("gta5");
        let rdr3 = str_chars("rdr3");
        if chars_eq(lower.as_slice(), gta5.as_slice()) {
            Game::Gta5
        } else if chars_eq(lower.as_slice(), rdr3.as_slice()) {
            Game::Rdr3
        } else {
            Game::Other(string_of(v.as_slice(), a, b))
        }
    }
}

/// Stage 4 of the pipeline: the strongly-typed manifest.
#[derive(Debug, Clone, PartialEq, Eq)]
pub struct Manifest {
    pub fx_version: Option<String>,
    pub game: Option<Game>,
    pub statements: Vec<Statement>,
}

pub struct ManifestV {
    pub fx_version: Option<Seq<char>>,
    pub game: Option<GameV>,
    pub statements: Seq<StatementV>,
}

pub open spec fn statements_view(v: Seq<Statement>) -> Seq<StatementV> {
    v.map_values(|s: Statement| s@)
}

impl View for Manifest {
    type V = ManifestV;

    open spec fn view(&self) -> ManifestV {
        ManifestV {
            fx_version: match self.fx_version {
                Some(s) => Some(s@),
                None => None,
            },
            game: match self.game {
                Some(g) => Some(g@),
                None => None,
            },
            statements: statements_view(self.statements@),
        }
    }
}

/// The value of the last scalar declaration of `key` in `stmts`.
pub open spec fn last_scalar(stmts: Seq<StatementV>, key: KeyV) -> Option<Seq<char>>
    decreases stmts.len(),
{
    if stmts.len() == 0 {
        None
    } else {
        match stmts.last() {
            StatementV::Scalar(k, v) if k == key => Some(v),
            _ => last_scalar(stmts.drop_last(), key),
        }
    }
}

/// The value of the first scalar declaration of `key` in `stmts`.
pub open spec fn first_scalar(stmts: Seq<StatementV>, key: KeyV) -> Option<Seq<char>>
    decreases stmts.len(),
{
    if stmts.len() == 0 {
        None
    } else {
        match stmts[0] {
            StatementV::Scalar(k, v) if k == key => Some(v),
            _ => first_scalar(stmts.drop_first(), key),
        }
    }
}

/// Every value declared under `key`, in order, tables flattened.
pub open spec fn values_of(stmts: Seq<StatementV>, key: KeyV) -> Seq<Seq<char>>
    decreases stmts.len(),
{
    if stmts.len() == 0 {
        seq![]
    } else {
        let rest = values_of(stmts.drop_last(), key);
        match stmts.last() {
            StatementV::Scalar(k, v) => if k == key {
                rest.push(v)
            } else {
                rest
            },
            StatementV::Table(k, vs) => if k == key {
                rest + vs
            } else {
                rest
            },
        }
    }
}

/// The manifest of a list of declarations: the last scalar `fx_version` and
/// `game` declarations give the typed fields.
pub open spec fn manifest_of(stmts: Seq<StatementV>) -> ManifestV {
    ManifestV {
        fx_version: last_scalar(stmts, KeyV::FxVersion),
        game: match last_scalar(stmts, KeyV::Game) {
            Some(v) => Some(game_of(v)),
            None => None,
        },
        statements: stmts,
    }
}

pub open spec fn strs_view(v: Seq<&str>) -> Seq<Seq<char>> {
    v.map_values(|s: &str| s@)
}

impl Manifest {
    pub fn from_statements(statements: Vec<Statement>) -> (m: Manifest)
        ensures
            m@ == manifest_of(statements_view(statements@)),
    {
        let mut fx_version: Option<String> = None;
        let mut game: Option<Game> = None;
        let mut i: usize = 0;
        let ghost sv = statements_view(statements@);
        while i < statements.len()
            invariant
                0 <= i <= statements@.len(),
                sv == statements_view(statements@),
                (match fx_version {
                    Some(s) => Some(s@),
                    None => None,
                }) == last_scalar(sv.take(i as int), KeyV::FxVersion),
                (match game {
                    Some(g) => Some(g@),
                    None => None,
                }) == (match last_scalar(sv.take(i as int), KeyV::Game) {
                    Some(v) => Some(game_of(v)),
                    None => None,
                }),
            decreases statements.len() - i,
        {
            proof {
                assert(sv.take(i + 1).drop_last() =~= sv.take(i as int));
                assert(sv.take(i + 1).last() == statements@[i as int]@);
            }
            match &statements[i] {
                Statement::Scalar { key, value } => {
                    match key {
                        Key::FxVersion => {
                            fx_version = Some(value.clone());
                        },
                        Key::Game => {
                            game = Some(Game::parse(value.as_str()));
                        },
                        _ => {},
                    }
                },
                _ => {},
            }
            i = i + 1;
        }
        proof {
            assert(sv.take(i as int) =~= sv);
        }
        Manifest { fx_version, game, statements }
    }

    /// Returns the first scalar value declared under `key`.
    pub fn get(&self, key: &Key) -> (r: Option<&str>)
        ensures
            (match r {
                Some(s) => Some(s@),
                None => None,
            }) == first_scalar(self@.statements, key@),
    {
        let mut i: usize = 0;
        let ghost sv = self@.statements;
        assert(sv.skip(0) =~= sv);
        while i < self.statements.len()
            invariant
                0 <= i <= self.statements@.len(),
                sv == statements_view(self.statements@),
                first_scalar(sv, key@) == first_scalar(sv.skip(i as int), key@),
            decreases self.statements.len() - i,
        {
            proof {
                assert(sv.skip(i as int).drop_first() =~= sv.skip(i + 1));
                assert(sv.skip(i as int)[0] == self.statements@[i as int]@);
            }
            match &self.statements[i] {
                Statement::Scalar { key: k, value } => {
                    if k.same(key) {
                        return Some(value.as_str());
                    }
                },
                _ => {},
            }
            i = i + 1;
        }
        proof {
            assert(sv.skip(i as int).len() == 0);
        }
        None
    }

    /// Returns every value declared under `key`, flattening tables.
    pub fn values(&self, key: &Key) -> (r: Vec<&str>)
        ensures
            strs_view(r@) == values_of(self@.statements, key@),
    {
        let mut r: Vec<&str> = Vec::new();
        let mut i: usize = 0;
        let ghost sv = self@.statements;
        while i < self.statements.len()
            invariant
                0 <= i <= self.statements@.len(),
                sv == statements_view(self.statements@),
                strs_view(r@) == values_of(sv.take(i as int), key@),
            decreases self.statements.len() - i,
        {
            proof {
                assert(sv.take(i + 1).drop_last() =~= sv.take(i as int));
                assert(sv.take(i + 1).last() == self.statements@[i as int]@);
            }
            let stmt = &self.statements[i];
            if stmt.key().same(key) {
                match stmt {
                    Statement::Scalar { value, .. } => {
                        let ghost before = strs_view(r@);
                        r.push(value.as_str());
                        proof {
                            assert(strs_view(r@) =~= before.push(value@));
                        }
                    },
                    Statement::Table { values, .. } => {
                        let ghost before = strs_view(r@);
                        let mut j: usize = 0;
                        while j < values.len()
                            invariant
                                0 <= j <= values@.len(),
                                strs_view(r@) == before + strings_view(values@).take(j as int),
                            decreases values.len() - j,
                        {
                            let ghost prev = strs_view(r@);
                            r.push(values[j].as_str());
                            proof {
                                assert(strs_view(r@) =~= prev.push(values@[j as int]@));
                                assert(strings_view(values@).take(j + 1) =~= strings_view(
                                    values@,
                                ).take(j as int).push(values@[j as int]@));
                                assert(strs_view(r@) =~= before + strings_view(values@).take(
                                    j + 1,
                                ));
                            }
                            j = j + 1;
                        }
                        proof {
                            assert(strings_view(values@).take(j as int) =~= strings_view(
                                values@,
                            ));
                        }
                    },
                }
            }
            i = i + 1;
        }
        proof {
            assert(sv.take(i as int) =~= sv);
        }
        r
    }

    pub fn version(&self) -> (r: Option<&str>)
        ensures
            (match r {
                Some(s) => Some(s@),
                None => None,
            }) == first_scalar(self@.statements, KeyV::Version),
    {
        self.get(&Key::Version)
    }

    pub fn description(&self) -> (r: Option<&str>)
        ensures
            (match r {
                Some(s) => Some(s@),
                None => None,
            }) == first_scalar(self@.statements, KeyV::Description),
    {
        self.get(&Key::Description)
    }

    pub fn client_scripts(&self) -> (r: Vec<&str>)
        ensures
            strs_view(r@) == values_of(self@.statements, KeyV::ClientScripts),
    {
        self.values(&Key::ClientScripts)
    }

    pub fn server_scripts(&self) -> (r: Vec<&str>)
        ensures
            strs_view(r@) == values_of(self@.statements, KeyV::ServerScripts),
    {
        self.values(&Key::ServerScripts)
    }

    pub fn shared_scripts(&self) -> (r: Vec<&str>)
        ensures
            strs_view(r@) == values_of(self@.statements, KeyV::SharedScripts),
    {
        self.values(&Key::SharedScripts)
    }
}

} // verus!
