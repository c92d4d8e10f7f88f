//! A new resource: the frameworks it targets, the parts it is made of and
//! where each part is written.
use crate::ast::str_eq;
use crate::text::push_str;
use vstd::prelude::*;

verus! {

/// The frameworks a resource can target, in the order they are offered.
pub open spec fn framework_options() -> Seq<Seq<char>> {
    seq!["ESX"@, "QBCore"@, "Qbox"@, "None"@]
}

/// The lower-case form of a string (`str::to_lowercase`).
pub uninterp spec fn lowercase(s: Seq<char>) -> Seq<char>;

/// `str::to_lowercase` of std: the contract names the result, which depends
/// on the string alone; the Unicode case mapping itself is not stated.
#[verifier::external_body]
fn to_lowercase(s: &str) -> (r: String)
    ensures
        r@ == lowercase(s@),
{
    s.to_lowercase()
}

/// The first offered framework whose name equals `f` ignoring case, counted
/// from `i` on.
pub open spec fn option_matching(f: Seq<char>, i: int) -> Option<Seq<char>>
    decreases 4 - i,
{
    if i < 0 || i >= 4 {
        None
    } else if lowercase(framework_options()[i]) == lowercase(f) {
        Some(framework_options()[i])
    } else {
        option_matching(f, i + 1)
    }
}

/// The frameworks named on the command line, in order, each as it is offered;
/// names that match no framework are dropped.
pub open spec fn selected_frameworks(names: Seq<Seq<char>>) -> Seq<Seq<char>>
    decreases names.len(),
{
    if names.len() == 0 {
        seq![]
    } else {
        let rest = selected_frameworks(names.drop_last());
        match option_matching(names.last(), 0) {
            Some(o) => rest.push(o),
            None => rest,
        }
    }
}

/// The texts of string slices.
pub open spec fn strs_view(v: Seq<&str>) -> Seq<Seq<char>> {
    v.map_values(|s: &str| s@)
}

/// The texts of owned strings.
pub open spec fn strings_view(v: Seq<String>) -> Seq<Seq<char>> {
    v.map_values(|s: String| s@)
}

/// The offered framework at `i`.
fn framework_option(i: usize) -> (r: &'static str)
    requires
        i < 4,
    ensures
        r@ == framework_options()[i as int],
{
    if i == 0 {
        "ESX"
    } else if i == 1 {
        "QBCore"
    } else if i == 2 {
        "Qbox"
    } else {
        "None"
    }
}

/// The frameworks named by `names`, matched without regard to case against
/// ESX, QBCore, Qbox and None; unknown names are dropped.
pub fn select_frameworks(names: &Vec<String>) -> (r: Vec<&'static str>)
    ensures
        strs_view(r@) == selected_frameworks(strings_view(names@)),
{
    let mut r: Vec<&'static str> = Vec::new();
    let mut i: usize = 0;
    while i < names.len()
        invariant
            i <= names@.len(),
            strs_view(r@) == selected_frameworks(strings_view(names@.take(i as int))),
        decreases names.len() - i,
    {
        let lower = to_lowercase(names[i].as_str());
        let mut k: usize = 0;
        let mut found: Option<&'static str> = None;
        while k < 4 && found.is_none()
            invariant
                k <= 4,
                lower@ == lowercase(names@[i as int]@),
                i < names@.len(),
                match found {
                    Some(o) => option_matching(names@[i as int]@, 0) == Some(o@),
                    None => option_matching(names@[i as int]@, 0) == option_matching(
                        names@[i as int]@,
                        k as int,
                    ),
                },
            decreases 4 - k,
        {
            let opt = framework_option(k);
            let ol = to_lowercase(opt);
            if str_eq(ol.as_str(), lower.as_str()) {
                found = Some(opt);
            }
            k = k + 1;
        }
        let ghost before = strs_view(r@);
        proof {
            assert(strings_view(names@.take(i + 1)).drop_last() =~= strings_view(
                names@.take(i as int),
            ));
            assert(strings_view(names@.take(i + 1)).last() == names@[i as int]@);
        }
        match found {
            Some(o) => {
                r.push(o);
                assert(strs_view(r@) =~= before.push(o@));
            },
            None => {},
        }
        i = i + 1;
    }
    proof {
        assert(names@.take(i as int) =~= names@);
    }
    r
}

/// The client configuration file of a new resource.
pub struct ClientConfig<'a> {
    pub resource_name: &'a str,
    pub is_esx: bool,
    pub is_qbcore: bool,
    pub is_qbox: bool,
}

/// The server configuration file of a new resource.
pub struct ServerConfig<'a> {
    pub resource_name: &'a str,
    pub is_esx: bool,
    pub is_qbcore: bool,
    pub is_qbox: bool,
}

/// The shared configuration file of a new resource.
pub struct ShareConfig<'a> {
    pub resource_name: &'a str,
    pub is_esx: bool,
    pub is_qbcore: bool,
    pub is_qbox: bool,
}

/// The configuration files of a new resource.
pub struct Config<'a> {
    pub client_config: ClientConfig<'a>,
    pub server_config: ServerConfig<'a>,
    pub share_config: ShareConfig<'a>,
}

/// The manifest of a new resource.
pub struct Fxmanifest<'a> {
    pub description: &'a str,
}

/// The client script of a new resource.
pub struct ClientScript<'a> {
    pub resource_name: &'a str,
}

/// The server script of a new resource.
pub struct ServerScript<'a> {
    pub resource_name: &'a str,
}

/// The shared utilities of a new resource.
pub struct SharedUtils<'a> {
    pub resource_name: &'a str,
    pub is_esx: bool,
    pub is_qbcore: bool,
    pub is_qbox: bool,
}

/// The scripts of a new resource.
pub struct Src<'a> {
    pub client: ClientScript<'a>,
    pub server: ServerScript<'a>,
    pub shared: SharedUtils<'a>,
}

/// Everything a new resource is generated from.
pub struct Scaffolding<'a> {
    pub resource_name: &'a str,
    pub fxmanifest: Fxmanifest<'a>,
    pub src: Src<'a>,
    pub config: Config<'a>,
}

/// Whether the framework `name` is among `frameworks`.
pub open spec fn targets(frameworks: Seq<&str>, name: Seq<char>) -> bool {
    strs_view(frameworks).contains(name)
}

/// The parts of a resource named `name`, described by `description`, with the
/// three framework flags, each part given what it needs.
pub open spec fn built_from<'a>(
    s: Scaffolding<'a>,
    name: &'a str,
    description: &'a str,
    esx: bool,
    qbcore: bool,
    qbox: bool,
) -> bool {
    &&& s.resource_name == name
    &&& s.fxmanifest.description == description
    &&& s.src.client.resource_name == name
    &&& s.src.server.resource_name == name
    &&& s.src.shared == (SharedUtils { resource_name: name, is_esx: esx, is_qbcore: qbcore, is_qbox: qbox })
    &&& s.config.client_config == (ClientConfig {
        resource_name: name,
        is_esx: esx,
        is_qbcore: qbcore,
        is_qbox: qbox,
    })
    &&& s.config.server_config == (ServerConfig {
        resource_name: name,
        is_esx: esx,
        is_qbcore: qbcore,
        is_qbox: qbox,
    })
    &&& s.config.share_config == (ShareConfig {
        resource_name: name,
        is_esx: esx,
        is_qbcore: qbcore,
        is_qbox: qbox,
    })
}

/// Whether `frameworks` holds `name`.
fn has_framework(frameworks: &[&str], name: &str) -> (b: bool)
    ensures
        b == targets(frameworks@, name@),
{
    let ghost fv = strs_view(frameworks@);
    let mut i: usize = 0;
    while i < frameworks.len()
        invariant
            i <= frameworks@.len(),
            fv == strs_view(frameworks@),
            forall|j: int| 0 <= j < i ==> fv[j] != name@,
        decreases frameworks.len() - i,
    {
        if str_eq(frameworks[i], name) {
            assert(fv[i as int] == name@);
            return true;
        }
        i = i + 1;
    }
    false
}

impl<'a> Scaffolding<'a> {
    /// The parts of a new resource; each part that depends on the framework
    /// learns whether ESX, QBCore and Qbox are among `frameworks`.
    pub fn new(resource_name: &'a str, description: &'a str, frameworks: &'a [&'a str]) -> (s: Self)
        ensures
            built_from(
                s,
                resource_name,
                description,
                targets(frameworks@, "ESX"@),
                targets(frameworks@, "QBCore"@),
                targets(frameworks@, "Qbox"@),
            ),
    {
        let is_esx = has_framework(frameworks, "ESX");
        let is_qbcore = has_framework(frameworks, "QBCore");
        let is_qbox = has_framework(frameworks, "Qbox");
        Scaffolding {
            config: Config {
                share_config: ShareConfig { resource_name, is_esx, is_qbcore, is_qbox },
                client_config: ClientConfig { resource_name, is_esx, is_qbcore, is_qbox },
                server_config: ServerConfig { resource_name, is_esx, is_qbcore, is_qbox },
            },
            src: Src {
                client: ClientScript { resource_name },
                server: ServerScript { resource_name },
                shared: SharedUtils { resource_name, is_esx, is_qbcore, is_qbox },
            },
            resource_name,
            fxmanifest: Fxmanifest { description },
        }
    }
}

/// The `.pack` file of a new resource.
pub const DEFAULT_TREK_PACK: &'static str = "# trek include patterns\n# Only files matching these patterns will be packed\n\nfxmanifest.lua\nconfig/**/*.lua\nsrc/**/*.lua";

/// The `stylua.toml` file of a new resource.
pub const DEFAULT_STYLUA_TOML: &'static str = "column_width = 120\nline_endings = \"Unix\"\nindent_type = \"Spaces\"\nindent_width = 4\nquote_style = \"AutoPreferDouble\"\ncall_parentheses = \"Always\"\nsort_requires = { enabled = true }";

/// A file of a new resource.
#[derive(Debug, Clone, Copy, PartialEq, Eq, Structural)]
pub enum ScaffoldPart {
    Fxmanifest,
    ClientScript,
    ServerScript,
    SharedUtils,
    ShareConfig,
    ClientConfig,
    ServerConfig,
    PackPatterns,
    StyluaToml,
}

/// Where a part is written, inside the resource's directory.
pub open spec fn part_path(p: ScaffoldPart) -> Seq<char> {
    match p {
        ScaffoldPart::Fxmanifest => "fxmanifest.lua"@,
        ScaffoldPart::ClientScript => "src/client/client.lua"@,
        ScaffoldPart::ServerScript => "src/server/server.lua"@,
        ScaffoldPart::SharedUtils => "src/shared/utils.lua"@,
        ScaffoldPart::ShareConfig => "config/share.lua"@,
        ScaffoldPart::ClientConfig => "config/client.lua"@,
        ScaffoldPart::ServerConfig => "config/server.lua"@,
        ScaffoldPart::PackPatterns => ".pack"@,
        ScaffoldPart::StyluaToml => "stylua.toml"@,
    }
}

/// The parts of a new resource, in the order they are written.
pub open spec fn scaffold_parts() -> Seq<ScaffoldPart> {
    seq![
        ScaffoldPart::Fxmanifest,
        ScaffoldPart::ClientScript,
        ScaffoldPart::ServerScript,
        ScaffoldPart::SharedUtils,
        ScaffoldPart::ShareConfig,
        ScaffoldPart::ClientConfig,
        ScaffoldPart::ServerConfig,
        ScaffoldPart::PackPatterns,
        ScaffoldPart::StyluaToml,
    ]
}

/// A file to write: its path below the directory the resource is generated
/// in, and which part it holds.
pub struct PlannedFile {
    pub path: String,
    pub part: ScaffoldPart,
}

/// Where a part is written.
fn part_file(p: ScaffoldPart) -> (r: &'static str)
    ensures
        r@ == part_path(p),
{
    match p {
        ScaffoldPart::Fxmanifest => "fxmanifest.lua",
        ScaffoldPart::ClientScript => "src/client/client.lua",
        ScaffoldPart::ServerScript => "src/server/server.lua",
        ScaffoldPart::SharedUtils => "src/shared/utils.lua",
        ScaffoldPart::ShareConfig => "config/share.lua",
        ScaffoldPart::ClientConfig => "config/client.lua",
        ScaffoldPart::ServerConfig => "config/server.lua",
        ScaffoldPart::PackPatterns => ".pack",
        ScaffoldPart::StyluaToml => "stylua.toml",
    }
}

impl<'a> Scaffolding<'a> {
/// The planned file of a part.
    fn planned(&self, p: ScaffoldPart) -> (f: PlannedFile)
        ensures
            f.part == p,
            f.path@ == self.resource_name@ + "/"@ + part_path(p),
    {
        let mut path = String::new();
        push_str(&mut path, self.resource_name);
        push_str(&mut path, "/");
        push_str(&mut path, part_file(p));
        PlannedFile { path, part: p }
    }

    /// The files of the new resource, in the order they are written: each in
    /// the resource's own directory, named as `part_path` says.
    pub fn generate_all(&self) -> (files: Vec<PlannedFile>)
        ensures
            files@.len() == scaffold_parts().len(),
            forall|i: int|
                0 <= i < files@.len() ==> (#[trigger] files@[i]).part == scaffold_parts()[i]
                    && files@[i].path@ == self.resource_name@ + "/"@ + part_path(
                    scaffold_parts()[i],
                ),
    {
        let mut files: Vec<PlannedFile> = Vec::new();
        files.push(self.planned(ScaffoldPart::Fxmanifest));
        files.push(self.planned(ScaffoldPart::ClientScript));
        files.push(self.planned(ScaffoldPart::ServerScript));
        files.push(self.planned(ScaffoldPart::SharedUtils));
        files.push(self.planned(ScaffoldPart::ShareConfig));
        files.push(self.planned(ScaffoldPart::ClientConfig));
        files.push(self.planned(ScaffoldPart::ServerConfig));
        files.push(self.planned(ScaffoldPart::PackPatterns));
        files.push(self.planned(ScaffoldPart::StyluaToml));
        files
    }
}

} // verus!
