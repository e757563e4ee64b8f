//! Desktop configuration: what the flags and the configuration file say, merged and checked.
//!
//! The shell holds every vault the account can read, so what it needs is a root folder with one
//! subfolder per vault; a vault directory still opens exactly one vault (see [`Layout`]). A
//! server is optional: with none the app is standalone. A configuration that names no folder
//! at all opens the setup screen; flags that still name no folder are an error that explains
//! the file format ([`format_help`]).
use vstd::prelude::*;
use crate::ids::{ulid_decoded, VaultId};
use crate::remote::opt_view;
use crate::text::{chars_of, join_strs, string_of, trim, trim_exec};
use crate::tables::{emit_toml, lemma_tv_table_index, parse_toml, t_insert, t_insert_exec, toml_document, toml_emit, tv_table, Toml, TomlV};

verus! {

/// The settings one source gives: the flags, or the configuration file. Every one is
/// optional in either; the flags win.
#[derive(Debug, Clone, PartialEq, Eq, Default)]
pub struct Settings {
    pub root_dir: Option<String>,
    pub vault_dir: Option<String>,
    pub server_url: Option<String>,
    pub vault_id: Option<String>,
    pub ca_cert: Option<String>,
    pub token: Option<String>,
    pub web_dir: Option<String>,
}

/// Where this shell keeps its notes.
#[derive(Debug, Clone, PartialEq, Eq)]
pub enum Layout {
    /// One folder per vault under this root: every vault the account can read.
    Root(String),
    /// A single vault in a single folder, optionally joining an existing one by id.
    Single { dir: String, id: Option<VaultId> },
}

impl Layout {
    /// The directory the relay's port is derived from.
    pub fn anchor(&self) -> (r: &str)
        ensures
            r@ == match self {
                Layout::Root(root) => root@,
                Layout::Single { dir, .. } => dir@,
            },
    {
        match self {
            Layout::Root(root) => root.as_str(),
            Layout::Single { dir, .. } => dir.as_str(),
        }
    }
}

/// A complete, validated configuration.
#[derive(Debug, Clone, PartialEq, Eq)]
pub struct Config {
    pub layout: Layout,
    /// The server to sync with, or `None` for a standalone app.
    pub server_url: Option<String>,
    /// The file this configuration came from, and the one a later "connect a server" rewrites.
    pub config_path: Option<String>,
    pub ca_cert: Option<String>,
    pub token: Option<String>,
    pub web_dir: Option<String>,
}

/// What the first-run setup screen needs when there is no usable configuration yet.
#[derive(Debug, Clone, PartialEq, Eq)]
pub struct SetupContext {
    pub config_path: String,
    pub web_dir: Option<String>,
    pub suggested_root_dir: String,
}

/// The help text when the configuration names no folder: where the file is (`shown`), and how
/// to write it or pass the folder.
pub open spec fn help_text(shown: Seq<char>) -> Seq<char> {
    "lemmate-desktop needs a folder to keep your notes in, and none was given.\n\nPass one:\n\n    lemmate-desktop --root-dir /home/you/lemmate\n\nThat runs standalone: the notes live in that folder and nothing leaves this machine.\nAdd --server-url https://notes.example.org to sync them with a server as well.\n\nOr run it with no flags at all and it opens a setup screen that writes "@
        + shown
        + " for\nyou. That file looks like this, if you would rather write it yourself:\n\n    root_dir   = \"/home/you/lemmate\"           # required: one folder per vault below it\n    server_url = \"https://notes.example.org\"    # optional: omit to run standalone\n    ca_cert    = \"/etc/ssl/private-ca.pem\"      # optional: trust a private CA\n    web_dir    = \"/path/to/ui/dist\"             # optional: override the bundled web assets\n\nUse `vault_dir` instead of `root_dir` to open a single vault folder, with an optional\n`vault_id` to join an existing vault. Flags take precedence over the file.\n"@
}

/// The file's place as the help shows it.
pub open spec fn shown_path(path: Option<Seq<char>>) -> Seq<char> {
    match path {
        Some(p) => p,
        None => "desktop.toml in your configuration directory"@,
    }
}

/// The message printed when the configuration names no folder for the notes.
pub fn format_help(path: Option<&str>) -> (r: String)
    ensures
        r@ == help_text(
            shown_path(
                match path {
                    Some(p) => Some(p@),
                    None => None,
                },
            ),
        ),
{
    let shown = match path {
        Some(p) => p,
        None => "desktop.toml in your configuration directory",
    };
    let head = "lemmate-desktop needs a folder to keep your notes in, and none was given.\n\nPass one:\n\n    lemmate-desktop --root-dir /home/you/lemmate\n\nThat runs standalone: the notes live in that folder and nothing leaves this machine.\nAdd --server-url https://notes.example.org to sync them with a server as well.\n\nOr run it with no flags at all and it opens a setup screen that writes ";
    let tail = " for\nyou. That file looks like this, if you would rather write it yourself:\n\n    root_dir   = \"/home/you/lemmate\"           # required: one folder per vault below it\n    server_url = \"https://notes.example.org\"    # optional: omit to run standalone\n    ca_cert    = \"/etc/ssl/private-ca.pem\"      # optional: trust a private CA\n    web_dir    = \"/path/to/ui/dist\"             # optional: override the bundled web assets\n\nUse `vault_dir` instead of `root_dir` to open a single vault folder, with an optional\n`vault_id` to join an existing vault. Flags take precedence over the file.\n";
    join_strs(join_strs(head, shown).as_str(), tail)
}

fn copy_opt(o: &Option<String>) -> (r: Option<String>)
    ensures
        opt_view(r) == opt_view(*o),
{
    match o {
        Some(s) => Some(s.as_str().to_owned()),
        None => None,
    }
}

/// The first of two optional settings that is there.
pub open spec fn either(a: Option<String>, b: Option<String>) -> Option<Seq<char>> {
    match a {
        Some(x) => Some(x@),
        None => opt_view(b),
    }
}

fn either_exec(a: &Option<String>, b: &Option<String>) -> (r: Option<String>)
    ensures
        opt_view(r) == either(*a, *b),
{
    match a {
        Some(x) => Some(x.as_str().to_owned()),
        None => copy_opt(b),
    }
}

/// The root folder: the flag's, else — unless a vault folder is flagged — the file's.
pub open spec fn root_of(flags: Settings, file: Settings) -> Option<Seq<char>> {
    match flags.root_dir {
        Some(r) => Some(r@),
        None => if flags.vault_dir is None {
            opt_view(file.root_dir)
        } else {
            None
        },
    }
}

/// The single vault folder: the flag's, else — unless a root was found — the file's.
pub open spec fn vault_dir_of(flags: Settings, file: Settings) -> Option<Seq<char>> {
    match flags.vault_dir {
        Some(v) => Some(v@),
        None => if root_of(flags, file) is None {
            opt_view(file.vault_dir)
        } else {
            None
        },
    }
}

/// The server: the flag's, else the file's; blank is the same as none.
pub open spec fn server_of(flags: Settings, file: Settings) -> Option<Seq<char>> {
    match either(flags.server_url, file.server_url) {
        Some(u) => if trim(u).len() > 0 {
            Some(u)
        } else {
            None
        },
        None => None,
    }
}

/// `invalid vault_id "<id>": expected a ULID`.
pub open spec fn bad_vault_id_message(s: Seq<char>) -> Seq<char> {
    "invalid vault_id "@ + crate::attachments::str_debug(s) + ": expected a ULID"@
}

/// Merge the file's settings with the flags and check them: flags win; a flag naming one layout
/// wins over a file naming the other; a blank server is none; with no folder at all the error
/// is the help text; a vault id must be a ULID (it only matters for a single vault).
pub fn resolve(flags: &Settings, file: &Settings, path: Option<&str>) -> (r: Result<Config, String>)
    ensures
        root_of(*flags, *file) is None && vault_dir_of(*flags, *file) is None ==> (r matches Err(m) && m@
            == help_text(
            shown_path(
                match path {
                    Some(p) => Some(p@),
                    None => None,
                },
            ),
        )),
        match r {
            Ok(c) => {
                &&& opt_view(c.server_url) == server_of(*flags, *file)
                &&& opt_view(c.ca_cert) == either(flags.ca_cert, file.ca_cert)
                &&& opt_view(c.token) == either(flags.token, file.token)
                &&& opt_view(c.web_dir) == either(flags.web_dir, file.web_dir)
                &&& match root_of(*flags, *file) {
                    Some(root) => c.layout matches Layout::Root(x) && x@ == root,
                    None => c.layout matches Layout::Single { dir, id } && Some(dir@) == vault_dir_of(
                        *flags,
                        *file,
                    ) && match either(flags.vault_id, file.vault_id) {
                        Some(s) => id matches Some(v) && ulid_decoded(trim(s)) == Some(v.0),
                        None => id is None,
                    },
                }
            },
            Err(m) => root_of(*flags, *file) is None && vault_dir_of(*flags, *file) is None || match either(
                flags.vault_id,
                file.vault_id,
            ) {
                Some(s) => ulid_decoded(trim(s)) is None && m@ == bad_vault_id_message(s),
                None => false,
            },
        },
{
    let root_dir: Option<String> = match &flags.root_dir {
        Some(r) => Some(r.as_str().to_owned()),
        None => if flags.vault_dir.is_none() {
            copy_opt(&file.root_dir)
        } else {
            None
        },
    };
    let vault_dir: Option<String> = match &flags.vault_dir {
        Some(v) => Some(v.as_str().to_owned()),
        None => if root_dir.is_none() {
            copy_opt(&file.vault_dir)
        } else {
            None
        },
    };
    let server_url = match either_exec(&flags.server_url, &file.server_url) {
        Some(u) => if trim_exec(&chars_of(u.as_str())).len() > 0 {
            Some(u)
        } else {
            None
        },
        None => None,
    };
    if root_dir.is_none() && vault_dir.is_none() {
        return Err(format_help(path));
    }
    let vault_id = match either_exec(&flags.vault_id, &file.vault_id) {
        Some(s) => {
            let t = string_of(&trim_exec(&chars_of(s.as_str())));
            match VaultId::parse(t.as_str()) {
                Ok(v) => Some(v),
                Err(_) => {
                    let a = join_strs("invalid vault_id ", crate::attachments::debug_quoted(s.as_str()).as_str());
                    return Err(join_strs(a.as_str(), ": expected a ULID"));
                },
            }
        },
        None => None,
    };
    let layout = match root_dir {
        Some(root) => Layout::Root(root),
        None => match vault_dir {
            Some(dir) => Layout::Single { dir, id: vault_id },
            None => Layout::Root(String::new()),
        },
    };
    Ok(
        Config {
            layout,
            server_url,
            config_path: match path {
                Some(p) => Some(p.to_owned()),
                None => None,
            },
            ca_cert: either_exec(&flags.ca_cert, &file.ca_cert),
            token: either_exec(&flags.token, &file.token),
            web_dir: either_exec(&flags.web_dir, &file.web_dir),
        },
    )
}

/// Whether the app opens the setup screen: neither the flags (a folder or a server) nor the
/// file (a folder) say where the notes go. `path` is the configuration file's place, when there
/// is one; `home` the user's home folder, under which a root is suggested.
pub fn needs_setup(flags: &Settings, file: &Settings, path: Option<&str>, home: &str) -> (r: Option<SetupContext>)
    ensures
        match r {
            Some(ctx) => flags.root_dir is None && flags.vault_dir is None && flags.server_url is None
                && file.root_dir is None && file.vault_dir is None && path is Some && ctx.config_path@
                == path->0@ && opt_view(ctx.web_dir) == either(flags.web_dir, file.web_dir)
                && ctx.suggested_root_dir@ == home@ + "/lemmate"@,
            None => flags.root_dir is Some || flags.vault_dir is Some || flags.server_url is Some || path is None
                || file.root_dir is Some || file.vault_dir is Some,
        },
{
    if flags.root_dir.is_some() || flags.vault_dir.is_some() || flags.server_url.is_some() {
        return None;
    }
    let p = match path {
        Some(p) => p,
        None => return None,
    };
    if file.root_dir.is_some() || file.vault_dir.is_some() {
        return None;
    }
    Some(
        SetupContext {
            config_path: p.to_owned(),
            web_dir: either_exec(&flags.web_dir, &file.web_dir),
            suggested_root_dir: join_strs(home, "/lemmate"),
        },
    )
}

/// A string value for a key, when it is not blank: trimmed.
pub open spec fn nonblank(v: Option<Seq<char>>) -> Option<Seq<char>> {
    match v {
        Some(u) => if trim(u).len() > 0 {
            Some(trim(u))
        } else {
            None
        },
        None => None,
    }
}

/// The table the setup screen's answers make: the folder; the server and the CA only when they
/// are not blank (trimmed), so a standalone file names no server.
pub open spec fn setup_table(root_dir: Seq<char>, server_url: Option<Seq<char>>, ca_cert: Option<Seq<char>>) -> Seq<
    (Seq<char>, TomlV),
> {
    let t0 = seq![("root_dir"@, TomlV::Str(root_dir))];
    let t1 = match nonblank(server_url) {
        Some(u) => t_insert(t0, "server_url"@, TomlV::Str(u)),
        None => t0,
    };
    match nonblank(ca_cert) {
        Some(c) => t_insert(t1, "ca_cert"@, TomlV::Str(c)),
        None => t1,
    }
}

/// What a configuration file becomes with a server recorded: `server_url` (and `ca_cert`, when
/// given) set, every other key kept; `None` when the file is there but not TOML.
pub open spec fn server_table(existing: Option<Seq<char>>, server_url: Seq<char>, ca_cert: Option<Seq<char>>) -> Option<
    Seq<(Seq<char>, TomlV)>,
> {
    let base = match existing {
        Some(t) => toml_document(t),
        None => Some(seq![]),
    };
    match base {
        Some(b) => {
            let t1 = t_insert(b, "server_url"@, TomlV::Str(server_url));
            Some(
                match ca_cert {
                    Some(c) => t_insert(t1, "ca_cert"@, TomlV::Str(c)),
                    None => t1,
                },
            )
        },
        None => None,
    }
}

/// Why a configuration file could not be made: the one there is not TOML, or writing failed.
#[derive(Debug, Clone, PartialEq, Eq)]
pub enum ConfigFileError {
    NotToml,
    Write(String),
}

fn nonblank_exec(v: &Option<String>) -> (r: Option<String>)
    ensures
        opt_view(r) == nonblank(opt_view(*v)),
{
    match v {
        Some(u) => {
            let t = trim_exec(&chars_of(u.as_str()));
            if t.len() > 0 {
                Some(string_of(&t))
            } else {
                None
            }
        },
        None => None,
    }
}

impl Config {
    /// The configuration file the setup screen's answers write (see `setup_table`).
    pub fn write_setup(req: &crate::local::SetupRequest) -> (r: Result<String, String>)
        ensures
            match toml_emit(setup_table(req.root_dir@, opt_view(req.server_url), opt_view(req.ca_cert))) {
                Ok(t) => r matches Ok(x) && x@ == t,
                Err(m) => r matches Err(x) && x@ == m,
            },
    {
        let mut table: Vec<(String, Toml)> = Vec::new();
        table.push(("root_dir".to_owned(), Toml::Str(req.root_dir.as_str().to_owned())));
        proof {
            reveal_strlit("root_dir");
            lemma_tv_table_index(table@);
            assert(tv_table(table@) =~= seq![("root_dir"@, TomlV::Str(req.root_dir@))]);
        }
        match nonblank_exec(&req.server_url) {
            Some(u) => t_insert_exec(&mut table, "server_url", Toml::Str(u)),
            None => {},
        }
        match nonblank_exec(&req.ca_cert) {
            Some(c) => t_insert_exec(&mut table, "ca_cert", Toml::Str(c)),
            None => {},
        }
        emit_toml(&table)
    }

    /// The configuration file with a server recorded, leaving every other key as it was, from
    /// the file's current text (`None` when there is no file yet).
    pub fn set_server(existing: Option<&str>, server_url: &str, ca_cert: Option<&str>) -> (r: Result<String, ConfigFileError>)
        ensures
            match server_table(
                match existing {
                    Some(t) => Some(t@),
                    None => None,
                },
                server_url@,
                match ca_cert {
                    Some(c) => Some(c@),
                    None => None,
                },
            ) {
                Some(t) => match toml_emit(t) {
                    Ok(x) => r matches Ok(y) && y@ == x,
                    Err(m) => r matches Err(ConfigFileError::Write(y)) && y@ == m,
                },
                None => r matches Err(ConfigFileError::NotToml),
            },
    {
        let mut table: Vec<(String, Toml)> = match existing {
            Some(t) => match parse_toml(t) {
                Some(es) => es,
                None => {
                    return Err(ConfigFileError::NotToml);
                },
            },
            None => Vec::new(),
        };
        proof {
            if existing is None {
                assert(tv_table(table@) =~= Seq::<(Seq<char>, TomlV)>::empty());
            }
        }
        t_insert_exec(&mut table, "server_url", Toml::Str(server_url.to_owned()));
        match ca_cert {
            Some(c) => t_insert_exec(&mut table, "ca_cert", Toml::Str(c.to_owned())),
            None => {},
        }
        match emit_toml(&table) {
            Ok(x) => Ok(x),
            Err(m) => Err(ConfigFileError::Write(m)),
        }
    }
}

} // verus!
