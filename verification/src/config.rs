//! Configuration.
//!
//! There are no defaults and no fallbacks. Exactly one file is read, the one
//! that an environment variable names, and the program refuses to start where
//! that is unset or the file is missing, malformed or incomplete.

use crate::text;
use vstd::prelude::*;

verus! {

/// The environment variable that names the config file.
pub const CONFIG_ENV_VAR: &'static str = "SIMPLE_ALBUM_CONFIG";

/// All settings.
#[derive(Debug, Clone)]
pub struct Config {
    pub server: ServerConfig,
    pub album: AlbumConfig,
    pub state: StateConfig,
    pub worker: WorkerConfig,
    pub admin: AdminConfig,
}

/// The web server.
#[derive(Debug, Clone)]
pub struct ServerConfig {
    /// Socket address to bind.
    pub bind: String,
    /// Externally visible base address of the site.
    pub public_url: String,
    /// Album name, shown when the album root is shared.
    pub site_name: String,
}

/// The photo tree being served.
#[derive(Debug, Clone)]
pub struct AlbumConfig {
    /// Path to the root of the photo tree. It must exist.
    pub root: String,
}

/// Persistent state.
#[derive(Debug, Clone)]
pub struct StateConfig {
    /// The database file. Missing parent directories are created.
    pub db_path: String,
}

/// The thumbnail worker.
#[derive(Debug, Clone)]
pub struct WorkerConfig {
    /// Number of concurrent thumbnail jobs; zero selects by the number of cores.
    pub threads: u32,
}

/// Admin authentication.
#[derive(Debug, Clone)]
pub struct AdminConfig {
    /// Shared secret that changes require. It must not be empty.
    pub key: String,
}

/// Why a configuration is rejected.
#[derive(Debug, Clone, Copy, PartialEq, Eq, Structural)]
pub enum ConfigError {
    RootEmpty,
    RootNotDir,
    DbPathEmpty,
    BindEmpty,
    KeyEmpty,
}

/// The first reason to reject a configuration.
pub open spec fn config_error(config: Config, root_is_dir: bool) -> Option<ConfigError> {
    if config.album.root@.len() == 0 {
        Some(ConfigError::RootEmpty)
    } else if !root_is_dir {
        Some(ConfigError::RootNotDir)
    } else if config.state.db_path@.len() == 0 {
        Some(ConfigError::DbPathEmpty)
    } else if text::trimmed(config.server.bind@).len() == 0 {
        Some(ConfigError::BindEmpty)
    } else if text::trimmed(config.admin.key@).len() == 0 {
        Some(ConfigError::KeyEmpty)
    } else {
        None
    }
}

/// The message for a rejected configuration.
pub open spec fn error_text(error: ConfigError, root: Seq<char>) -> Seq<char> {
    match error {
        ConfigError::RootEmpty => "`album.root` is empty"@,
        ConfigError::RootNotDir => "`album.root` `"@ + root
            + "` does not exist or is not a directory"@,
        ConfigError::DbPathEmpty => "`state.db_path` is empty"@,
        ConfigError::BindEmpty => "`server.bind` is empty"@,
        ConfigError::KeyEmpty => 
            "`admin.key` is empty. Set a secure value in your album.toml (see README for how to generate one)"@,
    }
}

impl Config {
    /// Rejects configurations that would otherwise fail confusingly later.
    /// `root_is_dir` says whether the album root is a directory.
    pub fn validate(&self, root_is_dir: bool) -> (r: Result<(), ConfigError>)
        ensures
            match config_error(*self, root_is_dir) {
                Some(e) => r is Err && r->Err_0 == e,
                None => r is Ok,
            },
    {
        if self.album.root.as_str().is_empty() {
            return Err(ConfigError::RootEmpty);
        }
        if !root_is_dir {
            return Err(ConfigError::RootNotDir);
        }
        if self.state.db_path.as_str().is_empty() {
            return Err(ConfigError::DbPathEmpty);
        }
        if text::is_blank(&self.server.bind) {
            return Err(ConfigError::BindEmpty);
        }
        if text::is_blank(&self.admin.key) {
            return Err(ConfigError::KeyEmpty);
        }
        Ok(())
    }
}

impl ConfigError {
    /// The message for a configuration whose album root is `root`.
    pub fn message(&self, root: &str) -> (r: String)
        ensures
            r@ == error_text(*self, root@),
    {
        match self {
            ConfigError::RootEmpty => "`album.root` is empty".to_owned(),
            ConfigError::RootNotDir => {
                let mut out: String = "`album.root` `".to_owned();
                out.append(root);
                out.append("` does not exist or is not a directory");
                out
            },
            ConfigError::DbPathEmpty => "`state.db_path` is empty".to_owned(),
            ConfigError::BindEmpty => "`server.bind` is empty".to_owned(),
            ConfigError::KeyEmpty => {
                "`admin.key` is empty. Set a secure value in your album.toml (see README for how to generate one)".to_owned()
            },
        }
    }
}

/// What the environment says of the config file.
#[derive(Debug, Clone)]
pub enum EnvValue {
    Unset,
    /// Set, but not valid UTF-8.
    NotUnicode,
    Given(String),
}

/// Why there is no config file.
#[derive(Debug, Clone)]
pub enum ConfigPathError {
    Unset,
    NotUnicode,
    Empty,
    NotAFile(String),
}

/// A hint for someone who has not set the variable.
pub open spec fn hint() -> Seq<char> {
    "Point it at your album.toml, for example:\n    "@ + CONFIG_ENV_VAR@
        + "=/etc/album/album.toml album"@
}

/// The message where there is no config file.
pub open spec fn path_error_text(error: ConfigPathError) -> Seq<char> {
    match error {
        ConfigPathError::Unset => CONFIG_ENV_VAR@ + " is not set. "@ + hint(),
        ConfigPathError::NotUnicode => CONFIG_ENV_VAR@ + " is set but is not valid UTF-8"@,
        ConfigPathError::Empty => CONFIG_ENV_VAR@ + " is set but empty. "@ + hint(),
        ConfigPathError::NotAFile(path) => "config file `"@ + path@ + "` (from "@ + CONFIG_ENV_VAR@
            + ") does not exist or is not a regular file"@,
    }
}

/// A hint for someone who has not set the variable.
pub fn usage_hint() -> (r: String)
    ensures
        r@ == hint(),
{
    let mut out: String = "Point it at your album.toml, for example:\n    ".to_owned();
    out.append(CONFIG_ENV_VAR);
    out.append("=/etc/album/album.toml album");
    out
}

/// The config file that is named, where there is one.
pub open spec fn named_file(value: EnvValue, is_file: bool) -> Option<Seq<char>> {
    match value {
        EnvValue::Given(raw) => if text::trimmed(raw@).len() > 0 && is_file {
            Some(raw@)
        } else {
            None
        },
        _ => None,
    }
}

/// The path of the config file. The variable must be set, must not be blank, and
/// must name a regular file, which `is_file` says.
pub fn config_path(value: EnvValue, is_file: bool) -> (r: Result<String, ConfigPathError>)
    ensures
        match value {
            EnvValue::Unset => r is Err && r->Err_0 is Unset,
            EnvValue::NotUnicode => r is Err && r->Err_0 is NotUnicode,
            EnvValue::Given(raw) => if text::trimmed(raw@).len() == 0 {
                r is Err && r->Err_0 is Empty
            } else if !is_file {
                r is Err && r->Err_0 is NotAFile && r->Err_0->NotAFile_0@ == raw@
            } else {
                r is Ok && r->Ok_0@ == raw@
            },
        },
        match named_file(value, is_file) {
            Some(path) => r is Ok && r->Ok_0@ == path,
            None => r is Err,
        },
{
    match value {
        EnvValue::Unset => Err(ConfigPathError::Unset),
        EnvValue::NotUnicode => Err(ConfigPathError::NotUnicode),
        EnvValue::Given(raw) => {
            if text::is_blank(&raw) {
                Err(ConfigPathError::Empty)
            } else if !is_file {
                Err(ConfigPathError::NotAFile(raw))
            } else {
                Ok(raw)
            }
        },
    }
}

impl ConfigPathError {
    /// The message where there is no config file.
    pub fn message(&self) -> (r: String)
        ensures
            r@ == path_error_text(*self),
    {
        match self {
            ConfigPathError::Unset => {
                let mut out: String = CONFIG_ENV_VAR.to_owned();
                out.append(" is not set. ");
                out.append(&usage_hint());
                out
            },
            ConfigPathError::NotUnicode => {
                let mut out: String = CONFIG_ENV_VAR.to_owned();
                out.append(" is set but is not valid UTF-8");
                out
            },
            ConfigPathError::Empty => {
                let mut out: String = CONFIG_ENV_VAR.to_owned();
                out.append(" is set but empty. ");
                out.append(&usage_hint());
                out
            },
            ConfigPathError::NotAFile(path) => {
                let mut out: String = "config file `".to_owned();
                out.append(path);
                out.append("` (from ");
                out.append(CONFIG_ENV_VAR);
                out.append(") does not exist or is not a regular file");
                out
            },
        }
    }
}

/// An accepted configuration has an album root, a database path, an address to
/// bind and an admin key, none of them blank where blanks do not count.
pub proof fn law_an_accepted_configuration_is_complete(config: Config, root_is_dir: bool)
    requires
        config_error(config, root_is_dir) is None,
    ensures
        config.album.root@.len() > 0,
        root_is_dir,
        config.state.db_path@.len() > 0,
        text::trimmed(config.server.bind@).len() > 0,
        text::trimmed(config.admin.key@).len() > 0,
        config.admin.key@.len() > 0,
{
    let key = config.admin.key@;
    if key.len() == 0 {
        assert(text::trim_white_end(key) == key);
        assert(text::trim_white_start(key) == key);
    }
}

/// A complete configuration is accepted, and the first setting that is missing
/// decides why another is not.
pub proof fn law_why_a_configuration_is_rejected(config: Config, root_is_dir: bool)
    ensures
        ({
            let root = config.album.root@.len() > 0;
            let db = config.state.db_path@.len() > 0;
            let bind = text::trimmed(config.server.bind@).len() > 0;
            let key = text::trimmed(config.admin.key@).len() > 0;
            let e = config_error(config, root_is_dir);
            &&& e is None <==> root && root_is_dir && db && bind && key
            &&& e == Some(ConfigError::RootEmpty) <==> !root
            &&& e == Some(ConfigError::RootNotDir) <==> root && !root_is_dir
            &&& e == Some(ConfigError::DbPathEmpty) <==> root && root_is_dir && !db
            &&& e == Some(ConfigError::BindEmpty) <==> root && root_is_dir && db && !bind
            &&& e == Some(ConfigError::KeyEmpty) <==> root && root_is_dir && db && bind && !key
        }),
{
}

/// There is one config file, and it is the one the variable names: it is taken as it
/// stands where it exists, and nothing else is tried where it does not, or where the
/// variable is blank or unset.
pub proof fn law_only_the_named_file_is_read(raw: String, is_file: bool)
    ensures
        named_file(EnvValue::Unset, is_file) is None,
        named_file(EnvValue::NotUnicode, is_file) is None,
        named_file(EnvValue::Given(raw), false) is None,
        (forall|i: int| 0 <= i < raw@.len() ==> text::is_white_space(#[trigger] raw@[i]))
            ==> named_file(EnvValue::Given(raw), true) is None,
        raw@.len() > 0 && !text::is_white_space(raw@.first()) && !text::is_white_space(raw@.last())
            ==> named_file(EnvValue::Given(raw), true) == Some(raw@),
{
    let nothing = Seq::<char>::empty();
    if forall|i: int| 0 <= i < raw@.len() ==> text::is_white_space(#[trigger] raw@[i]) {
        text::law_trimming_takes_only_white_space(raw@, nothing, nothing);
        assert(raw@ + nothing + nothing =~= raw@);
    }
    if raw@.len() > 0 && !text::is_white_space(raw@.first()) && !text::is_white_space(
        raw@.last(),
    ) {
        text::law_trimming_takes_only_white_space(nothing, raw@, nothing);
        assert(nothing + raw@ + nothing =~= raw@);
    }
}

} // verus!
