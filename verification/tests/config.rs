use simplealbum::config::{
    config_path, usage_hint, AdminConfig, AlbumConfig, Config, ConfigError, ConfigPathError,
    EnvValue, ServerConfig, StateConfig, WorkerConfig, CONFIG_ENV_VAR,
};

fn config() -> Config {
    Config {
        server: ServerConfig {
            bind: "127.0.0.1:8080".to_string(),
            public_url: "https://album.test/".to_string(),
            site_name: "Album".to_string(),
        },
        album: AlbumConfig { root: "/srv/photos".to_string() },
        state: StateConfig { db_path: "/srv/album.db".to_string() },
        worker: WorkerConfig { threads: 0 },
        admin: AdminConfig { key: "key".to_string() },
    }
}

#[test]
fn a_complete_configuration_is_accepted() {
    assert_eq!(config().validate(true), Ok(()));
}

#[test]
fn each_missing_setting_is_reported() {
    let mut c = config();
    c.album.root = String::new();
    assert_eq!(c.validate(false), Err(ConfigError::RootEmpty));
    assert_eq!(config().validate(false), Err(ConfigError::RootNotDir));
    let mut c = config();
    c.state.db_path = String::new();
    c.server.bind = " ".to_string();
    assert_eq!(c.validate(true), Err(ConfigError::DbPathEmpty));
    let mut c = config();
    c.server.bind = " \t".to_string();
    assert_eq!(c.validate(true), Err(ConfigError::BindEmpty));
    let mut c = config();
    c.admin.key = "\u{a0}\n".to_string();
    assert_eq!(c.validate(true), Err(ConfigError::KeyEmpty));
}

#[test]
fn config_errors_read_well() {
    assert_eq!(ConfigError::RootEmpty.message(""), "`album.root` is empty");
    assert_eq!(
        ConfigError::RootNotDir.message("/x"),
        "`album.root` `/x` does not exist or is not a directory"
    );
    assert_eq!(ConfigError::DbPathEmpty.message(""), "`state.db_path` is empty");
    assert_eq!(ConfigError::BindEmpty.message(""), "`server.bind` is empty");
    assert_eq!(
        ConfigError::KeyEmpty.message(""),
        "`admin.key` is empty. Set a secure value in your album.toml \
         (see README for how to generate one)"
    );
}

#[test]
fn the_config_file_is_the_one_the_environment_names() {
    let given = |s: &str| EnvValue::Given(s.to_string());
    assert_eq!(config_path(given("/etc/a.toml"), true).ok(), Some("/etc/a.toml".to_string()));
    assert!(matches!(config_path(EnvValue::Unset, true), Err(ConfigPathError::Unset)));
    assert!(matches!(config_path(EnvValue::NotUnicode, true), Err(ConfigPathError::NotUnicode)));
    assert!(matches!(config_path(given("  "), true), Err(ConfigPathError::Empty)));
    let missing = config_path(given("/etc/a.toml"), false).unwrap_err();
    assert_eq!(
        missing.message(),
        "config file `/etc/a.toml` (from SIMPLE_ALBUM_CONFIG) does not exist or is not a regular file"
    );
}

#[test]
fn the_messages_for_a_missing_config_file_give_a_hint() {
    assert_eq!(CONFIG_ENV_VAR, "SIMPLE_ALBUM_CONFIG");
    let hint = "Point it at your album.toml, for example:\n    \
                SIMPLE_ALBUM_CONFIG=/etc/album/album.toml album";
    assert_eq!(usage_hint(), hint);
    assert_eq!(
        ConfigPathError::Unset.message(),
        format!("SIMPLE_ALBUM_CONFIG is not set. {hint}")
    );
    assert_eq!(
        ConfigPathError::Empty.message(),
        format!("SIMPLE_ALBUM_CONFIG is set but empty. {hint}")
    );
    assert_eq!(
        ConfigPathError::NotUnicode.message(),
        "SIMPLE_ALBUM_CONFIG is set but is not valid UTF-8"
    );
}
