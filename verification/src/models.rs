//! Records of the panel that the services read.
use vstd::prelude::*;

verus! {

/// A server as the services see it.
#[derive(Debug, Clone)]
pub struct Server {
    pub id: i64,
    pub uuid: String,
    pub name: String,
    pub blueprint_id: i64,
    pub startup: String,
    pub port: Option<i64>,
    pub memory_mb: i64,
    pub disk_mb: i64,
    pub cpu_percent: i64,
}

/// Where the panel keeps its files.
#[derive(Debug, Clone)]
pub struct Paths {
    pub servers_dir: String,
    pub backups_dir: String,
    pub blueprints_dir: String,
    pub logs_dir: String,
    pub datalab_dir: String,
}

/// The offsite mirror of backups.
#[derive(Debug, Clone)]
pub struct Mirror {
    pub enabled: bool,
    pub path: Option<String>,
    pub keep: usize,
}

/// The panel's configuration as far as the services read it.
#[derive(Debug, Clone)]
pub struct Config {
    pub paths: Paths,
    pub mirror: Mirror,
}

/// What values a blueprint's input takes. The bounds of a number are kept as they
/// are printed.
#[derive(Debug, Clone)]
pub enum InputKind {
    Text { max_len: Option<usize>, pattern: Option<String> },
    Number { min: Option<String>, max: Option<String> },
    Bool,
    Choice { options: Vec<String> },
    Path { max_len: Option<usize> },
    Url,
}

/// An input that a blueprint declares.
#[derive(Debug, Clone)]
pub struct BlueprintInput {
    pub name: String,
    pub description: String,
    pub env_var: String,
    pub default_value: String,
    pub user_viewable: bool,
    pub user_editable: bool,
    pub required: bool,
    pub kind: InputKind,
}

/// A blueprint: how a kind of server is set up and launched.
#[derive(Debug, Clone)]
pub struct Blueprint {
    pub id: i64,
    pub uuid: String,
    pub name: String,
    pub description: String,
    pub author: String,
    pub category: String,
    pub runtime_hint: String,
    pub startup: String,
    pub default_config: Option<String>,
    pub install_script: Option<String>,
    pub variables: Vec<BlueprintInput>,
    pub stop_command: String,
    pub created_at: String,
    pub updated_at: String,
}

} // verus!
