//! The configuration file locations, relative to a caller-supplied
//! configuration directory.

use vstd::prelude::*;
use vstd::string::StringExecFns;

verus! {

/// The configuration directory joined with one file name.
fn get_config_path(config_dir: &str, target: &str) -> (r: String)
    ensures
        r@ == config_dir@ + target@,
{
    String::from_str(config_dir).concat(target)
}

/// Where the team roster configuration lives under `config_dir`.
pub fn get_team_config_path(config_dir: &str) -> (r: String)
    ensures
        r@ == config_dir@ + "/teams.toml"@,
{
    get_config_path(config_dir, "/teams.toml")
}

/// Where the league structure configuration lives under `config_dir`.
pub fn get_leagues_config_path(config_dir: &str) -> (r: String)
    ensures
        r@ == config_dir@ + "/leagues.toml"@,
{
    get_config_path(config_dir, "/leagues.toml")
}

} // verus!
