//! Consts and keys for env vars

use vstd::prelude::*;

verus! {

/// The setting that names the template file.
pub const TEMPLATE_ENV: &'static str = "TOML_CONST_TEMPLATE";

/// The setting that names the debug file.
pub const DEBUG_ENV: &'static str = "TOML_CONST_DEBUG";

/// The setting that names the deploy file.
pub const DEPLOY_ENV: &'static str = "TOML_CONST_DEPLOY";

/// The setting that names the directory of the configuration files.
pub const CONFIG_PATH_ENV: &'static str = "TOML_CONST_CONFIG_PATH";

/// The setting that names the generated file.
pub const GENERATED_FILE_PATH_ENV: &'static str = "TOML_CONST_GENERATED_PATH";

/// Relative path from indicated manifest to root manifest.
///
/// A root manifest may exist if it is a workspace, or a parent package of
/// the current manifest.
pub const ROOT_MANIFEST_RELATIVE_PATH: &'static str = "TOML_CONST_ROOT_MANIFEST_RELATIVE_PATH";

/// What a new configuration file holds.
pub const CONFIG_TOML_BOILERPLATE: &'static str =
    "# this key MUST be present in all configuration files
use = false

# add your config key-value pairs below:
";

} // verus!
