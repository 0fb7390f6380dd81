//! What the command-line tool is given and what it writes into the build
//! configuration.

use vstd::prelude::*;
use vstd::string::StringExecFns;
use crate::entries::{find_key, has_key, key_index, lemma_key_index, unique_keys, value_of};
use crate::value::{insert, inserted, lemma_doc_table, table_of, Doc, Item, Table};

verus! {

/// The arguments of the command-line tool.
#[derive(Clone, Debug)]
pub struct CliArgs {
    pub command: MainSubCommands,
}

/// What the tool is asked to do.
#[derive(Clone, Debug)]
pub enum MainSubCommands {
    /// Initialize a new project with boilerplate
    Init(Init),
}

/// What a project is initialized with.
#[derive(Clone, Debug)]
pub struct Init {
    /// Path to Cargo.toml
    pub manifest_path: String,
    /// Configuration dir for toml files, relative to the root cargo manifest.
    pub config_path: String,
    /// Path to generated file, relative to the provided manifest path
    pub generated_file_path: String,
}

/// The five settings of the environment table, in the order in which they
/// are written: template, debug, deploy, configuration path, generated path.
pub open spec fn with_env(
    env: Seq<(Seq<char>, Doc)>,
    template: Seq<char>,
    debug: Seq<char>,
    deploy: Seq<char>,
    config_path: Seq<char>,
    generated_path: Seq<char>,
) -> Seq<(Seq<char>, Doc)> {
    inserted(
        inserted(
            inserted(
                inserted(
                    inserted(env, "TOML_CONST_TEMPLATE"@, Doc::Str(template)),
                    "TOML_CONST_DEBUG"@,
                    Doc::Str(debug),
                ),
                "TOML_CONST_DEPLOY"@,
                Doc::Str(deploy),
            ),
            "TOML_CONST_CONFIG_PATH"@,
            Doc::Str(config_path),
        ),
        "TOML_CONST_GENERATED_PATH"@,
        Doc::Str(generated_path),
    )
}

/// Writes the five settings into the environment table.
pub fn insert_into_env(
    env_table: &mut Table,
    template: &str,
    debug: &str,
    deploy: &str,
    config_path: &str,
    generated_path: &str,
)
    requires
        unique_keys(table_of(old(env_table)@)),
    ensures
        table_of(final(env_table)@) == with_env(
            table_of(old(env_table)@),
            template@,
            debug@,
            deploy@,
            config_path@,
            generated_path@,
        ),
        unique_keys(table_of(final(env_table)@)),
{
    insert(env_table, String::from_str("TOML_CONST_TEMPLATE"), Item::String(template.to_owned()));
    insert(env_table, String::from_str("TOML_CONST_DEBUG"), Item::String(debug.to_owned()));
    insert(env_table, String::from_str("TOML_CONST_DEPLOY"), Item::String(deploy.to_owned()));
    insert(
        env_table,
        String::from_str("TOML_CONST_CONFIG_PATH"),
        Item::String(config_path.to_owned()),
    );
    insert(
        env_table,
        String::from_str("TOML_CONST_GENERATED_PATH"),
        Item::String(generated_path.to_owned()),
    );
}

/// The build configuration with the settings written into its `env` table,
/// which is made where there is none; nothing where `env` is not a table.
pub open spec fn with_config(
    config: Seq<(Seq<char>, Doc)>,
    template: Seq<char>,
    debug: Seq<char>,
    deploy: Seq<char>,
    config_path: Seq<char>,
    generated_path: Seq<char>,
    relative_root: Seq<char>,
) -> Option<Seq<(Seq<char>, Doc)>> {
    let env = if has_key(config, "env"@) {
        value_of(config, "env"@)
    } else {
        Doc::Table(Seq::empty())
    };
    match env {
        Doc::Table(entries) => Some(
            inserted(
                config,
                "env"@,
                Doc::Table(
                    with_env(
                        entries,
                        template,
                        debug,
                        deploy,
                        relative_root + config_path,
                        generated_path,
                    ),
                ),
            ),
        ),
        _ => None,
    }
}

/// Update the .cargo/config.toml table
pub fn update_config_toml(
    toml: &mut Table,
    template: &str,
    debug: &str,
    deploy: &str,
    config_path: &str,
    generated_path: &str,
    relative_root: &str,
) -> (res: Result<(), String>)
    requires
        Doc::Table(table_of(old(toml)@)).well_formed(),
    ensures
        match with_config(
            table_of(old(toml)@),
            template@,
            debug@,
            deploy@,
            config_path@,
            generated_path@,
            relative_root@,
        ) {
            Some(config) => res is Ok && table_of(final(toml)@) == config,
            None => res matches Err(message) && message@ == "key \"env\" not defined as a table"@
                && table_of(final(toml)@) == table_of(old(toml)@),
        },
{
    let ghost config = table_of(toml@);
    let actual_config_path = String::from_str(relative_root).concat(config_path);
    let name = String::from_str("env");
    let mut env_table: Table = match find_key(toml, &name) {
        Some(at) => {
            assert(config[at as int] == (toml[at as int].0@, toml[at as int].1@));
            assert(config[at as int].1.well_formed());
            proof {
                lemma_key_index(config, at as int);
            }
            match &toml[at].1 {
                Item::Table(t) => {
                    proof {
                        lemma_doc_table(*t);
                    }
                    crate::value::clone_table(t)
                },
                _ => {
                    return Err(String::from_str("key \"env\" not defined as a table"));
                },
            }
        },
        None => {
            proof {
                if has_key(config, "env"@) {
                    let t = key_index(config, "env"@);
                    assert(config[t].0 == toml[t].0@);
                }
            }
            let empty: Table = Vec::new();
            assert(table_of(empty@) =~= Seq::empty());
            empty
        },
    };
    assert(Doc::Table(table_of(env_table@)).well_formed());
    insert_into_env(
        &mut env_table,
        template,
        debug,
        deploy,
        actual_config_path.as_str(),
        generated_path,
    );
    proof {
        lemma_doc_table(env_table);
    }
    insert(toml, name, Item::Table(env_table));
    Ok(())
}

/// `n` steps to the parent directory: `../` written `n` times.
pub open spec fn parent_steps(n: nat) -> Seq<char>
    decreases n,
{
    if n == 0 {
        Seq::empty()
    } else {
        parent_steps((n - 1) as nat) + "../"@
    }
}

/// The way from a manifest up to the root manifest, which lies `delta`
/// components above the manifest file: one step less than `delta`.
pub fn relative_root(delta: usize) -> (root: String)
    ensures
        root@ == parent_steps(
            if delta >= 1 {
                (delta - 1) as nat
            } else {
                0
            },
        ),
{
    let mut root = String::new();
    let mut i: usize = 1;
    while i < delta
        invariant
            1 <= i,
            i <= delta || i == 1,
            root@ == parent_steps((i - 1) as nat),
        decreases delta - i,
    {
        root.append("../");
        i += 1;
    }
    root
}

/// The names of the three configuration files of a package.
pub struct ConfigNames {
    pub template: String,
    pub debug: String,
    pub deploy: String,
}

/// The names of the template, debug and deploy file of a package.
pub fn config_names(package_name: &str) -> (names: ConfigNames)
    ensures
        names.template@ == package_name@ + ".template.toml"@,
        names.debug@ == package_name@ + ".debug.toml"@,
        names.deploy@ == package_name@ + ".deploy.toml"@,
{
    let mut template = package_name.to_owned();
    template.append(".template.toml");
    let mut debug = package_name.to_owned();
    debug.append(".debug.toml");
    let mut deploy = package_name.to_owned();
    deploy.append(".deploy.toml");
    ConfigNames { template, debug, deploy }
}

/// Why a manifest names no package.
#[derive(Debug, PartialEq, Eq)]
pub enum ManifestError {
    /// There is no `package.name`; the manifest may be that of a workspace.
    NoPackageName,
    /// `package.name` is not a string.
    NameNotAString,
}

/// The value under `package.name` of a manifest, where `package` is a table
/// that has the key `name`.
pub open spec fn package_name_of(manifest: Seq<(Seq<char>, Doc)>) -> Option<Doc> {
    if has_key(manifest, "package"@) {
        match value_of(manifest, "package"@) {
            Doc::Table(package) => {
                if has_key(package, "name"@) {
                    Some(value_of(package, "name"@))
                } else {
                    None
                }
            },
            _ => None,
        }
    } else {
        None
    }
}

/// The name of the package of a manifest.
pub fn package_name(manifest: &Table) -> (name: Result<String, ManifestError>)
    requires
        Doc::Table(table_of(manifest@)).well_formed(),
    ensures
        match package_name_of(table_of(manifest@)) {
            Some(Doc::Str(text)) => name matches Ok(n) && n@ == text,
            Some(_) => name == Err::<String, ManifestError>(ManifestError::NameNotAString),
            None => name == Err::<String, ManifestError>(ManifestError::NoPackageName),
        },
{
    let ghost entries = table_of(manifest@);
    match find_key(manifest, &String::from_str("package")) {
        Some(at) => {
            assert(entries[at as int] == (manifest[at as int].0@, manifest[at as int].1@));
            assert(entries[at as int].1.well_formed());
            proof {
                lemma_key_index(entries, at as int);
            }
            match &manifest[at].1 {
                Item::Table(package) => {
                    let ghost inner = table_of(package@);
                    proof {
                        lemma_doc_table(*package);
                    }
                    match find_key(package, &String::from_str("name")) {
                        Some(n) => {
                            assert(inner[n as int] == (package[n as int].0@, package[n as int].1@));
                            proof {
                                lemma_key_index(inner, n as int);
                            }
                            match &package[n].1 {
                                Item::String(p) => Ok(p.clone()),
                                _ => Err(ManifestError::NameNotAString),
                            }
                        },
                        None => {
                            proof {
                                if has_key(inner, "name"@) {
                                    let t = key_index(inner, "name"@);
                                    assert(inner[t].0 == package[t].0@);
                                }
                            }
                            Err(ManifestError::NoPackageName)
                        },
                    }
                },
                _ => Err(ManifestError::NoPackageName),
            }
        },
        None => {
            proof {
                if has_key(entries, "package"@) {
                    let t = key_index(entries, "package"@);
                    assert(entries[t].0 == manifest[t].0@);
                }
            }
            Err(ManifestError::NoPackageName)
        },
    }
}

/// The rules that are appended to the ignore file at the root of the
/// project: the generated file is not kept.
pub fn root_ignore_rules(generated_path: &str) -> (rules: String)
    ensures
        rules@ == "\n\n# added by toml_const\n"@ + generated_path@ + "\n"@,
{
    let mut rules = String::from_str("\n\n# added by toml_const\n");
    rules.append(generated_path);
    rules.append("\n");
    rules
}

/// The rules of the ignore file of the configuration directory: of the
/// documents only the template is kept.
pub fn config_ignore_rules(template: &str) -> (rules: String)
    ensures
        rules@ == "# added by toml_const\n*.toml\n!"@ + template@,
{
    let mut rules = String::from_str("# added by toml_const\n*.toml\n!");
    rules.append(template);
    rules
}

} // verus!
