use vstd::prelude::*;
use crate::config::{Config, extend_attrs};
use crate::models::{Attrs, opt_str};
use crate::sorted_map::SortedMap;
use crate::text::{chars_of, concat_str, string_of_chars, str_equal, to_lowercase, to_uppercase, spec_lowercase, spec_uppercase};
use crate::yaml::{YamlValue, YamlModel, spec_yaml_parse, parse_yaml_text};

verus! {

/// The command line: what to do, how much to log, and the prefix of the environment
/// variables that configure the site.
pub struct Cli {
    pub command: Commands,
    /// Verbosity level: 1 for info, 2 for debug, 3 or more for trace
    pub verbose: u8,
    /// Log errors only
    pub silent: bool,
    /// Environment variable prefix for loading config from env vars
    pub env_prefix: String,
}

/// What the command line asks for.
pub enum Commands {
    /// Build the static site
    Build(BuildArgs),
    /// Scaffold a new site from example
    Scaffold(ScaffoldArgs),
}

/// Arguments of `scaffold`.
pub struct ScaffoldArgs {
    /// Directory to create the site in (defaults to current directory)
    pub path: Option<String>,
    /// Example to use
    pub example: String,
    /// List available examples
    pub list: bool,
}

/// Arguments of `build`.
pub struct BuildArgs {
    /// Path to configuration file
    pub config: Option<String>,
    /// Base directory path
    pub base_path: Option<String>,
    /// Templates directory path
    pub templates_path: Option<String>,
    /// Static files directory path
    pub static_path: Option<String>,
    /// Content directory path
    pub content_path: Option<String>,
    /// Output directory path
    pub output_path: Option<String>,
    /// Site title
    pub title: Option<String>,
    /// Site locale
    pub locale: Option<String>,
    /// Default template name
    pub default_template: String,
    /// Arbitrary `KEY=VALUE` pairs
    pub var: Vec<String>,
    /// Arbitrary JSON object to merge into site config
    pub json_var: Option<String>,
    /// Clean output directory before building
    pub clean: bool,
}

/// Where `c` first occurs in `s` at or after `i`.
pub open spec fn find_first(s: Seq<char>, c: char, i: int) -> Option<int>
    decreases s.len() - i,
{
    if i < 0 || i >= s.len() {
        None
    } else if s[i] == c {
        Some(i)
    } else {
        find_first(s, c, i + 1)
    }
}

/// The message for a `--var` without `=`.
pub open spec fn bad_var_message(v: Seq<char>) -> Seq<char> {
    "Invalid --var format: '"@ + v + "'. Expected KEY=VALUE"@
}

/// The values that the first `n` `KEY=VALUE` pairs give (split at the first `=`; a later
/// pair replaces an earlier one with the same key), or the error for the first pair
/// without `=`.
pub open spec fn vars_result(vs: Seq<String>, n: int) -> Result<Map<Seq<char>, YamlModel>, Seq<char>>
    decreases n,
{
    if n <= 0 {
        Ok(Map::empty())
    } else {
        match vars_result(vs, n - 1) {
            Err(e) => Err(e),
            Ok(m) => {
                let v = vs[n - 1]@;
                match find_first(v, '=', 0) {
                    None => Err(bad_var_message(v)),
                    Some(i) => Ok(m.insert(v.take(i), YamlModel::Str(v.skip(i + 1)))),
                }
            },
        }
    }
}

/// The entries of a mapping whose keys are strings (without tags), the later of two
/// equal keys winning.
pub open spec fn string_entries(pairs: Seq<(YamlModel, YamlModel)>, n: int) -> Map<Seq<char>, YamlModel>
    decreases n,
{
    if n <= 0 {
        Map::empty()
    } else {
        match pairs[n - 1].0 {
            YamlModel::Str(k) => string_entries(pairs, n - 1).insert(k, pairs[n - 1].1),
            _ => string_entries(pairs, n - 1),
        }
    }
}

/// The message for a `--json-var` that is not an object.
pub open spec fn not_object_message() -> Seq<char> {
    "--json-var must be a JSON object, not an array or primitive"@
}

/// What `--json-var` contributes, given how its text reads as YAML.
pub open spec fn json_result(json_var: Option<String>) -> Result<Map<Seq<char>, YamlModel>, Seq<char>> {
    match json_var {
        None => Ok(Map::empty()),
        Some(t) => match spec_yaml_parse(t@) {
            Err(e) => Err(e),
            Ok(YamlModel::Dict(pairs)) => Ok(string_entries(pairs, pairs.len() as int)),
            Ok(_) => Err(not_object_message()),
        },
    }
}

impl BuildArgs {
    /// The `--var KEY=VALUE` pairs as string values, split at the first `=`; fails on the
    /// first pair without `=`.
    pub fn parse_vars(&self) -> (r: Result<Attrs, String>)
        ensures
            match vars_result(self.var@, self.var@.len() as int) {
                Ok(m) => r matches Ok(a) && a.wf() && a@ == m,
                Err(e) => r matches Err(x) && x@ == e,
            },
    {
        let mut map: Attrs = SortedMap::new();
        let mut i: usize = 0;
        proof {
            assert(map@ =~= Map::<Seq<char>, YamlModel>::empty());
        }
        while i < self.var.len()
            invariant
                i <= self.var@.len(),
                map.wf(),
                vars_result(self.var@, i as int) == Ok::<Map<Seq<char>, YamlModel>, Seq<char>>(map@),
            decreases self.var@.len() - i,
        {
            let v = &self.var[i];
            let cs = chars_of(v.as_str());
            let mut j: usize = 0;
            while j < cs.len() && cs[j] != '='
                invariant
                    cs@ == v@,
                    j <= cs@.len(),
                    find_first(v@, '=', 0) == find_first(v@, '=', j as int),
                decreases cs@.len() - j,
            {
                j = j + 1;
            }
            if j >= cs.len() {
                let head = concat_str("Invalid --var format: '", v.as_str());
                proof {
                    reveal_strlit("Invalid --var format: '");
                    reveal_strlit("'. Expected KEY=VALUE");
                    lemma_vars_stop(self.var@, i + 1);
                }
                return Err(concat_str(head.as_str(), "'. Expected KEY=VALUE"));
            }
            let key = string_of_chars(vstd::slice::slice_subrange(cs.as_slice(), 0, j));
            let value = string_of_chars(vstd::slice::slice_subrange(cs.as_slice(), j + 1, cs.len()));
            assert(key@ =~= v@.take(j as int));
            assert(value@ =~= v@.skip(j + 1));
            map.insert(key, YamlValue::String(value));
            i = i + 1;
        }
        Ok(map)
    }

    /// The values of `--json-var`: the string-keyed entries of the object its text holds,
    /// read as YAML (a superset of JSON); none when it is not given. Fails when the text
    /// does not read, or is not an object.
    pub fn parse_json_var(&self) -> (r: Result<Attrs, String>)
        ensures
            match json_result(self.json_var) {
                Ok(m) => r matches Ok(a) && a.wf() && a@ == m,
                Err(e) => r matches Err(x) && x@ == e,
            },
    {
        let parsed = match &self.json_var {
            None => {
                let a: Attrs = SortedMap::new();
                assert(a@ =~= Map::<Seq<char>, YamlModel>::empty());
                return Ok(a);
            },
            Some(t) => parse_yaml_text(t.as_str()),
        };
        match parsed {
            Err(e) => Err(e),
            Ok(v) => match v {
                YamlValue::Mapping(entries) => {
                    let ghost pairs = match v@ {
                        YamlModel::Dict(p) => p,
                        _ => Seq::empty(),
                    };
                    let mut map: Attrs = SortedMap::new();
                    let mut i: usize = 0;
                    proof {
                        assert(map@ =~= string_entries(pairs, 0));
                    }
                    while i < entries.len()
                        invariant
                            i <= entries@.len(),
                            pairs.len() == entries@.len(),
                            forall|k: int| 0 <= k < entries@.len() ==> #[trigger] pairs[k] == (entries@[k].0@, entries@[k].1@),
                            map.wf(),
                            map@ == string_entries(pairs, i as int),
                        decreases entries@.len() - i,
                    {
                        match &entries[i].0 {
                            YamlValue::String(key) => {
                                map.insert(key.clone(), entries[i].1.clone_value());
                            },
                            _ => {},
                        }
                        proof {
                            assert(pairs[i as int] == (entries@[i as int].0@, entries@[i as int].1@));
                        }
                        i = i + 1;
                    }
                    Ok(map)
                },
                _ => {
                    proof {
                        reveal_strlit("--json-var must be a JSON object, not an array or primitive");
                    }
                    Err("--json-var must be a JSON object, not an array or primitive".to_owned())
                },
            },
        }
    }
}

/// Once a pair without `=` is met, later pairs change nothing.
proof fn lemma_vars_stop(vs: Seq<String>, n: int)
    requires
        0 < n <= vs.len(),
        vars_result(vs, n) is Err,
    ensures
        vars_result(vs, vs.len() as int) == vars_result(vs, n),
    decreases vs.len() - n,
{
    if n < vs.len() {
        lemma_vars_stop(vs, n + 1);
    }
}

/// The value of the first variable named `name` among the first `n` of `vars`.
pub open spec fn env_lookup(vars: Seq<(String, String)>, name: Seq<char>, n: int) -> Option<Seq<char>>
    decreases n,
{
    if n <= 0 {
        None
    } else {
        match env_lookup(vars, name, n - 1) {
            Some(v) => Some(v),
            None => if vars[n - 1].0@ == name {
                Some(vars[n - 1].1@)
            } else {
                None
            },
        }
    }
}

/// The name of the variable for setting `key` under `prefix`: the prefix upper-cased,
/// `_`, then the key.
pub open spec fn env_name(prefix: Seq<char>, key: Seq<char>) -> Seq<char> {
    spec_uppercase(prefix) + seq!['_'] + key
}

/// The settings read from dedicated variables, lower-cased.
pub open spec fn known_settings() -> Seq<Seq<char>> {
    seq![
        "base_path"@,
        "templates_path"@,
        "static_path"@,
        "content_path"@,
        "output_path"@,
        "title"@,
        "locale"@,
        "default_template"@,
    ]
}

/// The free-form values that the first `n` variables give: each variable named with the
/// prefix and `_`, by the rest of its name lower-cased, unless that is a known setting.
pub open spec fn env_extra(vars: Seq<(String, String)>, prefix: Seq<char>, n: int) -> Map<Seq<char>, YamlModel>
    decreases n,
{
    if n <= 0 {
        Map::empty()
    } else {
        let prev = env_extra(vars, prefix, n - 1);
        let k = vars[n - 1].0@;
        let p = spec_uppercase(prefix) + seq!['_'];
        if p.len() <= k.len() && k.take(p.len() as int) == p && !known_settings().contains(spec_lowercase(k.skip(p.len() as int))) {
            prev.insert(spec_lowercase(k.skip(p.len() as int)), YamlModel::Str(vars[n - 1].1@))
        } else {
            prev
        }
    }
}

/// A setting from the variables.
pub open spec fn env_setting(vars: Seq<(String, String)>, prefix: Seq<char>, key: Seq<char>) -> Option<Seq<char>> {
    env_lookup(vars, env_name(prefix, key), vars.len() as int)
}

/// The value of the first variable named `name`.
fn lookup(vars: &Vec<(String, String)>, name: &str) -> (r: Option<String>)
    ensures
        opt_str(r) == env_lookup(vars@, name@, vars@.len() as int),
{
    let mut i: usize = 0;
    while i < vars.len()
        invariant
            i <= vars@.len(),
            env_lookup(vars@, name@, i as int) is None,
        decreases vars@.len() - i,
    {
        if str_equal(vars[i].0.as_str(), name) {
            proof {
                lemma_lookup_stays(vars@, name@, i + 1);
            }
            return Some(vars[i].1.clone());
        }
        i = i + 1;
    }
    None
}

/// Once found, a variable stays found.
proof fn lemma_lookup_stays(vars: Seq<(String, String)>, name: Seq<char>, n: int)
    requires
        0 < n <= vars.len(),
        env_lookup(vars, name, n) is Some,
    ensures
        env_lookup(vars, name, vars.len() as int) == env_lookup(vars, name, n),
    decreases vars.len() - n,
{
    if n < vars.len() {
        lemma_lookup_stays(vars, name, n + 1);
    }
}

/// Whether `s` is one of the known settings.
fn is_known_setting(s: &str) -> (b: bool)
    ensures
        b == known_settings().contains(s@),
{
    proof {
        reveal_strlit("base_path");
        reveal_strlit("templates_path");
        reveal_strlit("static_path");
        reveal_strlit("content_path");
        reveal_strlit("output_path");
        reveal_strlit("title");
        reveal_strlit("locale");
        reveal_strlit("default_template");
    }
    let b = str_equal(s, "base_path") || str_equal(s, "templates_path") || str_equal(s, "static_path")
        || str_equal(s, "content_path") || str_equal(s, "output_path") || str_equal(s, "title")
        || str_equal(s, "locale") || str_equal(s, "default_template");
    proof {
        let k = known_settings();
        if b {
            if s@ == "base_path"@ { assert(k[0] == s@); }
            else if s@ == "templates_path"@ { assert(k[1] == s@); }
            else if s@ == "static_path"@ { assert(k[2] == s@); }
            else if s@ == "content_path"@ { assert(k[3] == s@); }
            else if s@ == "output_path"@ { assert(k[4] == s@); }
            else if s@ == "title"@ { assert(k[5] == s@); }
            else if s@ == "locale"@ { assert(k[6] == s@); }
            else { assert(k[7] == s@); }
        } else {
            assert forall|i: int| 0 <= i < k.len() implies k[i] != s@ by {}
        }
    }
    b
}

/// Reads a setting `key` from the variables.
fn env_get(vars: &Vec<(String, String)>, prefix_upper: &str, key: &str) -> (r: Option<String>)
    ensures
        opt_str(r) == env_lookup(vars@, prefix_upper@ + seq!['_'] + key@, vars@.len() as int),
{
    proof {
        reveal_strlit("_");
    }
    let head = concat_str(prefix_upper, "_");
    let name = concat_str(head.as_str(), key);
    assert(name@ =~= prefix_upper@ + seq!['_'] + key@);
    lookup(vars, name.as_str())
}

impl Config {
    /// The configuration that environment variables give: `PREFIX_BASE_PATH`,
    /// `PREFIX_TEMPLATES_PATH`, `PREFIX_STATIC_PATH`, `PREFIX_CONTENT_PATH`,
    /// `PREFIX_OUTPUT_PATH`, `PREFIX_TITLE`, `PREFIX_LOCALE`, `PREFIX_DEFAULT_TEMPLATE`
    /// (the prefix upper-cased), and every other `PREFIX_NAME` as a free-form value named
    /// `name`. `vars` lists the variables, names with values.
    pub fn from_env(prefix: &str, vars: &Vec<(String, String)>) -> (c: Config)
        ensures
            c.wf(),
            opt_str(c.base_path) == env_setting(vars@, prefix@, "BASE_PATH"@),
            opt_str(c.templates_path) == env_setting(vars@, prefix@, "TEMPLATES_PATH"@),
            opt_str(c.static_path) == env_setting(vars@, prefix@, "STATIC_PATH"@),
            opt_str(c.content_path) == env_setting(vars@, prefix@, "CONTENT_PATH"@),
            opt_str(c.output_path) == env_setting(vars@, prefix@, "OUTPUT_PATH"@),
            opt_str(c.title) == env_setting(vars@, prefix@, "TITLE"@),
            opt_str(c.locale) == env_setting(vars@, prefix@, "LOCALE"@),
            opt_str(c.default_template) == env_setting(vars@, prefix@, "DEFAULT_TEMPLATE"@),
            c.extra@ == env_extra(vars@, prefix@, vars@.len() as int),
    {
        let prefix_upper = to_uppercase(prefix);
        let mut config = Config::empty();
        proof {
            reveal_strlit("_");
        }
        let with_underscore = concat_str(prefix_upper.as_str(), "_");
        let pc = chars_of(with_underscore.as_str());
        let ghost p = spec_uppercase(prefix@) + seq!['_'];
        assert(pc@ =~= p);
        let mut i: usize = 0;
        proof {
            assert(config.extra@ =~= env_extra(vars@, prefix@, 0));
        }
        while i < vars.len()
            invariant
                i <= vars@.len(),
                pc@ == p,
                p == spec_uppercase(prefix@) + seq!['_'],
                config.extra.wf(),
                config.extra@ == env_extra(vars@, prefix@, i as int),
            decreases vars@.len() - i,
        {
            let key = &vars[i].0;
            let kc = chars_of(key.as_str());
            let mut starts = pc.len() <= kc.len();
            let mut j: usize = 0;
            while starts && j < pc.len()
                invariant
                    pc@ == p,
                    kc@ == key@,
                    starts ==> p.len() <= kc@.len(),
                    j <= p.len(),
                    starts ==> kc@.take(j as int) == p.take(j as int),
                    !starts ==> !(p.len() <= kc@.len() && kc@.take(p.len() as int) == p),
                decreases p.len() - j + (if starts { 1int } else { 0int }),
            {
                if kc[j] != pc[j] {
                    proof {
                        if p.len() <= kc@.len() && kc@.take(p.len() as int) == p {
                            assert(kc@.take(p.len() as int)[j as int] == kc@[j as int]);
                        }
                    }
                    starts = false;
                } else {
                    assert(kc@.take(j + 1) =~= kc@.take(j as int).push(kc@[j as int]));
                    assert(p.take(j + 1) =~= p.take(j as int).push(p[j as int]));
                    j = j + 1;
                }
            }
            if starts {
                assert(kc@.take(p.len() as int) =~= p.take(p.len() as int));
                assert(p.take(p.len() as int) =~= p);
                let suffix = string_of_chars(vstd::slice::slice_subrange(kc.as_slice(), pc.len(), kc.len()));
                assert(suffix@ =~= key@.skip(p.len() as int));
                let lower = to_lowercase(suffix.as_str());
                if !is_known_setting(lower.as_str()) {
                    config.extra.insert(lower, YamlValue::String(vars[i].1.clone()));
                }
            }
            i = i + 1;
        }
        config.base_path = env_get(vars, prefix_upper.as_str(), "BASE_PATH");
        config.templates_path = env_get(vars, prefix_upper.as_str(), "TEMPLATES_PATH");
        config.static_path = env_get(vars, prefix_upper.as_str(), "STATIC_PATH");
        config.content_path = env_get(vars, prefix_upper.as_str(), "CONTENT_PATH");
        config.output_path = env_get(vars, prefix_upper.as_str(), "OUTPUT_PATH");
        config.title = env_get(vars, prefix_upper.as_str(), "TITLE");
        config.locale = env_get(vars, prefix_upper.as_str(), "LOCALE");
        config.default_template = env_get(vars, prefix_upper.as_str(), "DEFAULT_TEMPLATE");
        config
    }

    /// The configuration that the command line gives: its paths, title and locale, its
    /// default template, and the values of `--var` and then `--json-var` (which win over
    /// the former). Fails as `parse_vars` and `parse_json_var` do.
    pub fn from_cli(args: &BuildArgs) -> (r: Result<Config, String>)
        ensures
            match (vars_result(args.var@, args.var@.len() as int), json_result(args.json_var)) {
                (Err(e), _) => r matches Err(x) && x@ == e,
                (Ok(_), Err(e)) => r matches Err(x) && x@ == e,
                (Ok(a), Ok(b)) => r matches Ok(c) && {
                    &&& c.wf()
                    &&& c.extra@ == a.union_prefer_right(b)
                    &&& opt_str(c.base_path) == opt_str(args.base_path)
                    &&& opt_str(c.templates_path) == opt_str(args.templates_path)
                    &&& opt_str(c.static_path) == opt_str(args.static_path)
                    &&& opt_str(c.content_path) == opt_str(args.content_path)
                    &&& opt_str(c.output_path) == opt_str(args.output_path)
                    &&& opt_str(c.title) == opt_str(args.title)
                    &&& opt_str(c.locale) == opt_str(args.locale)
                    &&& opt_str(c.default_template) == Some(args.default_template@)
                },
            },
    {
        let mut extra: Attrs = SortedMap::new();
        let vars = match args.parse_vars() {
            Ok(v) => v,
            Err(e) => {
                return Err(e);
            },
        };
        extend_attrs(&mut extra, &vars);
        let json_vars = match args.parse_json_var() {
            Ok(v) => v,
            Err(e) => {
                return Err(e);
            },
        };
        extend_attrs(&mut extra, &json_vars);
        proof {
            assert(Map::<Seq<char>, YamlModel>::empty().union_prefer_right(vars@) =~= vars@);
        }
        Ok(Config {
            base_path: clone_opt(&args.base_path),
            templates_path: clone_opt(&args.templates_path),
            static_path: clone_opt(&args.static_path),
            content_path: clone_opt(&args.content_path),
            output_path: clone_opt(&args.output_path),
            title: clone_opt(&args.title),
            locale: clone_opt(&args.locale),
            default_template: Some(args.default_template.clone()),
            extra,
        })
    }
}

fn clone_opt(o: &Option<String>) -> (r: Option<String>)
    ensures
        opt_str(r) == opt_str(*o),
{
    match o {
        Some(s) => Some(s.clone()),
        None => None,
    }
}

/// What a command asks to run.
pub enum Task {
    /// Build the site with these arguments, reading settings from variables with this prefix.
    Build(BuildArgs, String),
    /// Scaffold a site with these arguments.
    Scaffold(ScaffoldArgs),
}

/// Dispatches a command line to the task it asks for.
pub fn handle_command(cli: Cli) -> (t: Task)
    ensures
        match cli.command {
            Commands::Build(args) => t == Task::Build(args, cli.env_prefix),
            Commands::Scaffold(args) => t == Task::Scaffold(args),
        },
{
    match cli.command {
        Commands::Build(args) => Task::Build(args, cli.env_prefix),
        Commands::Scaffold(args) => Task::Scaffold(args),
    }
}

/// How much to log.
#[derive(PartialEq, Eq, Structural, Clone, Copy, Debug)]
pub enum LogLevel {
    Off,
    Error,
    Warn,
    Info,
    Debug,
    Trace,
}

/// The level that the text of the `PREFIX_LOG` variable names, lower-cased; none for text
/// that names no level.
pub open spec fn level_named(s: Seq<char>) -> Option<LogLevel> {
    if s == "trace"@ || s == "verbose"@ {
        Some(LogLevel::Trace)
    } else if s == "debug"@ {
        Some(LogLevel::Debug)
    } else if s == "info"@ {
        Some(LogLevel::Info)
    } else if s == "warn"@ || s == "warning"@ {
        Some(LogLevel::Warn)
    } else if s == "error"@ {
        Some(LogLevel::Error)
    } else if s == "0"@ || s == "off"@ || s == "none"@ || s == "silent"@ {
        Some(LogLevel::Off)
    } else {
        None
    }
}

/// The log level: errors only when silent; else by the number of `-v` (info, debug,
/// trace); else by the `PREFIX_LOG` variable (`env_value`), warnings when it is unset or
/// names no level. The flag says whether the variable named no level.
pub fn choose_log_level(silent: bool, verbose: u8, env_value: Option<String>) -> (r: (LogLevel, bool))
    ensures
        r == if silent {
            (LogLevel::Error, false)
        } else if verbose == 1 {
            (LogLevel::Info, false)
        } else if verbose == 2 {
            (LogLevel::Debug, false)
        } else if verbose > 2 {
            (LogLevel::Trace, false)
        } else {
            match env_value {
                None => (LogLevel::Warn, false),
                Some(v) => match level_named(spec_lowercase(v@)) {
                    Some(l) => (l, false),
                    None => (LogLevel::Warn, true),
                },
            }
        },
{
    if silent {
        return (LogLevel::Error, false);
    }
    if verbose > 0 {
        return if verbose == 1 {
            (LogLevel::Info, false)
        } else if verbose == 2 {
            (LogLevel::Debug, false)
        } else {
            (LogLevel::Trace, false)
        };
    }
    match env_value {
        None => (LogLevel::Warn, false),
        Some(v) => {
            let l = to_lowercase(v.as_str());
            let s = l.as_str();
            proof {
                reveal_strlit("trace");
                reveal_strlit("verbose");
                reveal_strlit("debug");
                reveal_strlit("info");
                reveal_strlit("warn");
                reveal_strlit("warning");
                reveal_strlit("error");
                reveal_strlit("0");
                reveal_strlit("off");
                reveal_strlit("none");
                reveal_strlit("silent");
            }
            if str_equal(s, "trace") || str_equal(s, "verbose") {
                (LogLevel::Trace, false)
            } else if str_equal(s, "debug") {
                (LogLevel::Debug, false)
            } else if str_equal(s, "info") {
                (LogLevel::Info, false)
            } else if str_equal(s, "warn") || str_equal(s, "warning") {
                (LogLevel::Warn, false)
            } else if str_equal(s, "error") {
                (LogLevel::Error, false)
            } else if str_equal(s, "0") || str_equal(s, "off") || str_equal(s, "none") || str_equal(s, "silent") {
                (LogLevel::Off, false)
            } else {
                (LogLevel::Warn, true)
            }
        },
    }
}

} // verus!
