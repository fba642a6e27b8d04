use vstd::prelude::*;
use crate::models::{Attrs, SiteMeta, opt_str};
use crate::path::{join_path, spec_join};
use crate::sorted_map::{SortedMap, prefix_map};
use crate::yaml::{YamlValue, YamlModel};

verus! {

/// Site configuration: paths, title, locale, default template and free-form values.
/// Each may be unset; later sources override earlier ones.
pub struct Config {
    pub base_path: Option<String>,
    pub templates_path: Option<String>,
    pub static_path: Option<String>,
    pub content_path: Option<String>,
    pub output_path: Option<String>,
    pub title: Option<String>,
    pub locale: Option<String>,
    pub default_template: Option<String>,
    pub extra: Attrs,
}

/// `other` when it is set, else `mine`.
pub open spec fn prefer(mine: Option<String>, other: Option<String>) -> Option<Seq<char>> {
    if other is Some {
        opt_str(other)
    } else {
        opt_str(mine)
    }
}

/// A path setting, or `fallback` when unset.
pub open spec fn or_default(p: Option<String>, fallback: Seq<char>) -> Seq<char> {
    match p {
        Some(s) => s@,
        None => fallback,
    }
}

fn clone_opt(o: &Option<String>) -> (r: Option<String>)
    ensures
        opt_str(r) == opt_str(*o),
{
    match o {
        Some(s) => Some(s.clone()),
        None => None,
    }
}

/// Inserts the entries of `other` into `m`, replacing those with the same name.
pub fn extend_attrs(m: &mut Attrs, other: &Attrs)
    requires
        old(m).wf(),
        other.wf(),
    ensures
        final(m).wf(),
        final(m)@ == old(m)@.union_prefer_right(other@),
{
    let mut i: usize = 0;
    proof {
        assert(old(m)@.union_prefer_right(prefix_map(other.key_seq(), other.value_seq(), 0)) =~= old(m)@);
    }
    while i < other.len()
        invariant
            other.wf(),
            m.wf(),
            i <= other.key_seq().len(),
            m@ == old(m)@.union_prefer_right(prefix_map(other.key_seq(), other.value_seq(), i as int)),
        decreases other.key_seq().len() - i,
    {
        let k = other.key_at(i);
        let v = other.value_at(i);
        m.insert(k.clone(), v.clone_value());
        proof {
            assert(m@ =~= old(m)@.union_prefer_right(prefix_map(other.key_seq(), other.value_seq(), i + 1)));
        }
        i = i + 1;
    }
    proof {
        other.lemma_full_prefix_map();
    }
}

impl Config {
    pub open spec fn wf(&self) -> bool {
        self.extra.wf()
    }

    /// A configuration with nothing set.
    pub fn empty() -> (c: Config)
        ensures
            c.wf(),
            c.base_path is None && c.templates_path is None && c.static_path is None && c.content_path is None,
            c.output_path is None && c.title is None && c.locale is None && c.default_template is None,
            c.extra@ == Map::<Seq<char>, YamlModel>::empty(),
    {
        Config {
            base_path: None,
            templates_path: None,
            static_path: None,
            content_path: None,
            output_path: None,
            title: None,
            locale: None,
            default_template: None,
            extra: SortedMap::new(),
        }
    }

    /// This configuration overridden by `other`: each setting of `other` that is set
    /// replaces this one's, and its free-form values replace those of the same name.
    pub fn merge(self, other: Config) -> (r: Config)
        requires
            self.wf(),
            other.wf(),
        ensures
            r.wf(),
            opt_str(r.base_path) == prefer(self.base_path, other.base_path),
            opt_str(r.templates_path) == prefer(self.templates_path, other.templates_path),
            opt_str(r.static_path) == prefer(self.static_path, other.static_path),
            opt_str(r.content_path) == prefer(self.content_path, other.content_path),
            opt_str(r.output_path) == prefer(self.output_path, other.output_path),
            opt_str(r.title) == prefer(self.title, other.title),
            opt_str(r.locale) == prefer(self.locale, other.locale),
            opt_str(r.default_template) == prefer(self.default_template, other.default_template),
            r.extra@ == self.extra@.union_prefer_right(other.extra@),
    {
        let mut c = self;
        if other.base_path.is_some() {
            c.base_path = other.base_path;
        }
        if other.templates_path.is_some() {
            c.templates_path = other.templates_path;
        }
        if other.static_path.is_some() {
            c.static_path = other.static_path;
        }
        if other.content_path.is_some() {
            c.content_path = other.content_path;
        }
        if other.output_path.is_some() {
            c.output_path = other.output_path;
        }
        if other.title.is_some() {
            c.title = other.title;
        }
        if other.locale.is_some() {
            c.locale = other.locale;
        }
        if other.default_template.is_some() {
            c.default_template = other.default_template;
        }
        extend_attrs(&mut c.extra, &other.extra);
        c
    }

    /// The base directory: the setting, or `.`.
    pub fn get_base_path(&self) -> (r: String)
        ensures
            r@ == or_default(self.base_path, "."@),
    {
        match &self.base_path {
            Some(p) => p.clone(),
            None => ".".to_owned(),
        }
    }

    /// The templates directory: the setting, or `templates` under `base`.
    pub fn get_templates_path(&self, base: &str) -> (r: String)
        ensures
            r@ == or_default(self.templates_path, spec_join(base@, "templates"@)),
    {
        match &self.templates_path {
            Some(p) => p.clone(),
            None => join_path(base, "templates"),
        }
    }

    /// The static files directory: the setting, or `static` under `base`.
    pub fn get_static_path(&self, base: &str) -> (r: String)
        ensures
            r@ == or_default(self.static_path, spec_join(base@, "static"@)),
    {
        match &self.static_path {
            Some(p) => p.clone(),
            None => join_path(base, "static"),
        }
    }

    /// The content directory: the setting, or `content` under `base`.
    pub fn get_content_path(&self, base: &str) -> (r: String)
        ensures
            r@ == or_default(self.content_path, spec_join(base@, "content"@)),
    {
        match &self.content_path {
            Some(p) => p.clone(),
            None => join_path(base, "content"),
        }
    }

    /// The output directory: the setting, or `./public`.
    pub fn get_output_path(&self) -> (r: String)
        ensures
            r@ == or_default(self.output_path, "./public"@),
    {
        match &self.output_path {
            Some(p) => p.clone(),
            None => "./public".to_owned(),
        }
    }

    /// The site metadata: the free-form values, with `title` and `locale` among them when
    /// set, and the default template; no navigation yet.
    pub fn into_site_meta(self) -> (m: SiteMeta)
        requires
            self.wf(),
        ensures
            m.extra.wf(),
            m.extra@ == with_setting(
                with_setting(self.extra@, "title"@, opt_str(self.title)),
                "locale"@,
                opt_str(self.locale),
            ),
            opt_str(m.default_template) == opt_str(self.default_template),
            m.navigation@.len() == 0,
    {
        let mut extra = self.extra;
        match self.title {
            Some(t) => {
                extra.insert("title".to_owned(), YamlValue::String(t));
            },
            None => {},
        }
        match self.locale {
            Some(l) => {
                extra.insert("locale".to_owned(), YamlValue::String(l));
            },
            None => {},
        }
        SiteMeta { extra, default_template: self.default_template, navigation: Vec::new() }
    }
}

/// `m` with the text `value` under `name`, when there is one.
pub open spec fn with_setting(m: Map<Seq<char>, YamlModel>, name: Seq<char>, value: Option<Seq<char>>) -> Map<
    Seq<char>,
    YamlModel,
> {
    match value {
        Some(v) => m.insert(name, YamlModel::Str(v)),
        None => m,
    }
}

/// Whether `existing` lists `p`.
fn listed(existing: &Vec<String>, p: &str) -> (b: bool)
    ensures
        b == existing.deep_view().contains(p@),
{
    let mut i: usize = 0;
    while i < existing.len()
        invariant
            i <= existing@.len(),
            forall|j: int| 0 <= j < i ==> existing.deep_view()[j] != p@,
        decreases existing@.len() - i,
    {
        if crate::text::str_equal(existing[i].as_str(), p) {
            assert(existing.deep_view()[i as int] == p@);
            return true;
        }
        i = i + 1;
    }
    false
}

/// The configuration files looked for under `base_path`, in order: `config.yaml`, then
/// `config.yml`.
pub fn config_candidates(base_path: &str) -> (r: Vec<String>)
    ensures
        r.deep_view() == seq![spec_join(base_path@, "config.yaml"@), spec_join(base_path@, "config.yml"@)],
        r@.len() == 2,
{
    let mut r: Vec<String> = Vec::new();
    r.push(join_path(base_path, "config.yaml"));
    r.push(join_path(base_path, "config.yml"));
    assert(r.deep_view() =~= seq![spec_join(base_path@, "config.yaml"@), spec_join(base_path@, "config.yml"@)]);
    assert(r@.len() == 2);
    r
}

/// The configuration file under `base_path`: `config.yaml` if it exists, else
/// `config.yml` if it exists; `existing` lists the paths that exist.
pub fn find_default_config(base_path: &str, existing: &Vec<String>) -> (r: Option<String>)
    ensures
        opt_str(r) == if existing.deep_view().contains(spec_join(base_path@, "config.yaml"@)) {
            Some(spec_join(base_path@, "config.yaml"@))
        } else if existing.deep_view().contains(spec_join(base_path@, "config.yml"@)) {
            Some(spec_join(base_path@, "config.yml"@))
        } else {
            None::<Seq<char>>
        },
{
    let candidates = config_candidates(base_path);
    let mut i: usize = 0;
    while i < candidates.len()
        invariant
            candidates.deep_view() == seq![spec_join(base_path@, "config.yaml"@), spec_join(base_path@, "config.yml"@)],
            candidates@.len() == 2,
            i <= 2,
            forall|j: int| 0 <= j < i ==> !existing.deep_view().contains(#[trigger] candidates.deep_view()[j]),
        decreases 2 - i,
    {
        assert(candidates.deep_view()[i as int] == candidates@[i as int]@);
        if listed(existing, candidates[i].as_str()) {
            if i == 1 {
                assert(!existing.deep_view().contains(candidates.deep_view()[0]));
            }
            return Some(candidates[i].clone());
        }
        i = i + 1;
    }
    assert(!existing.deep_view().contains(candidates.deep_view()[0]));
    assert(!existing.deep_view().contains(candidates.deep_view()[1]));
    None
}

/// Merging is associative: overriding `a` by `b` and then by `c` is overriding `a` by
/// `b` overridden by `c`, setting by setting and value by value.
pub proof fn lemma_merge_associative(
    a: Option<String>,
    b: Option<String>,
    c: Option<String>,
    ma: Map<Seq<char>, YamlModel>,
    mb: Map<Seq<char>, YamlModel>,
    mc: Map<Seq<char>, YamlModel>,
)
    ensures
        (if c is Some { opt_str(c) } else { prefer(a, b) }) == (if prefer(b, c) is Some { prefer(b, c) } else { opt_str(a) }),
        ma.union_prefer_right(mb).union_prefer_right(mc) == ma.union_prefer_right(mb.union_prefer_right(mc)),
{
    assert(ma.union_prefer_right(mb).union_prefer_right(mc) =~= ma.union_prefer_right(mb.union_prefer_right(mc)));
}

/// The empty configuration changes nothing when merged in, on either side.
pub proof fn lemma_merge_empty(a: Option<String>, ma: Map<Seq<char>, YamlModel>)
    ensures
        prefer(a, None) == opt_str(a),
        prefer(None, a) == opt_str(a),
        ma.union_prefer_right(Map::empty()) == ma,
        Map::<Seq<char>, YamlModel>::empty().union_prefer_right(ma) == ma,
{
    assert(ma.union_prefer_right(Map::empty()) =~= ma);
    assert(Map::<Seq<char>, YamlModel>::empty().union_prefer_right(ma) =~= ma);
}

} // verus!
