use vstd::prelude::*;
use crate::sorted_map::{SortedMap, prefix_map, ViewClone, OrdKey};
use crate::order::str_lt;
use crate::text::{to_lowercase, spec_lowercase, str_equal};
use crate::path::{PathKey, spec_parent, spec_file_name, stem_of_name, name_stem, spec_path_components};
use crate::error::{ParserError, ErrorKind};
use crate::yaml::{YamlValue, YamlModel, untag, has_tag};

verus! {

/// Attributes by name, in name order.
pub type Attrs = SortedMap<String, YamlValue>;

pub open spec fn lit_title() -> Seq<char> {
    seq!['t', 'i', 't', 'l', 'e']
}

pub open spec fn lit_children_attrs() -> Seq<char> {
    seq!['c', 'h', 'i', 'l', 'd', 'r', 'e', 'n', '_', 'a', 't', 't', 'r', 's']
}

pub open spec fn lit_template() -> Seq<char> {
    seq!['t', 'e', 'm', 'p', 'l', 'a', 't', 'e']
}

pub open spec fn lit_publish() -> Seq<char> {
    seq!['p', 'u', 'b', 'l', 'i', 's', 'h']
}

pub open spec fn lit_children() -> Seq<char> {
    seq!['c', 'h', 'i', 'l', 'd', 'r', 'e', 'n']
}

pub open spec fn opt_str(o: Option<String>) -> Option<Seq<char>> {
    match o {
        Some(s) => Some(s@),
        None => None,
    }
}

/// The mapping that a parent's `children_attrs` turn into for a child: each name
/// lowercased, `title` and `children_attrs` left out, and of two names that lowercase
/// alike the later one (in name order) wins.
pub open spec fn lowered_attrs(ks: Seq<Seq<char>>, vs: Seq<YamlModel>, n: int) -> Map<
    Seq<char>,
    YamlModel,
>
    decreases n,
{
    if n <= 0 {
        Map::empty()
    } else {
        let prev = lowered_attrs(ks, vs, n - 1);
        let lk = spec_lowercase(ks[n - 1]);
        if lk == lit_title() || lk == lit_children_attrs() {
            prev
        } else {
            prev.insert(lk, vs[n - 1])
        }
    }
}

pub open spec fn patch_of(other: Attrs) -> Map<Seq<char>, YamlModel> {
    lowered_attrs(other.key_seq(), other.value_seq(), other.key_seq().len() as int)
}

/// A list of strings, or null for none.
pub open spec fn string_list_ok(v: YamlModel) -> bool {
    match untag(v) {
        YamlModel::Null => true,
        YamlModel::List(items) => forall|i: int| 0 <= i < items.len() ==> untag(#[trigger] items[i]) is Str,
        _ => false,
    }
}

/// An entry of the mapping reads as a page's front matter field: `template` null or a
/// string, `publish` null or a boolean, `children` a list of strings or null, and any
/// other value free of tags.
pub open spec fn field_ok(k: Seq<char>, v: YamlModel) -> bool {
    if k == lit_template() {
        v == YamlModel::Null || untag(v) is Str
    } else if k == lit_publish() {
        v == YamlModel::Null || untag(v) is Bool
    } else if k == lit_children() {
        string_list_ok(v)
    } else {
        !has_tag(v)
    }
}

/// What reading a field `k` that does not fit reports.
pub open spec fn field_error(k: Seq<char>) -> Seq<char> {
    if k == lit_template() {
        "invalid type for `template`: expected a string"@
    } else if k == lit_publish() {
        "invalid type for `publish`: expected a boolean"@
    } else if k == lit_children() {
        "invalid type for `children`: expected a sequence of strings"@
    } else {
        "tagged values are not supported in inherited attributes"@
    }
}

/// `k` is the first entry of `m`, in name order, that does not read as its field.
pub open spec fn first_bad_key(m: Map<Seq<char>, YamlModel>, k: Seq<char>) -> bool {
    &&& m.contains_key(k)
    &&& !field_ok(k, m[k])
    &&& forall|k2: Seq<char>| #[trigger] m.contains_key(k2) && str_lt(k2, k) ==> field_ok(k2, m[k2])
}

/// Entry `i` of the attributes named `ks` with values `vs` is where its lowercased name
/// first comes, the name is one a child takes, and the value handed down under it (the
/// last one given for that name) does not read as its field.
pub open spec fn bad_at(ks: Seq<Seq<char>>, vs: Seq<YamlModel>, i: int) -> bool {
    let patch = lowered_attrs(ks, vs, ks.len() as int);
    let k = spec_lowercase(ks[i]);
    &&& 0 <= i < ks.len()
    &&& patch.contains_key(k)
    &&& forall|j: int| 0 <= j < i ==> spec_lowercase(#[trigger] ks[j]) != k
    &&& !field_ok(k, patch[k])
}

/// `k` is the first field that does not read, in the order in which the lowercased names
/// first come among the names `ks`.
pub open spec fn first_bad_field(ks: Seq<Seq<char>>, vs: Seq<YamlModel>, k: Seq<char>) -> bool {
    exists|i: int|
        #[trigger] bad_at(ks, vs, i) && spec_lowercase(ks[i]) == k && forall|j: int|
            0 <= j < i ==> !#[trigger] bad_at(ks, vs, j)
}

pub open spec fn patch_decodes(m: Map<Seq<char>, YamlModel>) -> bool {
    forall|k: Seq<char>| #[trigger] m.contains_key(k) ==> field_ok(k, m[k])
}

pub open spec fn patch_template(m: Map<Seq<char>, YamlModel>) -> Option<Seq<char>> {
    if m.contains_key(lit_template()) && m[lit_template()] != YamlModel::Null {
        match untag(m[lit_template()]) {
            YamlModel::Str(s) => Some(s),
            _ => None,
        }
    } else {
        None
    }
}

pub open spec fn patch_publish(m: Map<Seq<char>, YamlModel>) -> Option<bool> {
    if m.contains_key(lit_publish()) && m[lit_publish()] != YamlModel::Null {
        match untag(m[lit_publish()]) {
            YamlModel::Bool(b) => Some(b),
            _ => None,
        }
    } else {
        None
    }
}

/// The entries that are not one of the named fields.
pub open spec fn patch_extra(m: Map<Seq<char>, YamlModel>) -> Map<Seq<char>, YamlModel> {
    m.remove(lit_template()).remove(lit_publish()).remove(lit_children())
}

/// `old` with the entries of `add` whose names it lacks.
pub open spec fn keep_existing<K, V>(old: Map<K, V>, add: Map<K, V>) -> Map<K, V> {
    Map::new(
        |k: K| old.contains_key(k) || add.contains_key(k),
        |k: K|
            if old.contains_key(k) {
                old[k]
            } else {
                add[k]
            },
    )
}

/// `true`: pages are published unless they say otherwise.
pub fn default_true() -> (b: bool)
    ensures
        b,
{
    true
}

/// `"base"`: the template used when neither page nor site names one.
pub fn default_template() -> (s: String)
    ensures
        s@ == "base"@,
{
    "base".to_owned()
}

/// An entry of the site's navigation tree.
pub struct NavNode {
    pub title: String,
    pub url: String,
    pub children: Vec<NavNode>,
    pub order: Option<i32>,
}

pub struct NavModel {
    pub title: Seq<char>,
    pub url: Seq<char>,
    pub children: Seq<NavModel>,
    pub order: Option<i32>,
}

pub open spec fn nav_model(n: NavNode) -> NavModel
    decreases n,
{
    NavModel {
        title: n.title@,
        url: n.url@,
        children: Seq::new(
            n.children@.len(),
            |i: int|
                if 0 <= i < n.children@.len() {
                    nav_model(n.children@[i])
                } else {
                    NavModel { title: Seq::empty(), url: Seq::empty(), children: Seq::empty(), order: None }
                },
        ),
        order: n.order,
    }
}

impl View for NavNode {
    type V = NavModel;

    open spec fn view(&self) -> NavModel {
        nav_model(*self)
    }
}

impl NavNode {
    /// A copy of the node and everything below it.
    #[verifier::loop_isolation(false)]
    pub fn clone_node(&self) -> (r: NavNode)
        ensures
            r@ == self@,
        decreases self,
    {
        let mut children: Vec<NavNode> = Vec::new();
        let mut i: usize = 0;
        while i < self.children.len()
            invariant
                i <= self.children@.len(),
                children@.len() == i,
                forall|j: int| 0 <= j < i ==> (#[trigger] children@[j])@ == self.children@[j]@,
            decreases self.children.len() - i,
        {
            children.push(self.children[i].clone_node());
            i = i + 1;
        }
        let r = NavNode { title: self.title.clone(), url: self.url.clone(), children, order: self.order };
        assert(r@.children =~= self@.children);
        r
    }
}

impl ViewClone for NavNode {
    fn clone_view(&self) -> (r: Self) {
        self.clone_node()
    }
}

/// Site-wide metadata: the configuration as templates see it under `site`.
pub struct SiteMeta {
    pub default_template: Option<String>,
    pub navigation: Vec<NavNode>,
    pub extra: Attrs,
}

/// The metadata of a processed page, as templates see it under `page`.
pub struct PageMeta {
    pub title: String,
    pub stem: String,
    pub template: Option<String>,
    pub publish: bool,
    pub id: String,
    pub children: Vec<PageMeta>,
    pub path_segments: Vec<String>,
    pub html_content: String,
    pub url: String,
    pub extra: Attrs,
}

pub struct PageMetaModel {
    pub title: Seq<char>,
    pub stem: Seq<char>,
    pub template: Option<Seq<char>>,
    pub publish: bool,
    pub id: Seq<char>,
    pub children: Seq<PageMetaModel>,
    pub path_segments: Seq<Seq<char>>,
    pub html_content: Seq<char>,
    pub url: Seq<char>,
    pub extra: Map<Seq<char>, YamlModel>,
}

pub open spec fn meta_model(m: PageMeta) -> PageMetaModel
    decreases m,
{
    PageMetaModel {
        title: m.title@,
        stem: m.stem@,
        template: opt_str(m.template),
        publish: m.publish,
        id: m.id@,
        children: Seq::new(
            m.children@.len(),
            |i: int|
                if 0 <= i < m.children@.len() {
                    meta_model(m.children@[i])
                } else {
                    PageMetaModel {
                        title: Seq::empty(),
                        stem: Seq::empty(),
                        template: None,
                        publish: false,
                        id: Seq::empty(),
                        children: Seq::empty(),
                        path_segments: Seq::empty(),
                        html_content: Seq::empty(),
                        url: Seq::empty(),
                        extra: Map::empty(),
                    }
                },
        ),
        path_segments: m.path_segments.deep_view(),
        html_content: m.html_content@,
        url: m.url@,
        extra: m.extra@,
    }
}

impl View for PageMeta {
    type V = PageMetaModel;

    open spec fn view(&self) -> PageMetaModel {
        meta_model(*self)
    }
}

fn clone_opt_string(o: &Option<String>) -> (r: Option<String>)
    ensures
        opt_str(r) == opt_str(*o),
{
    match o {
        Some(s) => Some(s.clone()),
        None => None,
    }
}

/// A copy of a list of strings.
pub fn clone_strings(v: &Vec<String>) -> (r: Vec<String>)
    ensures
        r.deep_view() == v.deep_view(),
{
    let r = v.clone();
    assert(r.deep_view() =~= v.deep_view());
    r
}

/// The attribute maps of the metadata and of all its children are well formed.
pub open spec fn meta_wf(m: PageMeta) -> bool
    decreases m,
{
    &&& m.extra.wf()
    &&& forall|i: int| 0 <= i < m.children@.len() ==> meta_wf(#[trigger] m.children@[i])
}

impl PageMeta {
    pub open spec fn wf(&self) -> bool {
        meta_wf(*self)
    }

    /// A copy of the metadata, children included.
    #[verifier::loop_isolation(false)]
    pub fn clone_meta(&self) -> (r: PageMeta)
        requires
            self.wf(),
        ensures
            r@ == self@,
            r.wf(),
        decreases self,
    {
        let mut children: Vec<PageMeta> = Vec::new();
        let mut i: usize = 0;
        while i < self.children.len()
            invariant
                i <= self.children@.len(),
                children@.len() == i,
                forall|j: int| 0 <= j < i ==> (#[trigger] children@[j])@ == self.children@[j]@,
                forall|j: int| 0 <= j < i ==> meta_wf(#[trigger] children@[j]),
            decreases self.children.len() - i,
        {
            assert(meta_wf(self.children@[i as int]));
            children.push(self.children[i].clone_meta());
            i = i + 1;
        }
        let r = PageMeta {
            title: self.title.clone(),
            stem: self.stem.clone(),
            template: clone_opt_string(&self.template),
            publish: self.publish,
            id: self.id.clone(),
            children,
            path_segments: clone_strings(&self.path_segments),
            html_content: self.html_content.clone(),
            url: self.url.clone(),
            extra: self.extra.clone_map(),
        };
        assert(r@.children =~= self@.children);
        r
    }

    /// Appends path segments.
    pub fn insert_path_segments(&mut self, path_segments: &Vec<String>)
        ensures
            final(self).path_segments.deep_view() == old(self).path_segments.deep_view() + path_segments.deep_view(),
            final(self).title == old(self).title,
            final(self).stem == old(self).stem,
            final(self).template == old(self).template,
            final(self).publish == old(self).publish,
            final(self).id == old(self).id,
            final(self).children == old(self).children,
            final(self).html_content == old(self).html_content,
            final(self).url == old(self).url,
            final(self).extra == old(self).extra,
    {
        let mut i: usize = 0;
        while i < path_segments.len()
            invariant
                i <= path_segments@.len(),
                self.path_segments.deep_view() == old(self).path_segments.deep_view() + path_segments.deep_view().take(i as int),
                self.title == old(self).title,
                self.stem == old(self).stem,
                self.template == old(self).template,
                self.publish == old(self).publish,
                self.id == old(self).id,
                self.children == old(self).children,
                self.html_content == old(self).html_content,
                self.url == old(self).url,
                self.extra == old(self).extra,
            decreases path_segments.len() - i,
        {
            let ghost before = self.path_segments.deep_view();
            let c = path_segments[i].clone();
            self.path_segments.push(c);
            assert(self.path_segments.deep_view() =~= before.push(c@));
            assert(path_segments.deep_view().take(i + 1) =~= path_segments.deep_view().take(i as int).push(path_segments@[i as int]@));
            assert(self.path_segments.deep_view() =~= old(self).path_segments.deep_view() + path_segments.deep_view().take(i + 1));
            i = i + 1;
        }
        assert(path_segments.deep_view().take(i as int) =~= path_segments.deep_view());
    }
}

/// A page read from the content directory.
pub struct PageSource {
    pub abs_path: String,
    pub rel_path: String,
    pub rel_comps: PathKey,
    pub parent_dir: PathKey,
    pub stem: String,
    pub file_meta: FileMeta,
    pub page_meta: Option<PageMeta>,
    pub content: String,
    pub hash: String,
}

impl View for PageSource {
    type V = PageSource;

    open spec fn view(&self) -> PageSource {
        *self
    }
}

impl PageSource {
    pub open spec fn wf(&self) -> bool {
        &&& self.file_meta.wf()
        &&& self.page_meta matches Some(m) ==> m.wf()
    }

    /// An index page (`index.md`) gathers the pages of its directory.
    pub open spec fn spec_is_index(&self) -> bool {
        self.stem@ == seq!['i', 'n', 'd', 'e', 'x']
    }

    pub fn is_index(&self) -> (b: bool)
        ensures
            b == self.spec_is_index(),
    {
        proof {
            reveal_strlit("index");
        }
        let b = str_equal(self.stem.as_str(), "index");
        assert(b == (self.stem@ == "index"@));
        assert("index"@ =~= seq!['i', 'n', 'd', 'e', 'x']);
        b
    }

    /// The child collection roots the page names in its front matter.
    pub fn children_roots(&self) -> (r: &Vec<String>)
        ensures
            *r == self.file_meta.children,
    {
        &self.file_meta.children
    }

    /// The same, under the name the dependency graph uses.
    pub fn child_roots(&self) -> (r: &Vec<String>)
        ensures
            *r == self.file_meta.children,
    {
        &self.file_meta.children
    }

    pub fn parent_dir(&self) -> (r: &PathKey)
        ensures
            *r == self.parent_dir,
    {
        &self.parent_dir
    }

    /// Works out where the page at `abs_path` stands under `base_dir`: its relative
    /// path, parent directory and file stem. Fails when the path is not under the base,
    /// has no parent, or has no file name.
    pub fn locate(abs_path: &str, base_dir: &str) -> (r: Result<PageLocation, ParserError>)
        ensures
            match spec_strip_prefix(abs_path@, base_dir@) {
                None => r matches Err(e) && (e.kind matches ErrorKind::PathNotUnderBase { path, base }
                    && path@ == abs_path@ && base@ == base_dir@) && e.file is None && e.span is None
                    && e.source_content is None,
                Some(rel) => {
                    let comps = spec_path_components(rel);
                    match (spec_parent(comps), spec_file_name(comps)) {
                        (None, _) => r matches Err(e) && (e.kind matches ErrorKind::NoParentDir { path }
                            && path@ == rel) && (e.file matches Some(f) && f@ == abs_path@) && e.span is None
                            && e.source_content is None,
                        (Some(_), None) => r matches Err(e) && (e.kind matches ErrorKind::NoFileStem { path }
                            && path@ == rel) && (e.file matches Some(f) && f@ == abs_path@) && e.span is None
                            && e.source_content is None,
                        (Some(p), Some(name)) => r matches Ok(loc) && loc.rel_path@ == rel && loc.rel_comps@
                            == comps && loc.parent_dir@ == p && loc.stem@ == stem_of_name(name),
                    }
                },
            },
    {
        let rel = match strip_path_prefix(abs_path, base_dir) {
            Some(rel) => rel,
            None => {
                return Err(ParserError::path_not_under_base(abs_path.to_owned(), base_dir.to_owned()));
            },
        };
        let comps = PathKey::from_str(rel.as_str());
        let parent = match comps.parent() {
            Some(p) => p,
            None => {
                return Err(
                    ParserError {
                        kind: ErrorKind::NoParentDir { path: rel },
                        file: Some(abs_path.to_owned()),
                        span: None,
                        source_content: None,
                    },
                );
            },
        };
        let name = match comps.file_name() {
            Some(n) => n,
            None => {
                return Err(
                    ParserError {
                        kind: ErrorKind::NoFileStem { path: rel },
                        file: Some(abs_path.to_owned()),
                        span: None,
                        source_content: None,
                    },
                );
            },
        };
        let stem = name_stem(name.as_str());
        Ok(PageLocation { rel_path: rel, rel_comps: comps, parent_dir: parent, stem })
    }

    /// Completes a page from its location, its raw text and the outcome of parsing its
    /// front matter (the metadata and the body, or the parser's message). A parse
    /// failure becomes an error that points at the front matter.
    pub fn from_parts(
        loc: PageLocation,
        abs_path: String,
        raw: String,
        front: Result<(FileMeta, String), String>,
    ) -> (r: Result<PageSource, ParserError>)
        requires
            front matches Ok((fm, _)) ==> fm.wf(),
        ensures
            match front {
                Ok((fm, body)) => r matches Ok(p) && p.wf() && p.abs_path == abs_path && p.rel_path
                    == loc.rel_path && p.rel_comps == loc.rel_comps && p.parent_dir == loc.parent_dir
                    && p.stem == loc.stem && p.file_meta == fm && p.page_meta is None && p.content == body
                    && p.hash@ == spec_sha256_hex(vstd::utf8::encode_utf8(raw@)),
                Err(msg) => r matches Err(e) && e.kind == (ErrorKind::InvalidFrontMatter { message: msg })
                    && e.file == Some(abs_path) && e.source_content == Some(raw) && e.span == Some(
                    (0usize, front_matter_end(vstd::utf8::encode_utf8(raw@)) as usize),
                ),
            },
    {
        match front {
            Ok((file_meta, content)) => {
                let hash = sha256_digest(raw.as_str().as_bytes());
                Ok(
                    PageSource {
                        abs_path,
                        rel_path: loc.rel_path,
                        rel_comps: loc.rel_comps,
                        parent_dir: loc.parent_dir,
                        stem: loc.stem,
                        file_meta,
                        page_meta: None,
                        content,
                        hash,
                    },
                )
            },
            Err(msg) => {
                let bytes = raw.as_str().as_bytes();
                let n = bytes.len();
                let fallback = if n < 100 { n } else { 100 };
                let end = match find_dashes_exec(bytes, 0) {
                    Some(start) => match find_dashes_exec(bytes, start + 3) {
                        Some(e) => e + 3,
                        None => fallback,
                    },
                    None => fallback,
                };
                Err(ParserError::invalid_front_matter(abs_path, msg, raw, (0, end)))
            },
        }
    }
}

/// The metadata written at the top of a page file.
pub struct FileMeta {
    pub title: String,
    pub template: Option<String>,
    pub publish: Option<bool>,
    pub children: Vec<String>,
    pub children_attrs: Attrs,
    pub extra: Attrs,
}

impl FileMeta {
    pub open spec fn wf(&self) -> bool {
        self.children_attrs.wf() && self.extra.wf()
    }

    /// Takes on attributes that a parent hands down (its `children_attrs`). What the page
    /// sets itself stays: a name it already has keeps its value, and its template and
    /// `publish` flag are only filled in where it has none. Fails, changing nothing, when
    /// the attributes do not read as front matter fields.
    #[verifier::loop_isolation(false)]
    pub fn append(&mut self, other: &Attrs) -> (r: Result<(), String>)
        requires
            old(self).wf(),
            other.wf(),
        ensures
            final(self).wf(),
            r is Ok <==> patch_decodes(patch_of(*other)),
            r matches Err(e) ==> exists|k: Seq<char>|
                first_bad_field(other.key_seq(), other.value_seq(), k) && e@ == field_error(k),
            r is Ok ==> {
                let patch = patch_of(*other);
                &&& final(self).extra@ == keep_existing(old(self).extra@, patch_extra(patch))
                &&& opt_str(final(self).template) == if old(self).template is Some {
                    opt_str(old(self).template)
                } else {
                    patch_template(patch)
                }
                &&& final(self).publish == if old(self).publish is Some {
                    old(self).publish
                } else {
                    patch_publish(patch)
                }
                &&& final(self).title == old(self).title
                &&& final(self).children == old(self).children
                &&& final(self).children_attrs == old(self).children_attrs
            },
            r is Err ==> *final(self) == *old(self),
    {
        let mapping = lower_attrs(other);
        let ghost patch = patch_of(*other);
        match check_in_order(other, &mapping) {
            Ok(()) => {},
            Err(e) => {
                return Err(e);
            },
        }
        let pe = match decode_patch_extra(&mapping) {
            Ok(pe) => pe,
            Err(e) => {
                assert(false);
                return Err(e);
            },
        };
        proof {
            reveal_strlit("template");
            reveal_strlit("publish");
            assert("template"@ =~= lit_template());
            assert("publish"@ =~= lit_publish());
        }
        let template = mapping.get(&"template".to_owned());
        let publish = mapping.get(&"publish".to_owned());
        // merge the extra attributes the page does not have yet
        let mut i: usize = 0;
        let ghost old_extra = self.extra@;
        while i < pe.len()
            invariant
                pe.wf(),
                self.extra.wf(),
                i <= pe.key_seq().len(),
                self.extra@ == keep_existing(old_extra, prefix_map(pe.key_seq(), pe.value_seq(), i as int)),
                self.children_attrs == old(self).children_attrs,
                self.title == old(self).title,
                self.template == old(self).template,
                self.publish == old(self).publish,
                self.children == old(self).children,
            decreases pe.key_seq().len() - i,
        {
            let k = pe.key_at(i);
            proof {
                pe.lemma_prefix_map(i as int);
                pe.lemma_dom();
                assert(!pe.key_seq().take(i as int).contains(pe.key_seq()[i as int])) by {
                    if pe.key_seq().take(i as int).contains(pe.key_seq()[i as int]) {
                        let j = choose|j: int| 0 <= j < i && pe.key_seq().take(i as int)[j] == pe.key_seq()[i as int];
                        assert(pe.key_seq()[j] == pe.key_seq()[i as int]);
                    }
                }
            }
            if !self.extra.contains_key(k) {
                self.extra.insert(k.clone(), pe.value_at(i).clone_value());
            }
            proof {
                let p0 = prefix_map(pe.key_seq(), pe.value_seq(), i as int);
                let p1 = prefix_map(pe.key_seq(), pe.value_seq(), i + 1);
                assert(!p0.contains_key(pe.key_seq()[i as int]));
                assert(self.extra@ =~= keep_existing(old_extra, p1));
            }
            i = i + 1;
        }
        proof {
            pe.lemma_full_prefix_map();
        }
        if self.template.is_none() {
            match template {
                Some(v) => match v.untag_ref() {
                    YamlValue::String(s) => {
                        self.template = Some(s.clone());
                    },
                    _ => {},
                },
                None => {},
            }
        }
        if self.publish.is_none() {
            match publish {
                Some(v) => match v.untag_ref() {
                    YamlValue::Bool(b) => {
                        self.publish = Some(*b);
                    },
                    _ => {},
                },
                None => {},
            }
        }
        Ok(())
    }
}

impl FileMeta {
    /// A copy of the metadata.
    pub fn clone_meta(&self) -> (r: FileMeta)
        requires
            self.wf(),
        ensures
            r.wf(),
            r.title == self.title,
            opt_str(r.template) == opt_str(self.template),
            r.publish == self.publish,
            r.children.deep_view() == self.children.deep_view(),
            r.children_attrs@ == self.children_attrs@,
            r.extra@ == self.extra@,
    {
        FileMeta {
            title: self.title.clone(),
            template: clone_opt_string(&self.template),
            publish: self.publish,
            children: clone_strings(&self.children),
            children_attrs: self.children_attrs.clone_map(),
            extra: self.extra.clone_map(),
        }
    }

    /// The page metadata that this file metadata starts: its title, template, extra
    /// attributes, and `publish` (true when not given); everything else empty.
    pub fn into_page_meta(self) -> (m: PageMeta)
        requires
            self.wf(),
        ensures
            m.wf(),
            m.title == self.title,
            m.template == self.template,
            m.publish == match self.publish {
                Some(b) => b,
                None => true,
            },
            m.extra@ == self.extra@,
            m.stem@ == Seq::<char>::empty(),
            m.id@ == Seq::<char>::empty(),
            m.url@ == Seq::<char>::empty(),
            m.html_content@ == Seq::<char>::empty(),
            m.children@.len() == 0,
            m.path_segments@.len() == 0,
    {
        let publish = match self.publish {
            Some(b) => b,
            None => default_true(),
        };
        let m = PageMeta {
            title: self.title,
            stem: String::new(),
            template: self.template,
            publish,
            id: String::new(),
            children: Vec::new(),
            path_segments: Vec::new(),
            html_content: String::new(),
            url: String::new(),
            extra: self.extra,
        };
        assert(meta_wf(m));
        m
    }
}

/// Where a page file stands: its path relative to the content directory, that path's
/// components, its parent directory and its file stem.
pub struct PageLocation {
    pub rel_path: String,
    pub rel_comps: PathKey,
    pub parent_dir: PathKey,
    pub stem: String,
}

/// What `Path::strip_prefix` gives for a path and a base, as text (`None` when the base's
/// components do not lead the path's).
pub uninterp spec fn spec_strip_prefix(path: Seq<char>, base: Seq<char>) -> Option<Seq<char>>;

/// Trusted: calls `Path::strip_prefix`; the result is named, not described.
#[verifier::external_body]
pub(crate) fn strip_path_prefix(path: &str, base: &str) -> (r: Option<String>)
    ensures
        match r {
            Some(s) => spec_strip_prefix(path@, base@) == Some(s@),
            None => spec_strip_prefix(path@, base@) is None,
        },
{
    match std::path::Path::new(path).strip_prefix(base) {
        Ok(rel) => Some(rel.to_string_lossy().into_owned()),
        Err(_) => None,
    }
}

/// What `sha256::digest` returns for some bytes: the lowercase hex text of their SHA-256 digest.
pub uninterp spec fn spec_sha256_hex(data: Seq<u8>) -> Seq<char>;

/// Trusted: calls `sha256::digest`; the digest is named, not described. The crate
/// hex-encodes the 32 bytes of the digest, so the text has 64 characters.
#[verifier::external_body]
pub(crate) fn sha256_digest(data: &[u8]) -> (r: String)
    ensures
        r@ == spec_sha256_hex(data@),
        r@.len() == 64,
{
    sha256::digest(data)
}

/// Where the front matter of `raw` ends, for pointing at it in an error: just past the
/// second `---`, or the first 100 bytes (or fewer, if the file is shorter).
pub open spec fn front_matter_end(raw: Seq<u8>) -> int {
    match find_dashes(raw, 0) {
        Some(start) => match find_dashes(raw, start + 3) {
            Some(end) => end + 3,
            None => if raw.len() < 100 { raw.len() as int } else { 100 },
        },
        None => if raw.len() < 100 { raw.len() as int } else { 100 },
    }
}

/// `---` stands at byte `i`.
pub open spec fn dashes_at(raw: Seq<u8>, i: int) -> bool {
    0 <= i && i + 3 <= raw.len() && raw[i] == 45u8 && raw[i + 1] == 45u8 && raw[i + 2] == 45u8
}

/// The first position at or after `from` where `---` stands.
pub open spec fn find_dashes(raw: Seq<u8>, from: int) -> Option<int> {
    if exists|i: int| from <= i && #[trigger] dashes_at(raw, i) {
        Some(choose|i: int| from <= i && #[trigger] dashes_at(raw, i) && forall|j: int| from <= j < i ==> !dashes_at(raw, j))
    } else {
        None
    }
}

fn find_dashes_exec(raw: &[u8], from: usize) -> (r: Option<usize>)
    ensures
        match r {
            Some(i) => find_dashes(raw@, from as int) == Some(i as int) && i + 3 <= raw@.len(),
            None => find_dashes(raw@, from as int) is None,
        },
{
    let n = raw.len();
    let mut i = from;
    while i < n && n - i >= 3
        invariant
            n == raw@.len(),
            from <= i,
            forall|j: int| from <= j < i ==> !#[trigger] dashes_at(raw@, j),
        decreases n - i,
    {
        if raw[i] == 45u8 && raw[i + 1] == 45u8 && raw[i + 2] == 45u8 {
            proof {
                lemma_first_dashes(raw@, from as int, i as int);
            }
            return Some(i);
        }
        i = i + 1;
    }
    assert forall|j: int| from <= j implies !#[trigger] dashes_at(raw@, j) by {
        if j < i {
        }
    }
    None
}

proof fn lemma_first_dashes(raw: Seq<u8>, from: int, i: int)
    requires
        from <= i,
        dashes_at(raw, i),
        forall|j: int| from <= j < i ==> !#[trigger] dashes_at(raw, j),
    ensures
        find_dashes(raw, from) == Some(i),
{
    let c = choose|k: int| from <= k && #[trigger] dashes_at(raw, k) && forall|j: int| from <= j < k ==> !dashes_at(raw, j);
    assert(c == i) by {
        if c < i {
            assert(!dashes_at(raw, c));
        } else if c > i {
            assert(!dashes_at(raw, i));
        }
    }
}

/// Builds the lowercased mapping of handed-down attributes.
fn lower_attrs(other: &Attrs) -> (m: Attrs)
    requires
        other.wf(),
    ensures
        m.wf(),
        m@ == patch_of(*other),
{
    let mut m: Attrs = SortedMap::new();
    let mut i: usize = 0;
    proof {
        reveal_strlit("title");
        reveal_strlit("children_attrs");
    }
    while i < other.len()
        invariant
            other.wf(),
            m.wf(),
            i <= other.key_seq().len(),
            m@ == lowered_attrs(other.key_seq(), other.value_seq(), i as int),
        decreases other.key_seq().len() - i,
    {
        proof {
            reveal_strlit("title");
            reveal_strlit("children_attrs");
            assert("title"@ =~= lit_title());
            assert("children_attrs"@ =~= lit_children_attrs());
        }
        let lk = to_lowercase(other.key_at(i).as_str());
        let ghost prev = m@;
        assert(lk@ == spec_lowercase(other.key_seq()[i as int]));
        if !(str_equal(lk.as_str(), "title") || str_equal(lk.as_str(), "children_attrs")) {
            let v = other.value_at(i).clone_value();
            assert(v@ == other.value_seq()[i as int]);
            m.insert(lk, v);
        }
        assert(m@ == lowered_attrs(other.key_seq(), other.value_seq(), i + 1));
        i = i + 1;
    }
    m
}

/// Whether a value reads as a list of strings (or null, for none).
#[verifier::loop_isolation(false)]
fn is_string_list(v: &YamlValue) -> (b: bool)
    ensures
        b == string_list_ok(v@),
{
    match v.untag_ref() {
        YamlValue::Null => true,
        YamlValue::Sequence(items) => {
            let mut i: usize = 0;
            while i < items.len()
                invariant
                    i <= items@.len(),
                    forall|j: int| 0 <= j < i ==> untag((#[trigger] items@[j])@) is Str,
                decreases items.len() - i,
            {
                match items[i].untag_ref() {
                    YamlValue::String(_) => {},
                    _ => {
                        proof {
                            if let YamlModel::List(s) = untag(v@) {
                                assert(s[i as int] == items@[i as int]@);
                            }
                        }
                        return false;
                    },
                }
                i = i + 1;
            }
            proof {
                if let YamlModel::List(s) = untag(v@) {
                    assert forall|j: int| 0 <= j < s.len() implies untag(#[trigger] s[j]) is Str by {
                        assert(s[j] == items@[j]@);
                    }
                }
            }
            true
        },
        _ => false,
    }
}

/// The entry at `i` is the first that does not read as its field when those before it do.
proof fn lemma_first_bad(m: &Attrs, i: int)
    requires
        m.wf(),
        0 <= i < m.key_seq().len(),
        forall|j: int| 0 <= j < i ==> field_ok(#[trigger] m.key_seq()[j], m.value_seq()[j]),
        !field_ok(m.key_seq()[i], m.value_seq()[i]),
    ensures
        first_bad_key(m@, m.key_seq()[i]),
        lit_publish() != lit_template(),
        lit_children() != lit_template(),
        lit_children() != lit_publish(),
{
    m.lemma_at(i);
    m.lemma_dom();
    <String as OrdKey>::lemma_key_order();
    let k = m.key_seq()[i];
    assert forall|k2: Seq<char>| #[trigger] m@.contains_key(k2) && str_lt(k2, k) implies field_ok(k2, m@[k2]) by {
        assert(m.key_seq().to_set().contains(k2));
        let j = choose|j: int| 0 <= j < m.key_seq().len() && m.key_seq()[j] == k2;
        m.lemma_at(j);
        if j == i {
            assert(!<String as OrdKey>::key_lt(k, k));
            assert(false);
        } else if j > i {
            assert(<String as OrdKey>::key_lt(k, k2));
            assert(<String as OrdKey>::key_lt(k2, k));
            assert(<String as OrdKey>::key_lt(k2, k2));
            assert(false);
        }
        assert(field_ok(m.key_seq()[j], m.value_seq()[j]));
    }
    assert(lit_publish().len() != lit_template().len());
    assert(lit_children()[0] != lit_template()[0]);
    assert(lit_children().len() != lit_publish().len());
}

/// Whether `v` reads as the field named `k`.
fn field_fits(k: &str, v: &YamlValue) -> (b: bool)
    ensures
        b == field_ok(k@, v@),
{
    proof {
        reveal_strlit("template");
        reveal_strlit("publish");
        reveal_strlit("children");
        assert("template"@ =~= lit_template());
        assert("publish"@ =~= lit_publish());
        assert("children"@ =~= lit_children());
    }
    if str_equal(k, "template") {
        match v {
            YamlValue::Null => true,
            _ => match v.untag_ref() {
                YamlValue::String(_) => true,
                _ => false,
            },
        }
    } else if str_equal(k, "publish") {
        match v {
            YamlValue::Null => true,
            _ => match v.untag_ref() {
                YamlValue::Bool(_) => true,
                _ => false,
            },
        }
    } else if str_equal(k, "children") {
        is_string_list(v)
    } else {
        !v.contains_tag()
    }
}

/// The message for a field named `k` that does not read.
fn field_error_text(k: &str) -> (e: String)
    ensures
        e@ == field_error(k@),
{
    proof {
        reveal_strlit("template");
        reveal_strlit("publish");
        reveal_strlit("children");
        assert("template"@ =~= lit_template());
        assert("publish"@ =~= lit_publish());
        assert("children"@ =~= lit_children());
        reveal_strlit("invalid type for `template`: expected a string");
        reveal_strlit("invalid type for `publish`: expected a boolean");
        reveal_strlit("invalid type for `children`: expected a sequence of strings");
        reveal_strlit("tagged values are not supported in inherited attributes");
    }
    if str_equal(k, "template") {
        "invalid type for `template`: expected a string".to_owned()
    } else if str_equal(k, "publish") {
        "invalid type for `publish`: expected a boolean".to_owned()
    } else if str_equal(k, "children") {
        "invalid type for `children`: expected a sequence of strings".to_owned()
    } else {
        "tagged values are not supported in inherited attributes".to_owned()
    }
}

/// A name of the lowered attributes comes from a name among the first `n`.
proof fn lemma_lowered_from(ks: Seq<Seq<char>>, vs: Seq<YamlModel>, n: int, k: Seq<char>)
    requires
        lowered_attrs(ks, vs, n).contains_key(k),
    ensures
        exists|i: int| 0 <= i < n && spec_lowercase(#[trigger] ks[i]) == k,
    decreases n,
{
    if n > 0 {
        if spec_lowercase(ks[n - 1]) != k {
            lemma_lowered_from(ks, vs, n - 1, k);
        }
    }
}

/// Where a lowercased name first comes.
proof fn lemma_first_place(ks: Seq<Seq<char>>, k: Seq<char>, i: int) -> (p: int)
    requires
        0 <= i < ks.len(),
        spec_lowercase(ks[i]) == k,
    ensures
        0 <= p <= i,
        spec_lowercase(ks[p]) == k,
        forall|j: int| 0 <= j < p ==> spec_lowercase(#[trigger] ks[j]) != k,
    decreases i,
{
    if exists|j: int| 0 <= j < i && spec_lowercase(#[trigger] ks[j]) == k {
        let j = choose|j: int| 0 <= j < i && spec_lowercase(#[trigger] ks[j]) == k;
        lemma_first_place(ks, k, j)
    } else {
        i
    }
}

/// Reads the handed-down fields in the order their names first come among the names of
/// `other`, and stops at the first that does not read.
fn check_in_order(other: &Attrs, mapping: &Attrs) -> (r: Result<(), String>)
    requires
        other.wf(),
        mapping.wf(),
        mapping@ == patch_of(*other),
    ensures
        r is Ok <==> patch_decodes(patch_of(*other)),
        r matches Err(e) ==> exists|k: Seq<char>|
            first_bad_field(other.key_seq(), other.value_seq(), k) && e@ == field_error(k),
{
    let ghost ks = other.key_seq();
    let ghost vs = other.value_seq();
    let ghost patch = patch_of(*other);
    let mut seen: SortedMap<String, ()> = SortedMap::new();
    let mut i: usize = 0;
    while i < other.len()
        invariant
            other.wf(),
            mapping.wf(),
            mapping@ == patch,
            patch == patch_of(*other),
            ks == other.key_seq(),
            vs == other.value_seq(),
            seen.wf(),
            i <= ks.len(),
            forall|s: Seq<char>| #[trigger] seen@.contains_key(s) <==> exists|j: int| 0 <= j < i && spec_lowercase(#[trigger] ks[j]) == s,
            forall|j: int| 0 <= j < i ==> !#[trigger] bad_at(ks, vs, j),
        decreases ks.len() - i,
    {
        let lk = to_lowercase(other.key_at(i).as_str());
        assert(lk@ == spec_lowercase(ks[i as int]));
        if !seen.contains_key(&lk) {
            match mapping.get(&lk) {
                Some(v) => {
                    if !field_fits(lk.as_str(), v) {
                        let e = field_error_text(lk.as_str());
                        proof {
                            assert(bad_at(ks, vs, i as int));
                        }
                        return Err(e);
                    }
                },
                None => {},
            }
        }
        assert(!bad_at(ks, vs, i as int));
        let ghost s0 = seen@;
        seen.insert(lk, ());
        proof {
            assert forall|s: Seq<char>| #[trigger] seen@.contains_key(s) <==> exists|j: int| 0 <= j < i + 1 && spec_lowercase(#[trigger] ks[j]) == s by {
                if s == spec_lowercase(ks[i as int]) {
                    assert(spec_lowercase(ks[i as int]) == s);
                } else if seen@.contains_key(s) {
                    assert(s0.contains_key(s));
                } else {
                    if exists|j: int| 0 <= j < i + 1 && spec_lowercase(#[trigger] ks[j]) == s {
                        let j = choose|j: int| 0 <= j < i + 1 && spec_lowercase(#[trigger] ks[j]) == s;
                        assert(j < i);
                    }
                }
            }
        }
        i = i + 1;
    }
    proof {
        assert forall|k: Seq<char>| #[trigger] patch.contains_key(k) implies field_ok(k, patch[k]) by {
            lemma_lowered_from(ks, vs, ks.len() as int, k);
            let i0 = choose|i: int| 0 <= i < ks.len() && spec_lowercase(#[trigger] ks[i]) == k;
            let p = lemma_first_place(ks, k, i0);
            assert(!bad_at(ks, vs, p));
        }
    }
    Ok(())
}

/// Checks every entry against its field and gathers the entries that are no field.
fn decode_patch_extra(m: &Attrs) -> (r: Result<Attrs, String>)
    requires
        m.wf(),
    ensures
        r is Ok <==> patch_decodes(m@),
        r matches Ok(pe) ==> pe.wf() && pe@ == patch_extra(m@),
        r matches Err(e) ==> exists|k: Seq<char>| first_bad_key(m@, k) && e@ == field_error(k),
{
    let mut pe: Attrs = SortedMap::new();
    let mut i: usize = 0;
    proof {
        reveal_strlit("template");
        reveal_strlit("publish");
        reveal_strlit("children");
    }
    while i < m.len()
        invariant
            m.wf(),
            pe.wf(),
            i <= m.key_seq().len(),
            forall|j: int| 0 <= j < i ==> field_ok(#[trigger] m.key_seq()[j], m.value_seq()[j]),
            pe@ == patch_extra(prefix_map(m.key_seq(), m.value_seq(), i as int)),
        decreases m.key_seq().len() - i,
    {
        proof {
            reveal_strlit("template");
            reveal_strlit("publish");
            reveal_strlit("children");
            assert("template"@ =~= lit_template());
            assert("publish"@ =~= lit_publish());
            assert("children"@ =~= lit_children());
        }
        let k = m.key_at(i);
        let v = m.value_at(i);
        proof {
            m.lemma_at(i as int);
        }
        if str_equal(k.as_str(), "template") {
            let ok = match v {
                YamlValue::Null => true,
                _ => match v.untag_ref() {
                    YamlValue::String(_) => true,
                    _ => false,
                },
            };
            if !ok {
                assert(!field_ok(m.key_seq()[i as int], m.value_seq()[i as int]));
                assert(m@.contains_key(m.key_seq()[i as int]));
                proof {
                    reveal_strlit("invalid type for `template`: expected a string");
                    reveal_strlit("template");
                    lemma_first_bad(m, i as int);
                    assert(k@ == m.key_seq()[i as int]);
                    assert(k@ == lit_template());
                    assert(field_error(k@) == "invalid type for `template`: expected a string"@);
                }
                return Err("invalid type for `template`: expected a string".to_owned());
            }
        } else if str_equal(k.as_str(), "publish") {
            let ok = match v {
                YamlValue::Null => true,
                _ => match v.untag_ref() {
                    YamlValue::Bool(_) => true,
                    _ => false,
                },
            };
            if !ok {
                assert(!field_ok(m.key_seq()[i as int], m.value_seq()[i as int]));
                assert(m@.contains_key(m.key_seq()[i as int]));
                proof {
                    reveal_strlit("invalid type for `publish`: expected a boolean");
                    reveal_strlit("publish");
                    lemma_first_bad(m, i as int);
                    assert(k@ == m.key_seq()[i as int]);
                    assert(k@ == lit_publish());
                    assert(field_error(k@) == "invalid type for `publish`: expected a boolean"@);
                }
                return Err("invalid type for `publish`: expected a boolean".to_owned());
            }
        } else if str_equal(k.as_str(), "children") {
            if !is_string_list(v) {
                assert(!field_ok(m.key_seq()[i as int], m.value_seq()[i as int]));
                assert(m@.contains_key(m.key_seq()[i as int]));
                proof {
                    reveal_strlit("invalid type for `children`: expected a sequence of strings");
                    reveal_strlit("children");
                    lemma_first_bad(m, i as int);
                    assert(k@ == m.key_seq()[i as int]);
                    assert(k@ == lit_children());
                    assert(field_error(k@) == "invalid type for `children`: expected a sequence of strings"@);
                }
                return Err("invalid type for `children`: expected a sequence of strings".to_owned());
            }
        } else {
            if v.contains_tag() {
                assert(!field_ok(m.key_seq()[i as int], m.value_seq()[i as int]));
                assert(m@.contains_key(m.key_seq()[i as int]));
                proof {
                    reveal_strlit("tagged values are not supported in inherited attributes");
                    lemma_first_bad(m, i as int);
                    assert(k@ == m.key_seq()[i as int]);
                    assert(k@ != lit_template() && k@ != lit_publish() && k@ != lit_children());
                    assert(field_error(k@) == "tagged values are not supported in inherited attributes"@);
                }
                return Err("tagged values are not supported in inherited attributes".to_owned());
            }
            pe.insert(k.clone(), v.clone_value());
        }
        proof {
            let p1 = prefix_map(m.key_seq(), m.value_seq(), i + 1);
            assert(pe@ =~= patch_extra(p1));
        }
        i = i + 1;
    }
    proof {
        m.lemma_full_prefix_map();
        assert forall|k: Seq<char>| #[trigger] m@.contains_key(k) implies field_ok(k, m@[k]) by {
            m.lemma_dom();
            let j = m.key_seq().index_of(k);
            m.lemma_at(j);
        }
    }
    Ok(pe)
}

} // verus!
