use vstd::prelude::*;
use crate::error::{ErrorKind, ParserError, ErrorCollector};
use crate::graph::{Graph, built_from, warned, missing_upto};
use crate::models::{SiteMeta, NavNode, opt_str};
use crate::processor::{Processor, is_order, processed_in_order, unit_result, nav_models, nav_of_roots, root_ids, crumbs_view, breadcrumbs_of};
use crate::renderer::collect_urls;
use crate::text::decimal;
use crate::models::{PageSource, sha256_digest, spec_sha256_hex, strip_path_prefix, spec_strip_prefix};
use crate::page_id::PageId;
use crate::path::{
    PathKey, cur_comp, is_prefix, join_comps, join_path, name_extension, spec_file_name,
    spec_join, spec_path_components, extension_of_name,
};
use crate::sorted_map::{SortedMap, OrdKey};
use crate::text::{chars_of, debug_path, spec_debug_path, concat_str};
use crate::path::spec_without_extension;

verus! {

/// Identifiers of pages, as a set kept in order.
pub type IdSet = SortedMap<PageId, ()>;

/// The pages of a site, by identifier, with indices by directory.
pub struct PageRegistry {
    /// All pages indexed by their ID
    pub pages: SortedMap<PageId, PageSource>,
    /// Index of page IDs by their parent directory
    pub by_dir: SortedMap<PathKey, IdSet>,
    /// Directories that contain index pages (sections)
    pub section_dirs: SortedMap<PathKey, ()>,
}

/// A static file: where it is, and where it is under its base directory.
pub struct StaticFile {
    pub abs_path: String,
    pub rel_path: String,
}

impl View for StaticFile {
    type V = (Seq<char>, Seq<char>);

    open spec fn view(&self) -> (Seq<char>, Seq<char>) {
        (self.abs_path@, self.rel_path@)
    }
}

/// Static files and their digests, by absolute path.
pub struct StaticFileRegistry {
    /// Maps absolute paths to relative paths
    pub files: SortedMap<PathKey, StaticFile>,
    /// Maps absolute paths to SHA-256 digests
    pub hashes: SortedMap<PathKey, String>,
}

/// The error that `Path::strip_prefix` reports.
pub open spec fn strip_prefix_message() -> Seq<char> {
    "prefix not found"@
}

impl StaticFileRegistry {
    pub open spec fn wf(&self) -> bool {
        self.files.wf() && self.hashes.wf()
    }

    pub fn new() -> (r: Self)
        ensures
            r.wf(),
            r.files@ == Map::<Seq<Seq<char>>, (Seq<char>, Seq<char>)>::empty(),
            r.hashes@ == Map::<Seq<Seq<char>>, Seq<char>>::empty(),
    {
        StaticFileRegistry { files: SortedMap::new(), hashes: SortedMap::new() }
    }

    /// The path of a static file relative to `prefix`; fails as `strip_prefix` does.
    pub fn relative_path(path: &str, prefix: &str) -> (r: Result<String, String>)
        ensures
            match spec_strip_prefix(path@, prefix@) {
                Some(rel) => r matches Ok(s) && s@ == rel,
                None => r matches Err(m) && m@ == strip_prefix_message(),
            },
    {
        match strip_path_prefix(path, prefix) {
            Some(rel) => Ok(rel),
            None => Err("prefix not found".to_owned()),
        }
    }

    /// Registers a static file from its contents: fails when it is not under `prefix`,
    /// otherwise records its relative path and the digest of `bytes`.
    pub fn push_static(&mut self, path: &str, prefix: &str, bytes: &[u8]) -> (r: Result<(), String>)
        requires
            old(self).wf(),
        ensures
            final(self).wf(),
            match spec_strip_prefix(path@, prefix@) {
                Some(rel) => {
                    &&& r is Ok
                    &&& final(self).files@ == old(self).files@.insert(spec_path_components(path@), (path@, rel))
                    &&& final(self).hashes@ == old(self).hashes@.insert(
                        spec_path_components(path@),
                        spec_sha256_hex(bytes@),
                    )
                },
                None => r matches Err(m) && m@ == strip_prefix_message() && *final(self) == *old(self),
            },
    {
        let rel = match Self::relative_path(path, prefix) {
            Ok(rel) => rel,
            Err(e) => {
                return Err(e);
            },
        };
        let hash = sha256_digest(bytes);
        let key = PathKey::from_str(path);
        self.hashes.insert(key.clone_key(), hash);
        self.files.insert(key, StaticFile { abs_path: path.to_owned(), rel_path: rel });
        Ok(())
    }

    /// Where the static file at `absolute_path` goes under `out_path`; fails when the file
    /// was not registered.
    pub fn copy_static(&self, absolute_path: &str, out_path: &str) -> (r: Result<String, String>)
        requires
            self.wf(),
        ensures
            match self.files@.get(spec_path_components(absolute_path@)) {
                Some(f) => r matches Ok(t) && t@ == spec_join(out_path@, f.1),
                None => r matches Err(m) && m@ == "File not found: "@ + spec_debug_path(absolute_path@),
            },
    {
        let key = PathKey::from_str(absolute_path);
        match self.files.get(&key) {
            Some(f) => Ok(join_path(out_path, f.rel_path.as_str())),
            None => {
                let q = debug_path(absolute_path);
                Err(concat_str("File not found: ", q.as_str()))
            },
        }
    }

    /// Every registered file with where it goes under `out_path`, in path order: the copies
    /// to make, one after the other.
    pub fn copy_all(&self, out_path: &str) -> (r: Vec<(String, String)>)
        requires
            self.wf(),
        ensures
            r@.len() == self.files.key_seq().len(),
            forall|i: int|
                0 <= i < r@.len() ==> (#[trigger] r@[i]).0@ == self.files.value_seq()[i].0 && r@[i].1@
                    == spec_join(out_path@, self.files.value_seq()[i].1),
    {
        let mut r: Vec<(String, String)> = Vec::new();
        let mut i: usize = 0;
        while i < self.files.len()
            invariant
                self.wf(),
                i <= self.files.key_seq().len(),
                r@.len() == i,
                forall|j: int|
                    0 <= j < i ==> (#[trigger] r@[j]).0@ == self.files.value_seq()[j].0 && r@[j].1@
                        == spec_join(out_path@, self.files.value_seq()[j].1),
            decreases self.files.key_seq().len() - i,
        {
            let f = self.files.value_at(i);
            r.push((f.abs_path.clone(), join_path(out_path, f.rel_path.as_str())));
            i = i + 1;
        }
        r
    }
}

/// The file name of a path string starts with a dot.
pub open spec fn spec_is_hidden(p: Seq<char>) -> bool {
    match spec_file_name(spec_path_components(p)) {
        Some(n) => n.len() > 0 && n[0] == '.',
        None => false,
    }
}

/// The extension of a path string is `md`.
pub open spec fn spec_is_markdown(p: Seq<char>) -> bool {
    match spec_file_name(spec_path_components(p)) {
        Some(n) => extension_of_name(n) == Some(seq!['m', 'd']),
        None => false,
    }
}

/// What to do with a file found in the content directory.
#[derive(PartialEq, Eq, Structural, Clone, Copy, Debug)]
pub enum FileAction {
    /// Hidden: leave it out.
    Skip,
    /// Markdown: read it as a page.
    Page,
    /// Anything else: copy it as a static file.
    Static,
}

/// The components among the first `n` that are neither empty nor `.`.
pub open spec fn named_comps(c: Seq<Seq<char>>, n: int) -> Seq<Seq<char>>
    decreases n,
{
    if n <= 0 {
        Seq::empty()
    } else if c[n - 1].len() > 0 && c[n - 1] != cur_comp() {
        named_comps(c, n - 1).push(c[n - 1])
    } else {
        named_comps(c, n - 1)
    }
}

/// The path segments under which a page is listed: the components of its directory,
/// without empty ones or `.`.
pub open spec fn page_segments(p: PageSource) -> Seq<Seq<char>> {
    named_comps(p.parent_dir@, p.parent_dir@.len() as int)
}

/// A page is gathered under `root`: its path starts there and it is not the index page
/// of `root` itself.
pub open spec fn gathered_under(p: PageSource, root: Seq<Seq<char>>) -> bool {
    is_prefix(root, p.rel_comps@) && !(p.spec_is_index() && p.parent_dir@ == root)
}

/// The pages gathered under `root` among the first `n` pages, in identifier order, with
/// their path segments.
pub open spec fn under_root_upto(
    ids: Seq<Seq<char>>,
    pages: Seq<PageSource>,
    root: Seq<Seq<char>>,
    n: int,
) -> Seq<(Seq<char>, Seq<Seq<char>>)>
    decreases n,
{
    if n <= 0 {
        Seq::empty()
    } else {
        let prev = under_root_upto(ids, pages, root, n - 1);
        if gathered_under(pages[n - 1], root) {
            prev.push((ids[n - 1], page_segments(pages[n - 1])))
        } else {
            prev
        }
    }
}

/// Collects the pages of a site and its static files.
pub struct SiteBuilder {
    pub content_dir: String,
    pub page_registry: PageRegistry,
    pub static_registry: StaticFileRegistry,
}

/// The identifier a page is registered under: its relative path without extension.
pub open spec fn page_key(p: PageSource) -> Seq<char> {
    spec_without_extension(p.rel_path@)
}

/// The section directories that registering `p` adds: its directory when it is an index
/// page, and each child root that `child_dirs` marks as an existing directory, joined to
/// its directory.
pub open spec fn sections_of(p: PageSource, child_dirs: Seq<bool>) -> Set<Seq<Seq<char>>> {
    sections_upto(p, child_dirs, child_dirs.len() as int)
}

/// The directory that the `i`-th child root of `p` names, as components.
pub open spec fn child_section(p: PageSource, i: int) -> Seq<Seq<char>> {
    spec_path_components(spec_join(join_comps(p.parent_dir@), p.file_meta.children@[i]@))
}

/// Section directories from the page itself and its first `n` child roots.
pub open spec fn sections_upto(p: PageSource, child_dirs: Seq<bool>, n: int) -> Set<Seq<Seq<char>>> {
    Set::new(
        |d: Seq<Seq<char>>|
            (p.spec_is_index() && d == p.parent_dir@) || exists|i: int|
                0 <= i < n && child_dirs[i] && #[trigger] child_section(p, i) == d,
    )
}

impl PageRegistry {
    pub open spec fn wf(&self) -> bool {
        &&& self.pages.wf()
        &&& self.by_dir.wf()
        &&& self.section_dirs.wf()
        &&& forall|i: int| 0 <= i < self.pages.key_seq().len() ==> (#[trigger] self.pages.exec_seq()[i]).wf()
        &&& forall|i: int| 0 <= i < self.by_dir.key_seq().len() ==> (#[trigger] self.by_dir.exec_seq()[i]).wf()
    }

    pub fn new() -> (r: Self)
        ensures
            r.wf(),
            r.pages@ == Map::<Seq<char>, PageSource>::empty(),
            r.pages.exec_map() == Map::<Seq<char>, PageSource>::empty(),
            r.pages.key_seq() == Seq::<Seq<char>>::empty(),
    {
        PageRegistry { pages: SortedMap::new(), by_dir: SortedMap::new(), section_dirs: SortedMap::new() }
    }

    /// Registers a page under its identifier, indexes it by its directory, and records the
    /// section directories it opens. `child_dirs[i]` tells whether the `i`-th child root of
    /// the page is an existing directory under the content directory.
    pub fn push_page(&mut self, page: PageSource, child_dirs: &Vec<bool>)
        requires
            old(self).wf(),
            page.wf(),
            child_dirs@.len() == page.file_meta.children@.len(),
        ensures
            final(self).wf(),
            final(self).pages.exec_map() == old(self).pages.exec_map().insert(page_key(page), page),
            final(self).by_dir@.dom() == old(self).by_dir@.dom().insert(page.parent_dir@),
            final(self).by_dir@[page.parent_dir@].dom() == (if old(self).by_dir@.contains_key(
                page.parent_dir@,
            ) {
                old(self).by_dir@[page.parent_dir@].dom()
            } else {
                Set::empty()
            }).insert(page_key(page)),
            forall|d: Seq<Seq<char>>|
                d != page.parent_dir@ && #[trigger] old(self).by_dir@.contains_key(d) ==> final(self).by_dir@[d]
                    == old(self).by_dir@[d],
            final(self).section_dirs@.dom() == old(self).section_dirs@.dom().union(
                sections_of(page, child_dirs@),
            ),
    {
        let page_id = PageId::new(page.rel_path.as_str());
        let parent = page.parent_dir.clone_key();
        let ghost key = page_key(page);
        match self.by_dir.find(&parent) {
            Ok(i) => {
                proof {
                    self.by_dir.lemma_at(i as int);
                }
                let mut set = self.by_dir.value_at(i).clone_map();
                set.insert(page_id.clone_key(), ());
                self.by_dir.set_value_at(i, set);
            },
            Err(_) => {
                let mut set: IdSet = SortedMap::new();
                set.insert(page_id.clone_key(), ());
                self.by_dir.insert(parent.clone_key(), set);
            },
        }
        proof {
            assert forall|i: int| 0 <= i < self.by_dir.key_seq().len() implies (#[trigger] self.by_dir.exec_seq()[i]).wf() by {
                self.by_dir.lemma_at(i);
                let k = self.by_dir.key_seq()[i];
                if k != parent@ {
                    assert(old(self).by_dir.exec_map().contains_key(k));
                    assert(old(self).by_dir.key_seq().contains(k));
                    let j = old(self).by_dir.key_seq().index_of(k);
                    old(self).by_dir.lemma_at(j);
                }
            }
        }
        let ghost sections0 = self.section_dirs@.dom();
        let ghost by_dir0 = self.by_dir;
        if page.is_index() {
            self.section_dirs.insert(parent.clone_key(), ());
        }
        let parent_text = parent.to_text();
        let mut i: usize = 0;
        assert(self.section_dirs@.dom() =~= sections0.union(sections_upto(page, child_dirs@, 0)));
        while i < page.file_meta.children.len()
            invariant
                self.pages == old(self).pages,
                self.by_dir == by_dir0,
                self.section_dirs.wf(),
                child_dirs@.len() == page.file_meta.children@.len(),
                i <= child_dirs@.len(),
                parent_text@ == join_comps(page.parent_dir@),
                parent@ == page.parent_dir@,
                self.section_dirs@.dom() == sections0.union(sections_upto(page, child_dirs@, i as int)),
            decreases child_dirs@.len() - i,
        {
            if child_dirs[i] {
                let joined = join_path(parent_text.as_str(), page.file_meta.children[i].as_str());
                let section = PathKey::from_str(joined.as_str());
                assert(section@ == child_section(page, i as int));
                self.section_dirs.insert(section, ());
            }
            assert(self.section_dirs@.dom() =~= sections0.union(sections_upto(page, child_dirs@, i + 1))) by {
                assert forall|d: Seq<Seq<char>>| sections_upto(page, child_dirs@, i + 1).contains(d) implies (
                    sections_upto(page, child_dirs@, i as int).contains(d) || (child_dirs@[i as int] && d
                        == child_section(page, i as int))) by {
                    if !(page.spec_is_index() && d == page.parent_dir@) {
                        let j = choose|j: int| 0 <= j < i + 1 && child_dirs@[j] && #[trigger] child_section(page, j) == d;
                        if j < i {
                            assert(sections_upto(page, child_dirs@, i as int).contains(d));
                        }
                    }
                }
            }
            i = i + 1;
        }
        assert(self.section_dirs@.dom() =~= old(self).section_dirs@.dom().union(sections_of(page, child_dirs@)));
        let ghost pages_before = self.pages.exec_map();
        self.pages.insert(page_id, page);
        proof {
            assert forall|i: int| 0 <= i < self.pages.key_seq().len() implies (#[trigger] self.pages.exec_seq()[i]).wf() by {
                self.pages.lemma_at(i);
                let k = self.pages.key_seq()[i];
                if k != key {
                    assert(old(self).pages.exec_map().contains_key(k));
                    assert(old(self).pages.key_seq().contains(k));
                    let j = old(self).pages.key_seq().index_of(k);
                    old(self).pages.lemma_at(j);
                }
            }
        }
    }
}

impl SiteBuilder {
    pub open spec fn wf(&self) -> bool {
        self.page_registry.wf() && self.static_registry.wf()
    }

    /// The pages, by identifier.
    pub open spec fn page_map(&self) -> Map<Seq<char>, PageSource> {
        self.page_registry.pages.exec_map()
    }

    /// The page identifiers, in order.
    pub open spec fn id_seq(&self) -> Seq<Seq<char>> {
        self.page_registry.pages.key_seq()
    }

    /// The pages, in identifier order.
    pub open spec fn page_seq(&self) -> Seq<PageSource> {
        self.page_registry.pages.exec_seq()
    }

    /// An empty site for the content directory `content_dir`.
    pub fn new(content_dir: &str) -> (r: Self)
        ensures
            r.wf(),
            r.content_dir@ == content_dir@,
            r.page_map() == Map::<Seq<char>, PageSource>::empty(),
            r.id_seq() == Seq::<Seq<char>>::empty(),
    {
        SiteBuilder {
            content_dir: content_dir.to_owned(),
            page_registry: PageRegistry::new(),
            static_registry: StaticFileRegistry::new(),
        }
    }

    /// The file name of `p` starts with a dot.
    pub fn is_hidden(p: &str) -> (b: bool)
        ensures
            b == spec_is_hidden(p@),
    {
        let comps = PathKey::from_str(p);
        match comps.file_name() {
            Some(n) => {
                let v = chars_of(n.as_str());
                v.len() > 0 && v[0] == '.'
            },
            None => false,
        }
    }

    /// The extension of `p` is `md`.
    pub fn is_markdown(p: &str) -> (b: bool)
        ensures
            b == spec_is_markdown(p@),
    {
        let comps = PathKey::from_str(p);
        match comps.file_name() {
            Some(n) => match name_extension(n.as_str()) {
                Some(e) => {
                    proof {
                        reveal_strlit("md");
                    }
                    let b = crate::text::str_equal(e.as_str(), "md");
                    assert("md"@ =~= seq!['m', 'd']);
                    b
                },
                None => false,
            },
            None => false,
        }
    }

    /// What to do with a file of the content directory: hidden files are left out,
    /// Markdown files are pages, anything else is copied as it is.
    pub fn classify(p: &str) -> (a: FileAction)
        ensures
            a == (if spec_is_hidden(p@) {
                FileAction::Skip
            } else if spec_is_markdown(p@) {
                FileAction::Page
            } else {
                FileAction::Static
            }),
    {
        if Self::is_hidden(p) {
            FileAction::Skip
        } else if Self::is_markdown(p) {
            FileAction::Page
        } else {
            FileAction::Static
        }
    }

    /// The pages registered so far, by identifier.
    pub fn pages(&self) -> (r: &SortedMap<PageId, PageSource>)
        ensures
            *r == self.page_registry.pages,
    {
        &self.page_registry.pages
    }

    /// The same map, under the name the dependency graph uses.
    pub fn get_pages(&self) -> (r: &SortedMap<PageId, PageSource>)
        ensures
            *r == self.page_registry.pages,
    {
        &self.page_registry.pages
    }

    /// The page at position `i` (in identifier order), to change in place.
    pub fn page_mut_at(&mut self, i: usize) -> (r: &mut PageSource)
        requires
            i < old(self).id_seq().len(),
        ensures
            *r == old(self).page_seq()[i as int],
            final(self).page_registry.pages.key_seq() == old(self).page_registry.pages.key_seq(),
            final(self).page_registry.pages.exec_seq() == old(self).page_registry.pages.exec_seq().update(i as int, *final(r)),
            final(self).page_registry.pages.value_seq() == old(self).page_registry.pages.value_seq().update(i as int, *final(r)),
            final(self).page_registry.by_dir == old(self).page_registry.by_dir,
            final(self).page_registry.section_dirs == old(self).page_registry.section_dirs,
            final(self).static_registry == old(self).static_registry,
            final(self).content_dir == old(self).content_dir,
    {
        self.page_registry.pages.value_mut_at(i)
    }

    /// After the page at position `i` is replaced by a well-formed page with the same
    /// identifier, the site is well formed and maps that identifier to the new page.
    pub proof fn lemma_page_replaced(old_site: SiteBuilder, new_site: SiteBuilder, i: int, page: PageSource)
        requires
            old_site.wf(),
            0 <= i < old_site.id_seq().len(),
            page.wf(),
            new_site.page_registry.pages.key_seq() == old_site.page_registry.pages.key_seq(),
            new_site.page_registry.pages.exec_seq() == old_site.page_registry.pages.exec_seq().update(i, page),
            new_site.page_registry.pages.value_seq() == old_site.page_registry.pages.value_seq().update(i, page),
            new_site.page_registry.by_dir == old_site.page_registry.by_dir,
            new_site.page_registry.section_dirs == old_site.page_registry.section_dirs,
            new_site.static_registry == old_site.static_registry,
        ensures
            new_site.wf(),
            new_site.page_map() == old_site.page_map().insert(old_site.id_seq()[i], page),
            new_site.page_registry.pages@ == old_site.page_registry.pages@.insert(old_site.id_seq()[i], page),
    {
        SortedMap::lemma_update_at(old_site.page_registry.pages, new_site.page_registry.pages, i, page);
        assert forall|j: int| 0 <= j < new_site.page_registry.pages.key_seq().len() implies (#[trigger] new_site.page_registry.pages.exec_seq()[j]).wf() by {
            if j != i {
                assert(new_site.page_registry.pages.exec_seq()[j] == old_site.page_registry.pages.exec_seq()[j]);
            }
        }
    }

    /// Registers a page (see `PageRegistry::push_page`).
    pub fn push_page(&mut self, page: PageSource, child_dirs: &Vec<bool>)
        requires
            old(self).wf(),
            page.wf(),
            child_dirs@.len() == page.file_meta.children@.len(),
        ensures
            final(self).wf(),
            final(self).page_map() == old(self).page_map().insert(page_key(page), page),
            final(self).content_dir == old(self).content_dir,
    {
        self.page_registry.push_page(page, child_dirs);
    }

    /// Registers a static file (see `StaticFileRegistry::push_static`).
    pub fn push_static(&mut self, path: &str, prefix: &str, bytes: &[u8]) -> (r: Result<(), String>)
        requires
            old(self).wf(),
        ensures
            final(self).wf(),
            final(self).page_registry == old(self).page_registry,
            final(self).content_dir == old(self).content_dir,
            (r is Ok) == (spec_strip_prefix(path@, prefix@) is Some),
            r is Ok ==> final(self).static_registry.files@ == old(self).static_registry.files@.insert(
                spec_path_components(path@),
                (path@, spec_strip_prefix(path@, prefix@)->0),
            ),
            r is Err ==> final(self).static_registry == old(self).static_registry,
    {
        self.static_registry.push_static(path, prefix, bytes)
    }

    /// Where a registered static file goes under `out_path`.
    pub fn copy_static(&self, absolute_path: &str, out_path: &str) -> (r: Result<String, String>)
        requires
            self.wf(),
        ensures
            match self.static_registry.files@.get(spec_path_components(absolute_path@)) {
                Some(f) => r matches Ok(t) && t@ == spec_join(out_path@, f.1),
                None => r is Err,
            },
    {
        self.static_registry.copy_static(absolute_path, out_path)
    }

    /// All static files with where they go under `out_path`, in path order.
    pub fn copy_all(&self, out_path: &str) -> (r: Vec<(String, String)>)
        requires
            self.wf(),
        ensures
            r@.len() == self.static_registry.files.key_seq().len(),
            forall|i: int|
                0 <= i < r@.len() ==> (#[trigger] r@[i]).0@ == self.static_registry.files.value_seq()[i].0
                    && r@[i].1@ == spec_join(out_path@, self.static_registry.files.value_seq()[i].1),
    {
        self.static_registry.copy_all(out_path)
    }

    /// The pages under `root` (their paths start there), except the index page of `root`
    /// itself, in identifier order, each with the segments of its directory.
    pub fn under_root(&self, root: &PathKey) -> (r: Vec<(PageId, Vec<String>)>)
        requires
            self.wf(),
        ensures
            r@.len() == under_root_upto(self.id_seq(), self.page_seq(), root@, self.id_seq().len() as int).len(),
            forall|i: int| 0 <= i < r@.len() ==> (#[trigger] r@[i]).0@ == under_root_upto(self.id_seq(), self.page_seq(), root@, self.id_seq().len() as int)[i].0
                && r@[i].1.deep_view() == under_root_upto(self.id_seq(), self.page_seq(), root@, self.id_seq().len() as int)[i].1,
    {
        let pages = &self.page_registry.pages;
        let mut out: Vec<(PageId, Vec<String>)> = Vec::new();
        let mut i: usize = 0;
        while i < pages.len()
            invariant
                pages.wf(),
                i <= pages.key_seq().len(),
                pages.key_seq() == self.id_seq(),
                pages.exec_seq() == self.page_seq(),
                out@.len() == under_root_upto(self.id_seq(), self.page_seq(), root@, i as int).len(),
                forall|j: int| 0 <= j < out@.len() ==> (#[trigger] out@[j]).0@ == under_root_upto(self.id_seq(), self.page_seq(), root@, i as int)[j].0
                    && out@[j].1.deep_view() == under_root_upto(self.id_seq(), self.page_seq(), root@, i as int)[j].1,
            decreases pages.key_seq().len() - i,
        {
            let src = pages.value_at(i);
            if src.rel_comps.starts_with(root) {
                let is_root_index = src.is_index() && src.parent_dir.same_as(root);
                if !is_root_index {
                    let segs = named_segments(&src.parent_dir);
                    out.push((pages.key_at(i).clone_key(), segs));
                }
            }
            i = i + 1;
        }
        out
    }
}

/// The components of a path that are neither empty nor `.`.
fn named_segments(p: &PathKey) -> (r: Vec<String>)
    ensures
        r.deep_view() == named_comps(p@, p@.len() as int),
{
    let mut r: Vec<String> = Vec::new();
    let mut i: usize = 0;
    while i < p.comps.len()
        invariant
            i <= p@.len(),
            r.deep_view() == named_comps(p@, i as int),
        decreases p.comps.len() - i,
    {
        let c = &p.comps[i];
        let v = chars_of(c.as_str());
        let is_cur = v.len() == 1 && v[0] == '.';
        if is_cur {
            assert(v@ =~= cur_comp());
        }
        if v.len() > 0 && !is_cur {
            let ghost before = r.deep_view();
            let cc = c.clone();
            r.push(cc);
            assert(r.deep_view() =~= before.push(cc@));
        }
        i = i + 1;
    }
    r
}

/// What rendering needs once the pages are processed: the site metadata with its
/// navigation, each page's breadcrumbs, and each page's URL.
pub struct SitePlan {
    pub site_meta: SiteMeta,
    pub breadcrumbs: SortedMap<PageId, Vec<NavNode>>,
    pub urls: SortedMap<PageId, String>,
}

/// Builds the dependency graph of the collected pages (dangling child references become
/// warnings in `errors`), fails when `errors` holds any error, processes the pages, and
/// computes the navigation, breadcrumbs and URLs that rendering needs.
pub fn build_site(builder: &mut SiteBuilder, site_meta: SiteMeta, errors: &mut ErrorCollector) -> (r: Result<SitePlan, String>)
    requires
        old(builder).wf(),
    ensures
        final(builder).wf(),
        final(errors).errors_seq() == old(errors).errors_seq(),
        warned(final(errors).warnings_seq(), old(errors).warnings_seq(), missing_upto(*old(builder), old(builder).id_seq().len() as int)),
        old(errors).errors_seq().len() > 0 ==> (r matches Err(m) && m@ == decimal(old(errors).errors_seq().len() as nat)
            + " error(s) occurred"@ && *final(builder) == *old(builder)),
        old(errors).errors_seq().len() == 0 ==> exists|g: Graph, o: Seq<Seq<char>>| {
            &&& #[trigger] built_from(g, *old(builder))
            &&& #[trigger] is_order(g, *old(builder), o)
            &&& processed_in_order(*old(builder), g, o, *final(builder), unit_result(r))
            &&& r matches Ok(plan) ==> {
                &&& nav_models(plan.site_meta.navigation@) == nav_of_roots(*final(builder), root_ids(*final(builder), g), root_ids(*final(builder), g).len() as int)
                &&& opt_str(plan.site_meta.default_template) == opt_str(site_meta.default_template)
                &&& plan.site_meta.extra@ == site_meta.extra@
                &&& plan.breadcrumbs.wf()
                &&& plan.breadcrumbs@.dom() == final(builder).page_registry.pages@.dom()
                &&& forall|x: Seq<char>| #[trigger] final(builder).page_map().contains_key(x) ==> crumbs_view(plan.breadcrumbs)[x]
                    == breadcrumbs_of(*final(builder), g, x)
                &&& plan.urls.wf()
                &&& forall|x: Seq<char>| #[trigger] plan.urls@.contains_key(x) <==> (final(builder).page_map().contains_key(x) && final(builder).page_map()[x].page_meta is Some)
                &&& forall|x: Seq<char>| #[trigger] plan.urls@.contains_key(x) ==> plan.urls@[x] == final(builder).page_map()[x].page_meta->0.url@
            }
        },
{
    let ghost site = *builder;
    let mut processor = match Processor::new(builder, errors) {
        Ok(p) => p,
        Err(e) => {
            return Err(e);
        },
    };
    let ghost g = processor@;
    match errors.check() {
        Ok(()) => {},
        Err(e) => {
            return Err(e);
        },
    }
    let res = processor.process(builder);
    match res {
        Ok(()) => {},
        Err(e) => {
            return Err(e);
        },
    }
    let mut site_meta = site_meta;
    site_meta.navigation = match processor.build_navigation(builder) {
        Ok(n) => n,
        Err(e) => {
            return Err(e);
        },
    };
    let breadcrumbs = match processor.compute_breadcrumbs(builder) {
        Ok(b) => b,
        Err(e) => {
            return Err(e);
        },
    };
    let urls = collect_urls(builder);
    Ok(SitePlan { site_meta, breadcrumbs, urls })
}

} // verus!
