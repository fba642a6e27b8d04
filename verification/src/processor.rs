use vstd::prelude::*;
use crate::error::ErrorCollector;
use crate::graph::{Graph, built_from, seg_map, ids_of, rebuilt, parent_ids, kahn_queue};
use crate::models::{PageMeta, PageMetaModel, PageSource, FileMeta, opt_str, clone_strings, keep_existing, patch_of, patch_decodes, patch_extra, patch_template, patch_publish, meta_wf, first_bad_field, field_error};
use crate::page_id::{PageId, page_id_debug};
use crate::site_builder::SiteBuilder;
use crate::sorted_map::{SortedMap, OrdKey};
use crate::text::concat_str;
use crate::yaml::{YamlModel, model_as_i64};
use crate::models::{NavNode, NavModel};
use crate::path::spec_without_extension;

verus! {

/// What pulldown-cmark renders for a Markdown text, with all its extensions on.
pub uninterp spec fn spec_markdown_html(markdown: Seq<char>) -> Seq<char>;

/// Trusted: renders Markdown with `pulldown_cmark::Parser::new_ext` (all options) and
/// `pulldown_cmark::html::push_html`; the HTML is named, not described.
#[verifier::external_body]
fn render_markdown_to_html(markdown: &str) -> (r: String)
    ensures
        r@ == spec_markdown_html(markdown@),
{
    let parser = pulldown_cmark::Parser::new_ext(markdown, pulldown_cmark::Options::all());
    let mut html = String::new();
    pulldown_cmark::html::push_html(&mut html, parser);
    html
}

/// The segments, each followed by `/`.
pub open spec fn segs_text(segs: Seq<Seq<char>>) -> Seq<char>
    decreases segs.len(),
{
    if segs.len() == 0 {
        Seq::empty()
    } else {
        segs_text(segs.drop_last()) + segs.last() + seq!['/']
    }
}

/// The URL of a page: `/`, its segments each followed by `/`, then `stem.html`, except
/// for the root index page, whose URL is `/`.
pub open spec fn page_url(segs: Seq<Seq<char>>, stem: Seq<char>) -> Seq<char> {
    seq!['/'] + segs_text(segs) + if stem == seq!['i', 'n', 'd', 'e', 'x'] && segs.len() == 0 {
        Seq::<char>::empty()
    } else {
        stem + seq!['.', 'h', 't', 'm', 'l']
    }
}

/// The segments the graph records for `id`; none when it has no entry.
pub open spec fn graph_segments(g: Graph, id: Seq<char>) -> Seq<Seq<char>> {
    if seg_map(g.path_segments).contains_key(id) {
        seg_map(g.path_segments)[id]
    } else {
        Seq::empty()
    }
}

/// The message for a page that is not in the site.
pub open spec fn page_not_found(id: Seq<char>) -> Seq<char> {
    "Page not found: "@ + page_id_debug(id)
}

/// The message for a parent page that is not in the site.
pub open spec fn parent_not_found(id: Seq<char>) -> Seq<char> {
    "Parent page not found: "@ + page_id_debug(id)
}

/// The front matter fields that parents can fill in.
pub struct Fields {
    pub template: Option<Seq<char>>,
    pub publish: Option<bool>,
    pub extra: Map<Seq<char>, YamlModel>,
}

pub open spec fn fields_of(fm: FileMeta) -> Fields {
    Fields { template: opt_str(fm.template), publish: fm.publish, extra: fm.extra@ }
}

/// The fields after taking on a parent's attributes (see `FileMeta::append`).
pub open spec fn append_fields(f: Fields, patch: Map<Seq<char>, YamlModel>) -> Fields {
    Fields {
        template: if f.template is Some { f.template } else { patch_template(patch) },
        publish: if f.publish is Some { f.publish } else { patch_publish(patch) },
        extra: keep_existing(f.extra, patch_extra(patch)),
    }
}

/// How taking on the attributes of the first `n` parents goes.
pub enum Inherit {
    /// Done; the page's fields are now these.
    Done(Fields),
    /// This parent is not in the site; the fields taken on so far.
    ParentMissing(Seq<char>, Fields),
    /// The page itself is not in the site.
    PageMissing,
    /// This parent's attributes do not read as front matter; the fields taken on so far.
    BadAttrs(Seq<char>, Fields),
}

/// `k` is the first field among the attributes parent `p` hands down that does not read.
pub open spec fn first_bad_from(site: SiteBuilder, p: Seq<char>, k: Seq<char>) -> bool {
    let a = site.page_map()[p].file_meta.children_attrs;
    first_bad_field(a.key_seq(), a.value_seq(), k)
}

/// The attributes parent `p` hands down, as its children see them.
pub open spec fn patch_from(site: SiteBuilder, p: Seq<char>) -> Map<Seq<char>, YamlModel> {
    patch_of(site.page_map()[p].file_meta.children_attrs)
}

/// Page `id` takes on the attributes of its parents `parents`, one after the other.
pub open spec fn inherit(site: SiteBuilder, id: Seq<char>, parents: Seq<Seq<char>>, n: int) -> Inherit
    decreases n,
{
    if n <= 0 {
        Inherit::Done(
            if site.page_map().contains_key(id) {
                fields_of(site.page_map()[id].file_meta)
            } else {
                Fields { template: None, publish: None, extra: Map::empty() }
            },
        )
    } else {
        match inherit(site, id, parents, n - 1) {
            Inherit::Done(f) => {
                let p = parents[n - 1];
                if !site.page_map().contains_key(p) {
                    Inherit::ParentMissing(p, f)
                } else if !site.page_map().contains_key(id) {
                    Inherit::PageMissing
                } else if patch_decodes(patch_from(site, p)) {
                    Inherit::Done(append_fields(f, patch_from(site, p)))
                } else {
                    Inherit::BadAttrs(p, f)
                }
            },
            other => other,
        }
    }
}


/// The fields a page has once inheriting stops.
pub open spec fn fields_at(res: Inherit) -> Fields {
    match res {
        Inherit::Done(f) => f,
        Inherit::ParentMissing(_, f) => f,
        Inherit::BadAttrs(_, f) => f,
        Inherit::PageMissing => Fields { template: None, publish: None, extra: Map::empty() },
    }
}


/// Inheriting stops at bad attributes only of a parent in the site.
proof fn lemma_bad_attrs_parent(site: SiteBuilder, id: Seq<char>, parents: Seq<Seq<char>>, n: int)
    ensures
        inherit(site, id, parents, n) matches Inherit::BadAttrs(p, f) ==> site.page_map().contains_key(p),
    decreases n,
{
    if n > 0 {
        lemma_bad_attrs_parent(site, id, parents, n - 1);
    }
}

/// Once inheriting stops, taking more parents changes nothing.
pub proof fn lemma_inherit_stops(site: SiteBuilder, id: Seq<char>, parents: Seq<Seq<char>>, n: int)
    requires
        0 <= n <= parents.len(),
        !(inherit(site, id, parents, n) is Done),
    ensures
        inherit(site, id, parents, parents.len() as int) == inherit(site, id, parents, n),
    decreases parents.len() - n,
{
    if n < parents.len() {
        assert(inherit(site, id, parents, n + 1) == inherit(site, id, parents, n));
        lemma_inherit_stops(site, id, parents, n + 1);
    }
}

/// The outcome of page `id` taking on all its parents' attributes.
pub open spec fn inherited(site: SiteBuilder, g: Graph, id: Seq<char>) -> Inherit {
    inherit(site, id, parent_ids(g, id), parent_ids(g, id).len() as int)
}

/// `b` is page `a` with its fillable fields set to `f`.
pub open spec fn with_fields(a: PageSource, b: PageSource, f: Fields) -> bool {
    &&& b.abs_path == a.abs_path
    &&& b.rel_path == a.rel_path
    &&& b.rel_comps == a.rel_comps
    &&& b.parent_dir == a.parent_dir
    &&& b.stem == a.stem
    &&& b.content == a.content
    &&& b.hash == a.hash
    &&& b.page_meta == a.page_meta
    &&& b.file_meta.title == a.file_meta.title
    &&& b.file_meta.children == a.file_meta.children
    &&& b.file_meta.children_attrs == a.file_meta.children_attrs
    &&& fields_of(b.file_meta) == f
    &&& b.wf()
}

/// `b` is `a` with only the page `id` changed.
pub open spec fn only_page_changed(a: SiteBuilder, b: SiteBuilder, id: Seq<char>) -> bool {
    &&& b.wf()
    &&& b.content_dir == a.content_dir
    &&& b.page_registry.by_dir == a.page_registry.by_dir
    &&& b.page_registry.section_dirs == a.page_registry.section_dirs
    &&& b.static_registry == a.static_registry
    &&& b.page_registry.pages.key_seq() == a.page_registry.pages.key_seq()
    &&& b.page_map().dom() == a.page_map().dom()
    &&& forall|x: Seq<char>| x != id && #[trigger] a.page_map().contains_key(x) ==> b.page_map()[x] == a.page_map()[x]
}

/// The metadata a page starts with: its fields as inherited, its stem, segments, URL and
/// identifier, given children and HTML.
pub open spec fn meta_of(
    page: PageSource,
    f: Fields,
    id: Seq<char>,
    segs: Seq<Seq<char>>,
    children: Seq<PageMetaModel>,
    html: Seq<char>,
) -> PageMetaModel {
    PageMetaModel {
        title: page.file_meta.title@,
        stem: page.stem@,
        template: f.template,
        publish: match f.publish {
            Some(b) => b,
            None => true,
        },
        id: id,
        children: children,
        path_segments: segs,
        html_content: html,
        url: page_url(segs, page.stem@),
        extra: f.extra,
    }
}


/// The models of a list of metadata.
pub open spec fn metas_model(v: Seq<PageMeta>) -> Seq<PageMetaModel> {
    Seq::new(v.len(), |i: int| v[i]@)
}

/// The children metadata gathered so far for page `p`.
pub open spec fn kids_in(cm: SortedMap<PageId, Vec<PageMeta>>, p: Seq<char>) -> Seq<PageMetaModel> {
    if cm.exec_map().contains_key(p) {
        metas_model(cm.exec_map()[p]@)
    } else {
        Seq::empty()
    }
}

/// The gathered children metadata is well formed.
pub open spec fn cm_wf(cm: SortedMap<PageId, Vec<PageMeta>>) -> bool {
    &&& cm.wf()
    &&& forall|p: Seq<char>, i: int| #[trigger] cm.exec_map().contains_key(p) && 0 <= i < cm.exec_map()[p]@.len()
        ==> meta_wf(#[trigger] cm.exec_map()[p]@[i])
}

/// `b` is page `a` processed: fields set to `f` and metadata `m` stored.
pub open spec fn processed_page(a: PageSource, b: PageSource, f: Fields, m: PageMetaModel) -> bool {
    &&& b.abs_path == a.abs_path
    &&& b.rel_path == a.rel_path
    &&& b.rel_comps == a.rel_comps
    &&& b.parent_dir == a.parent_dir
    &&& b.stem == a.stem
    &&& b.content == a.content
    &&& b.hash == a.hash
    &&& b.file_meta.title == a.file_meta.title
    &&& b.file_meta.children == a.file_meta.children
    &&& b.file_meta.children_attrs == a.file_meta.children_attrs
    &&& fields_of(b.file_meta) == f
    &&& b.page_meta matches Some(pm) && pm@ == m
    &&& b.wf()
}

/// Adds `meta` to the children gathered for `p`.
fn push_child(cm: &mut SortedMap<PageId, Vec<PageMeta>>, p: &PageId, meta: PageMeta)
    requires
        cm_wf(*old(cm)),
        meta.wf(),
    ensures
        cm_wf(*final(cm)),
        forall|x: Seq<char>| #[trigger] kids_in(*final(cm), x) == if x == p@ {
            kids_in(*old(cm), x).push(meta@)
        } else {
            kids_in(*old(cm), x)
        },
{
    proof {
        cm.lemma_exec_map();
    }
    let ghost mv = meta@;
    match cm.find(p) {
        Ok(k) => {
            proof {
                cm.lemma_at(k as int);
            }
            let ghost before = *cm;
            let v = cm.value_mut_at(k);
            let ghost v0 = *v;
            v.push(meta);
            let ghost v1 = *v;
            proof {
                SortedMap::lemma_update_at(before, *cm, k as int, v1);
                assert(metas_model(v1@) =~= metas_model(v0@).push(mv));
                assert forall|x: Seq<char>, i: int| #[trigger] cm.exec_map().contains_key(x) && 0 <= i < cm.exec_map()[x]@.len()
                    implies meta_wf(#[trigger] cm.exec_map()[x]@[i]) by {
                    if x == p@ && i < v0@.len() {
                        assert(cm.exec_map()[x]@[i] == v0@[i]);
                    }
                }
            }
        },
        Err(_) => {
            let mut v: Vec<PageMeta> = Vec::new();
            v.push(meta);
            let ghost v1 = v;
            cm.insert(p.clone_key(), v);
            proof {
                assert(metas_model(v1@) =~= Seq::<PageMetaModel>::empty().push(mv));
            }
        },
    }
}


/// The metadata that processing gives the `i`-th page of the order `o`.
pub open spec fn pmeta(site: SiteBuilder, g: Graph, o: Seq<Seq<char>>, i: int) -> PageMetaModel
    decreases i, 1int,
{
    let x = o[i];
    let page = site.page_map()[x];
    meta_of(
        page,
        fields_at(inherited(site, g, x)),
        x,
        graph_segments(g, x),
        kids(site, g, o, x, i),
        spec_markdown_html(page.content@),
    )
}

/// The metadata of the pages among the first `n` of the order `o` that have `p` as a
/// parent, in order: the children `p` has gathered by then.
pub open spec fn kids(site: SiteBuilder, g: Graph, o: Seq<Seq<char>>, p: Seq<char>, n: int) -> Seq<PageMetaModel>
    decreases n, 0int,
{
    if n <= 0 {
        Seq::empty()
    } else if parent_ids(g, o[n - 1]).contains(p) {
        kids(site, g, o, p, n - 1).push(pmeta(site, g, o, n - 1))
    } else {
        kids(site, g, o, p, n - 1)
    }
}

/// One step of processing in order: page `o[k]` processed from `b0` into `b1`, with
/// the children gathered from `cm0` into `cm1`, extends what holds of the first `k` pages
/// to the first `k + 1`.
proof fn lemma_process_step(
    site: SiteBuilder,
    g: Graph,
    o: Seq<Seq<char>>,
    k: int,
    b0: SiteBuilder,
    b1: SiteBuilder,
    cm0: SortedMap<PageId, Vec<PageMeta>>,
    cm1: SortedMap<PageId, Vec<PageMeta>>,
)
    requires
        o.no_duplicates(),
        0 <= k < o.len(),
        b0.page_map().dom() == site.page_map().dom(),
        forall|j: int| 0 <= j < k ==> step_ok(site, g, #[trigger] o[j]),
        forall|j: int| 0 <= j < k ==> processed_page(
            site.page_map()[#[trigger] o[j]],
            b0.page_map()[o[j]],
            fields_at(inherited(site, g, o[j])),
            pmeta(site, g, o, j),
        ),
        forall|x: Seq<char>| #[trigger] site.page_map().contains_key(x) && !o.take(k).contains(x)
            ==> b0.page_map()[x] == site.page_map()[x],
        forall|p: Seq<char>| #[trigger] kids_in(cm0, p) == kids(site, g, o, p, k),
        site.page_map().contains_key(o[k]),
        inherited(site, g, o[k]) == inherited(b0, g, o[k]),
        only_page_changed(b0, b1, o[k]),
        processed_page(
            b0.page_map()[o[k]],
            b1.page_map()[o[k]],
            fields_at(inherited(b0, g, o[k])),
            meta_of(
                b0.page_map()[o[k]],
                fields_at(inherited(b0, g, o[k])),
                o[k],
                graph_segments(g, o[k]),
                kids_in(cm0, o[k]),
                spec_markdown_html(b0.page_map()[o[k]].content@),
            ),
        ),
        forall|x: Seq<char>| #[trigger] kids_in(cm1, x) == if parent_ids(g, o[k]).contains(x) {
            kids_in(cm0, x).push(meta_of(
                b0.page_map()[o[k]],
                fields_at(inherited(b0, g, o[k])),
                o[k],
                graph_segments(g, o[k]),
                kids_in(cm0, o[k]),
                spec_markdown_html(b0.page_map()[o[k]].content@),
            ))
        } else {
            kids_in(cm0, x)
        },
    ensures
        b1.page_map().dom() == site.page_map().dom(),
        forall|j: int| 0 <= j < k + 1 ==> processed_page(
            site.page_map()[#[trigger] o[j]],
            b1.page_map()[o[j]],
            fields_at(inherited(site, g, o[j])),
            pmeta(site, g, o, j),
        ),
        forall|x: Seq<char>| #[trigger] site.page_map().contains_key(x) && !o.take(k + 1).contains(x)
            ==> b1.page_map()[x] == site.page_map()[x],
        forall|p: Seq<char>| #[trigger] kids_in(cm1, p) == kids(site, g, o, p, k + 1),
{
    let x = o[k];
    let k1 = k + 1;
    assert(!o.take(k).contains(x)) by {
        if o.take(k).contains(x) {
            let n = choose|n: int| 0 <= n < k && o.take(k)[n] == x;
            assert(o[n] == o[k]);
        }
    }
    assert(o.take(k1) =~= o.take(k).push(x));
    assert(b0.page_map()[x] == site.page_map()[x]);
    assert(pmeta(site, g, o, k) == meta_of(
        b0.page_map()[x],
        fields_at(inherited(b0, g, x)),
        x,
        graph_segments(g, x),
        kids_in(cm0, x),
        spec_markdown_html(b0.page_map()[x].content@),
    ));
    assert forall|j: int| 0 <= j < k1 implies processed_page(
        site.page_map()[#[trigger] o[j]],
        b1.page_map()[o[j]],
        fields_at(inherited(site, g, o[j])),
        pmeta(site, g, o, j),
    ) by {
        if j < k {
            assert(o[j] != x);
            assert(b1.page_map()[o[j]] == b0.page_map()[o[j]]);
        }
    }
    assert forall|y: Seq<char>| #[trigger] site.page_map().contains_key(y) && !o.take(k1).contains(y)
        implies b1.page_map()[y] == site.page_map()[y] by {
        assert(!o.take(k).contains(y));
        assert(o.take(k1)[k] == x);
        assert(y != x);
    }
    assert forall|p: Seq<char>| #[trigger] kids_in(cm1, p) == kids(site, g, o, p, k1) by {
        assert(kids_in(cm0, p) == kids(site, g, o, p, k));
    }
}

/// Page `o[k]` failed to process from `b0` into `b1`: processing in the order `o` stopped
/// there.
proof fn lemma_process_stop(
    site: SiteBuilder,
    g: Graph,
    o: Seq<Seq<char>>,
    k: int,
    b0: SiteBuilder,
    b1: SiteBuilder,
)
    requires
        o.no_duplicates(),
        0 <= k < o.len(),
        b0.page_map().dom() == site.page_map().dom(),
        forall|j: int| 0 <= j < k ==> step_ok(site, g, #[trigger] o[j]),
        forall|j: int| 0 <= j < k ==> processed_page(
            site.page_map()[#[trigger] o[j]],
            b0.page_map()[o[j]],
            fields_at(inherited(site, g, o[j])),
            pmeta(site, g, o, j),
        ),
        forall|x: Seq<char>| #[trigger] site.page_map().contains_key(x) && !o.take(k).contains(x)
            ==> b0.page_map()[x] == site.page_map()[x],
        inherited(site, g, o[k]) == inherited(b0, g, o[k]),
        b0.page_map().contains_key(o[k]) ==> {
            &&& only_page_changed(b0, b1, o[k])
            &&& with_fields(b0.page_map()[o[k]], b1.page_map()[o[k]], fields_at(inherited(b0, g, o[k])))
        },
        !b0.page_map().contains_key(o[k]) ==> b1 == b0,
    ensures
        stopped_at(site, g, o, k, b1),
{
    let x = o[k];
    assert(!o.take(k).contains(x)) by {
        if o.take(k).contains(x) {
            let n = choose|n: int| 0 <= n < k && o.take(k)[n] == x;
            assert(o[n] == o[k]);
        }
    }
    assert(o.take(k + 1) =~= o.take(k).push(x));
    if site.page_map().contains_key(x) {
        assert(b0.page_map()[x] == site.page_map()[x]);
    }
    assert forall|j: int| 0 <= j < k implies processed_page(
        site.page_map()[#[trigger] o[j]],
        b1.page_map()[o[j]],
        fields_at(inherited(site, g, o[j])),
        pmeta(site, g, o, j),
    ) by {
        assert(o[j] != x);
        assert(step_ok(site, g, o[j]));
    }
    assert forall|y: Seq<char>| #[trigger] site.page_map().contains_key(y) && !o.take(k + 1).contains(y)
        implies b1.page_map()[y] == site.page_map()[y] by {
        assert(!o.take(k).contains(y));
        assert(o.take(k + 1)[k] == x);
        assert(y != x);
    }
}

/// Processing page `x` succeeds.
pub open spec fn step_ok(site: SiteBuilder, g: Graph, x: Seq<char>) -> bool {
    inherited(site, g, x) is Done && site.page_map().contains_key(x)
}

/// `m` is the error that processing page `x` fails with.
pub open spec fn step_error(site: SiteBuilder, g: Graph, x: Seq<char>, m: Seq<char>) -> bool {
    match inherited(site, g, x) {
        Inherit::ParentMissing(p, f) => m == parent_not_found(p),
        Inherit::BadAttrs(p, f) => exists|k: Seq<char>| first_bad_from(site, p, k) && m == field_error(k),
        _ => m == page_not_found(x),
    }
}

/// `o` lists nodes of `g` as `Graph::order` does: each once, children first, exactly
/// those whose children are all listed, and in the order of its queue (the pages without
/// children in identifier order, then, for each listed node in turn, the parents it
/// readies in identifier order).
pub open spec fn is_order(g: Graph, site: SiteBuilder, o: Seq<Seq<char>>) -> bool {
    &&& o.no_duplicates()
    &&& forall|i: int| 0 <= i < o.len() ==> g.children(#[trigger] o[i]).subset_of(o.take(i).to_set())
    &&& forall|x: Seq<char>| #[trigger] o.contains(x) <==> (g.eligible(site, x) && g.children(x).subset_of(o.to_set()))
    &&& o == kahn_queue(g, site, o, o.len() as int)
}

/// Inheriting looks only at which pages exist, the page's own fields and the attributes
/// its parents hand down.
pub proof fn lemma_inherit_same(a: SiteBuilder, b: SiteBuilder, id: Seq<char>, ps: Seq<Seq<char>>, n: int)
    requires
        a.page_map().dom() == b.page_map().dom(),
        a.page_map().contains_key(id) ==> fields_of(b.page_map()[id].file_meta) == fields_of(a.page_map()[id].file_meta),
        forall|p: Seq<char>| #[trigger] a.page_map().contains_key(p) ==> b.page_map()[p].file_meta.children_attrs
            == a.page_map()[p].file_meta.children_attrs,
    ensures
        inherit(a, id, ps, n) == inherit(b, id, ps, n),
    decreases n,
{
    if n > 0 {
        lemma_inherit_same(a, b, id, ps, n - 1);
        let p = ps[n - 1];
        if a.page_map().contains_key(p) {
            assert(patch_from(a, p) == patch_from(b, p));
        }
    }
}


/// Processing in the order `o` stopped at its `k`-th page: the pages before it processed,
/// that page with the fields it had inherited when it failed (when it exists), and every
/// other page as it was.
pub open spec fn stopped_at(site: SiteBuilder, g: Graph, o: Seq<Seq<char>>, k: int, site1: SiteBuilder) -> bool {
    &&& site1.page_map().dom() == site.page_map().dom()
    &&& forall|j: int| 0 <= j < k ==> processed_page(
        site.page_map()[#[trigger] o[j]],
        site1.page_map()[o[j]],
        fields_at(inherited(site, g, o[j])),
        pmeta(site, g, o, j),
    )
    &&& site.page_map().contains_key(o[k]) ==> with_fields(
        site.page_map()[o[k]],
        site1.page_map()[o[k]],
        fields_at(inherited(site, g, o[k])),
    )
    &&& forall|x: Seq<char>| #[trigger] site.page_map().contains_key(x) && !o.take(k + 1).contains(x)
        ==> site1.page_map()[x] == site.page_map()[x]
}

/// Processing the pages of `o` in turn took `site` to `site1` with result `r`: it
/// succeeds exactly when every page does, fails with the error of the first page that
/// fails, and on success each page of `o` holds its metadata while the others are as
/// they were.
pub open spec fn processed_in_order(
    site: SiteBuilder,
    g: Graph,
    o: Seq<Seq<char>>,
    site1: SiteBuilder,
    r: Result<(), String>,
) -> bool {
    &&& (r is Ok <==> forall|i: int| 0 <= i < o.len() ==> step_ok(site, g, #[trigger] o[i]))
    &&& (r matches Err(m) ==> exists|k: int| 0 <= k < o.len() && !step_ok(site, g, #[trigger] o[k])
        && step_error(site, g, o[k], m@) && (forall|j: int| 0 <= j < k ==> step_ok(site, g, #[trigger] o[j]))
        && stopped_at(site, g, o, k, site1))
    &&& (r is Ok ==> {
        &&& site1.page_map().dom() == site.page_map().dom()
        &&& forall|i: int| 0 <= i < o.len() ==> processed_page(
            site.page_map()[#[trigger] o[i]],
            site1.page_map()[o[i]],
            fields_at(inherited(site, g, o[i])),
            pmeta(site, g, o, i),
        )
        &&& forall|x: Seq<char>| #[trigger] site.page_map().contains_key(x) && !o.contains(x)
            ==> site1.page_map()[x] == site.page_map()[x]
    })
}

/// A result without its value.
pub open spec fn unit_result<T>(r: Result<T, String>) -> Result<(), String> {
    match r {
        Ok(_) => Ok(()),
        Err(e) => Err(e),
    }
}


/// The navigation order a page's metadata gives: its `order` attribute when it is an
/// integer that fits in `i64`, cut to `i32`.
pub open spec fn nav_order(m: PageMetaModel) -> Option<i32> {
    if m.extra.contains_key(seq!['o', 'r', 'd', 'e', 'r']) {
        match model_as_i64(m.extra[seq!['o', 'r', 'd', 'e', 'r']]) {
            Some(i) => Some(i as i32),
            None => None,
        }
    } else {
        None
    }
}

/// The page a child reference of the navigation names: the page itself, or else the
/// index page of the directory it names.
pub open spec fn nav_child(site: SiteBuilder, ch: Seq<char>) -> Option<Seq<char>> {
    let a = spec_without_extension(ch);
    let b = spec_without_extension(ch + seq!['/', 'i', 'n', 'd', 'e', 'x']);
    if site.page_map().contains_key(a) {
        Some(a)
    } else if site.page_map().contains_key(b) {
        Some(b)
    } else {
        None
    }
}

/// The navigation entry of page `id`, at most `fuel` levels deep: none for a page that is
/// not processed or not published; otherwise its title, URL and order, with the entries
/// of the pages its child references name.
pub open spec fn nav_tree(site: SiteBuilder, id: Seq<char>, fuel: nat) -> Option<NavModel>
    decreases fuel, 0int,
{
    if fuel == 0 {
        None
    } else {
        let page = site.page_map()[id];
        match page.page_meta {
            None => None,
            Some(m) => if !m.publish {
                None
            } else {
                Some(
                    NavModel {
                        title: m.title@,
                        url: m.url@,
                        children: nav_children(site, page.file_meta.children@, (fuel - 1) as nat, page.file_meta.children@.len() as int),
                        order: nav_order(m@),
                    },
                )
            },
        }
    }
}

/// The entries of the first `n` child references `chs`, skipping those that name no page
/// or give no entry.
pub open spec fn nav_children(site: SiteBuilder, chs: Seq<String>, fuel: nat, n: int) -> Seq<NavModel>
    decreases fuel, n,
{
    if n <= 0 {
        Seq::empty()
    } else {
        let prev = nav_children(site, chs, fuel, n - 1);
        match nav_child(site, chs[n - 1]@) {
            Some(c) => match nav_tree(site, c, fuel) {
                Some(t) => prev.push(t),
                None => prev,
            },
            None => prev,
        }
    }
}

/// How deep navigation goes: one level per page and one more, which no chain of child
/// references without a cycle can exceed.
pub open spec fn nav_depth(site: SiteBuilder) -> nat {
    if site.id_seq().len() < usize::MAX {
        (site.id_seq().len() + 1) as nat
    } else {
        site.id_seq().len()
    }
}

/// The pages without parents, in identifier order.
pub open spec fn root_ids(site: SiteBuilder, g: Graph) -> Seq<Seq<char>> {
    site.id_seq().filter(no_parents(g))
}

/// Whether a node has no parent.
pub open spec fn no_parents(g: Graph) -> spec_fn(Seq<char>) -> bool {
    |x: Seq<char>| g.parents(x).len() == 0
}

/// The navigation entries of the first `n` of the pages `rs`, skipping those without one.
pub open spec fn nav_of_roots(site: SiteBuilder, rs: Seq<Seq<char>>, n: int) -> Seq<NavModel>
    decreases n,
{
    if n <= 0 {
        Seq::empty()
    } else {
        match nav_tree(site, rs[n - 1], nav_depth(site)) {
            Some(t) => nav_of_roots(site, rs, n - 1).push(t),
            None => nav_of_roots(site, rs, n - 1),
        }
    }
}

/// The models of a list of navigation entries.
pub open spec fn nav_models(v: Seq<NavNode>) -> Seq<NavModel> {
    Seq::new(v.len(), |i: int| v[i]@)
}

/// The first parent of `x` in identifier order, if any.
pub open spec fn first_parent(g: Graph, x: Seq<char>) -> Option<Seq<char>> {
    if parent_ids(g, x).len() > 0 {
        Some(parent_ids(g, x)[0])
    } else {
        None
    }
}

/// The breadcrumb entry of page `p`, when it is processed and published.
pub open spec fn crumb_of(site: SiteBuilder, p: Seq<char>) -> Seq<NavModel> {
    if site.page_map().contains_key(p) && (site.page_map()[p].page_meta matches Some(m) && m.publish) {
        let m = site.page_map()[p].page_meta->0;
        seq![NavModel { title: m.title@, url: m.url@, children: Seq::empty(), order: None }]
    } else {
        Seq::empty()
    }
}

/// The breadcrumbs above `x`, nearest first: up through first parents, stopping at a page
/// without parents or at one already passed, at most `fuel` steps.
pub open spec fn crumbs_up(site: SiteBuilder, g: Graph, x: Seq<char>, seen: Set<Seq<char>>, fuel: nat) -> Seq<NavModel>
    decreases fuel,
{
    if fuel == 0 {
        Seq::empty()
    } else {
        match first_parent(g, x) {
            None => Seq::empty(),
            Some(p) => if seen.contains(p) {
                Seq::empty()
            } else {
                crumb_of(site, p) + crumbs_up(site, g, p, seen.insert(p), (fuel - 1) as nat)
            },
        }
    }
}

/// The breadcrumbs of page `x`, from the top down.
pub open spec fn breadcrumbs_of(site: SiteBuilder, g: Graph, x: Seq<char>) -> Seq<NavModel> {
    crumbs_up(site, g, x, Set::empty(), (g.children_of@.dom().len() + 1) as nat).reverse()
}

/// A breadcrumb map kept as models.
pub open spec fn crumbs_view(m: SortedMap<PageId, Vec<NavNode>>) -> Map<Seq<char>, Seq<NavModel>> {
    Map::new(|k: Seq<char>| m@.contains_key(k), |k: Seq<char>| nav_models(m.exec_map()[k]@))
}

/// Orders the processing of pages and computes their metadata.
pub struct Processor {
    graph: Graph,
}

impl View for Processor {
    type V = Graph;

    closed spec fn view(&self) -> Graph {
        self.graph
    }
}

impl Processor {
    /// A processor for the pages of `builder`, with its dependency graph built; child
    /// references that name nothing are reported to `errors` as warnings.
    pub fn new(builder: &SiteBuilder, errors: &mut ErrorCollector) -> (r: Result<Self, String>)
        requires
            builder.wf(),
        ensures
            r matches Ok(p) && built_from(p@, *builder),
            final(errors).errors_seq() == old(errors).errors_seq(),
            crate::graph::warned(
                final(errors).warnings_seq(),
                old(errors).warnings_seq(),
                crate::graph::missing_upto(*builder, builder.id_seq().len() as int),
            ),
    {
        let graph = match Graph::build(builder, errors) {
            Ok(g) => g,
            Err(e) => {
                return Err(e);
            },
        };
        Ok(Processor { graph })
    }

    /// The dependency graph.
    pub fn graph(&self) -> (r: &Graph)
        ensures
            *r == self@,
    {
        &self.graph
    }

    /// Processes every page in dependency order (children before parents): each takes on
    /// its parents' attributes and gets its metadata, with the metadata of its children
    /// and its HTML. Stops at the first page that fails.
    pub fn process(&mut self, builder: &mut SiteBuilder) -> (r: Result<(), String>)
        requires
            old(builder).wf(),
            old(self)@.wf(),
        ensures
            *final(self) == *old(self),
            final(builder).wf(),
            exists|o: Seq<Seq<char>>| #[trigger] is_order(old(self)@, *old(builder), o)
                && processed_in_order(*old(builder), old(self)@, o, *final(builder), r),
    {
        let order = self.graph.order(builder);
        proof {
            assert(is_order(self@, *builder, ids_of(order@)));
        }
        let r = self.process_pages(builder, &order);
        r
    }

    /// Processes the pages of `order`, one after the other, with the children gathered
    /// along the way; stops at the first page that fails.
    #[verifier::rlimit(50)]
    fn process_pages(&mut self, builder: &mut SiteBuilder, order: &Vec<PageId>) -> (r: Result<(), String>)
        requires
            old(builder).wf(),
            old(self)@.wf(),
            ids_of(order@).no_duplicates(),
        ensures
            *final(self) == *old(self),
            final(builder).wf(),
            processed_in_order(*old(builder), old(self)@, ids_of(order@), *final(builder), r),
    {
        let ghost site = *builder;
        let ghost g = self@;
        let ghost o = ids_of(order@);
        let mut children_map: SortedMap<PageId, Vec<PageMeta>> = SortedMap::new();
        let mut k: usize = 0;
        proof {
            assert forall|p: Seq<char>| #[trigger] kids_in(children_map, p) == kids(site, g, o, p, 0) by {
                assert(kids_in(children_map, p) =~= Seq::<PageMetaModel>::empty());
            }
        }
        while k < order.len()
            invariant
                *self == *old(self),
                site == *old(builder),
                self@ == g,
                g.wf(),
                site.wf(),
                o.no_duplicates(),
                o == ids_of(order@),
                k <= o.len(),
                builder.wf(),
                cm_wf(children_map),
                builder.page_map().dom() == site.page_map().dom(),
                forall|j: int| 0 <= j < k ==> step_ok(site, g, #[trigger] o[j]),
                forall|j: int| 0 <= j < k ==> processed_page(
                    site.page_map()[#[trigger] o[j]],
                    builder.page_map()[o[j]],
                    fields_at(inherited(site, g, o[j])),
                    pmeta(site, g, o, j),
                ),
                forall|x: Seq<char>| #[trigger] site.page_map().contains_key(x) && !o.take(k as int).contains(x)
                    ==> builder.page_map()[x] == site.page_map()[x],
                forall|p: Seq<char>| #[trigger] kids_in(children_map, p) == kids(site, g, o, p, k as int),
            decreases o.len() - k,
        {
            let ghost b0 = *builder;
            let ghost cm0 = children_map;
            let ghost x = o[k as int];
            proof {
                assert(!o.take(k as int).contains(x)) by {
                    if o.take(k as int).contains(x) {
                        let n = choose|n: int| 0 <= n < k && o.take(k as int)[n] == x;
                        assert(o[n] == o[k as int]);
                    }
                }
                assert forall|p: Seq<char>| #[trigger] site.page_map().contains_key(p) implies b0.page_map()[p].file_meta.children_attrs
                    == site.page_map()[p].file_meta.children_attrs by {
                    if o.take(k as int).contains(p) {
                        let n = choose|n: int| 0 <= n < k && o.take(k as int)[n] == p;
                        assert(o[n] == p);
                        assert(processed_page(site.page_map()[o[n]], b0.page_map()[o[n]], fields_at(inherited(site, g, o[n])), pmeta(site, g, o, n)));
                    }
                }
                lemma_inherit_same(site, b0, x, parent_ids(g, x), parent_ids(g, x).len() as int);
                assert(inherited(site, g, x) == inherited(b0, g, x));
            }
            match self.process_page(builder, &order[k], &mut children_map) {
                Ok(()) => {},
                Err(e) => {
                    proof {
                        assert(!step_ok(site, g, o[k as int]));
                        lemma_bad_attrs_parent(site, x, parent_ids(g, x), parent_ids(g, x).len() as int);
                        if let Inherit::BadAttrs(p, f) = inherited(site, g, x) {
                            assert(patch_from(site, p) == patch_from(b0, p));
                        }
                        assert(step_error(site, g, o[k as int], e@));
                        lemma_process_stop(site, g, o, k as int, b0, *builder);
                    }
                    return Err(e);
                },
            }
            proof {
                lemma_process_step(site, g, o, k as int, b0, *builder, cm0, children_map);
            }
            k = k + 1;
        }
        proof {
            assert(o.take(k as int) =~= o);
        }
        Ok(())
    }

    /// Rebuilds the dependency edges of page `page_id` after it changed (see
    /// `Graph::rebuild`) and processes it and its ancestors again, children first; returns
    /// them in the order processed.
    pub fn rebuild(&mut self, builder: &mut SiteBuilder, page_id: &PageId) -> (r: Result<Vec<PageId>, String>)
        requires
            old(builder).wf(),
            old(self)@.wf(),
        ensures
            final(builder).wf(),
            exists|gr: Result<Seq<Seq<char>>, Seq<char>>| {
                &&& #[trigger] rebuilt(old(self)@, final(self)@, *old(builder), page_id@, gr)
                &&& match gr {
                    Err(m) => r matches Err(e) && e@ == m && *final(builder) == *old(builder),
                    Ok(o) => {
                        &&& processed_in_order(*old(builder), final(self)@, o, *final(builder), unit_result(r))
                        &&& r matches Ok(v) ==> ids_of(v@) == o
                    },
                }
            },
    {
        let ghost site = *builder;
        let res = self.graph.rebuild(builder, page_id);
        let ghost gr = crate::graph::result_view(res);
        let affected = match res {
            Ok(a) => a,
            Err(e) => {
                proof {
                    assert(rebuilt(old(self)@, self@, site, page_id@, gr));
                }
                return Err(e);
            },
        };
        proof {
            assert(rebuilt(old(self)@, self@, site, page_id@, gr));
            assert(ids_of(affected@).no_duplicates());
        }
        match self.process_pages(builder, &affected) {
            Ok(()) => {
                proof {
                    assert(rebuilt(old(self)@, self@, site, page_id@, gr));
                }
                Ok(affected)
            },
            Err(e) => {
                proof {
                    assert(rebuilt(old(self)@, self@, site, page_id@, gr));
                }
                Err(e)
            },
        }
    }

    /// The navigation entry of page `page_id`, at most `fuel` levels deep (see `nav_tree`).
    fn build_nav_node(&self, builder: &SiteBuilder, page_id: &PageId, fuel: usize) -> (r: Result<Option<NavNode>, String>)
        requires
            builder.wf(),
        ensures
            !builder.page_map().contains_key(page_id@) ==> (r matches Err(m) && m@ == page_not_found(page_id@)),
            builder.page_map().contains_key(page_id@) ==> (r matches Ok(n) && match n {
                Some(node) => nav_tree(*builder, page_id@, fuel as nat) == Some(node@),
                None => nav_tree(*builder, page_id@, fuel as nat) is None,
            }),
        decreases fuel,
    {
        proof {
            builder.page_registry.pages.lemma_exec_map();
        }
        let page = match builder.get_pages().get(page_id) {
            Some(p) => p,
            None => {
                let q = page_id.debug_string();
                let m = concat_str("Page not found: ", q.as_str());
                proof {
                    reveal_strlit("Page not found: ");
                }
                return Err(m);
            },
        };
        if fuel == 0 {
            return Ok(None);
        }
        let meta = match &page.page_meta {
            Some(m) => m,
            None => {
                return Ok(None);
            },
        };
        if !meta.publish {
            return Ok(None);
        }
        proof {
            reveal_strlit("order");
            assert("order"@ =~= seq!['o', 'r', 'd', 'e', 'r']);
        }
        let order: Option<i32> = match meta.extra.get(&"order".to_owned()) {
            Some(v) => match v.as_i64() {
                Some(i) => Some(i as i32),
                None => None,
            },
            None => None,
        };
        let mut children: Vec<NavNode> = Vec::new();
        let chs = &page.file_meta.children;
        let ghost site = *builder;
        let ghost f1 = (fuel - 1) as nat;
        let mut k: usize = 0;
        proof {
            assert(nav_models(children@) =~= nav_children(site, chs@, f1, 0));
        }
        while k < chs.len()
            invariant
                builder.wf(),
                site == *builder,
                fuel > 0,
                f1 == fuel - 1,
                k <= chs@.len(),
                nav_models(children@) == nav_children(site, chs@, f1, k as int),
            decreases chs@.len() - k,
        {
            proof {
                builder.page_registry.pages.lemma_exec_map();
            }
            let ghost before = nav_models(children@);
            let child_id = PageId::new(chs[k].as_str());
            if builder.get_pages().contains_key(&child_id) {
                match self.build_nav_node(builder, &child_id, fuel - 1) {
                    Ok(Some(n)) => {
                        children.push(n);
                        assert(nav_models(children@) =~= before.push(n@));
                    },
                    Ok(None) => {},
                    Err(e) => {
                        return Err(e);
                    },
                }
            } else {
                let with_index = concat_str(chs[k].as_str(), "/index");
                proof {
                    reveal_strlit("/index");
                    assert("/index"@ =~= seq!['/', 'i', 'n', 'd', 'e', 'x']);
                }
                let index_id = PageId::new(with_index.as_str());
                if builder.get_pages().contains_key(&index_id) {
                    match self.build_nav_node(builder, &index_id, fuel - 1) {
                        Ok(Some(n)) => {
                            children.push(n);
                            assert(nav_models(children@) =~= before.push(n@));
                        },
                        Ok(None) => {},
                        Err(e) => {
                            return Err(e);
                        },
                    }
                }
            }
            k = k + 1;
        }
        let node = NavNode { title: meta.title.clone(), url: meta.url.clone(), children, order };
        proof {
            assert(node@.children =~= nav_models(children@));
        }
        Ok(Some(node))
    }

    /// The navigation tree: the entries of the pages without parents, in identifier order.
    pub fn build_navigation(&self, builder: &SiteBuilder) -> (r: Result<Vec<NavNode>, String>)
        requires
            builder.wf(),
            self@.wf(),
        ensures
            r matches Ok(v) && nav_models(v@) == nav_of_roots(*builder, root_ids(*builder, self@), root_ids(*builder, self@).len() as int),
    {
        let pages = builder.get_pages();
        let depth = pages.len().saturating_add(1);
        let mut roots: Vec<PageId> = Vec::new();
        let mut i: usize = 0;
        while i < pages.len()
            invariant
                builder.wf(),
                self@.wf(),
                *pages == builder.page_registry.pages,
                i <= builder.id_seq().len(),
                ids_of(roots@) == builder.id_seq().take(i as int).filter(no_parents(self@)),
            decreases builder.id_seq().len() - i,
        {
            let page_id = pages.key_at(i);
            let is_root = match self.graph.get_parents(page_id) {
                Some(parents) => {
                    proof {
                        parents.lemma_dom();
                    }
                    parents.len() == 0
                },
                None => true,
            };
            proof {
                let t = builder.id_seq().take(i + 1);
                assert(t =~= builder.id_seq().take(i as int).push(page_id@));
                assert(t.drop_last() =~= builder.id_seq().take(i as int));
                assert(is_root == (self@.parents(page_id@).len() == 0));
                reveal(Seq::filter);
            }
            if is_root {
                roots.push(page_id.clone_key());
            }
            proof {
                let t = builder.id_seq().take(i + 1);
                assert(t.drop_last() =~= builder.id_seq().take(i as int));
                assert(ids_of(roots@) =~= t.filter(no_parents(self@)));
            }
            i = i + 1;
        }
        let ghost rs = root_ids(*builder, self@);
        proof {
            assert(builder.id_seq().take(i as int) =~= builder.id_seq());
            assert forall|k: int| 0 <= k < rs.len() implies builder.page_map().contains_key(#[trigger] rs[k]) by {
                assert(rs.contains(rs[k]));
                builder.id_seq().lemma_filter_contains_rev(no_parents(self@), rs[k]);
                assert(builder.id_seq().contains(rs[k]));
                builder.page_registry.pages.lemma_dom();
                builder.page_registry.pages.lemma_exec_map();
                assert(builder.id_seq().to_set().contains(rs[k]));
            }
        }
        let mut nav_roots_v: Vec<NavNode> = Vec::new();
        let mut j: usize = 0;
        proof {
            assert(nav_models(nav_roots_v@) =~= nav_of_roots(*builder, rs, 0));
        }
        while j < roots.len()
            invariant
                builder.wf(),
                rs == ids_of(roots@),
                j <= roots@.len(),
                depth == nav_depth(*builder),
                forall|k: int| 0 <= k < rs.len() ==> builder.page_map().contains_key(#[trigger] rs[k]),
                nav_models(nav_roots_v@) == nav_of_roots(*builder, rs, j as int),
            decreases roots@.len() - j,
        {
            let ghost before = nav_models(nav_roots_v@);
            assert(builder.page_map().contains_key(rs[j as int]));
            match self.build_nav_node(builder, &roots[j], depth) {
                Ok(Some(n)) => {
                    nav_roots_v.push(n);
                    assert(nav_models(nav_roots_v@) =~= before.push(n@));
                },
                Ok(None) => {},
                Err(e) => {
                    return Err(e);
                },
            }
            j = j + 1;
        }
        Ok(nav_roots_v)
    }

    /// The breadcrumbs of every page: the published pages met going up from it through
    /// first parents (in identifier order), until a page without parents or one already
    /// met, listed from the top down.
    pub fn compute_breadcrumbs(&self, builder: &SiteBuilder) -> (r: Result<SortedMap<PageId, Vec<NavNode>>, String>)
        requires
            builder.wf(),
            self@.wf(),
        ensures
            r matches Ok(m) && {
                &&& m.wf()
                &&& m@.dom() == builder.page_registry.pages@.dom()
                &&& forall|x: Seq<char>| #[trigger] builder.page_map().contains_key(x) ==> crumbs_view(m)[x]
                    == breadcrumbs_of(*builder, self@, x)
            },
    {
        let ghost site = *builder;
        let ghost g = self@;
        let ghost u = g.children_of@.dom();
        let ghost fuel = (u.len() + 1) as nat;
        let pages = builder.get_pages();
        proof {
            g.children_of.lemma_dom();
            pages.lemma_dom();
            pages.lemma_exec_map();
        }
        let mut crumbs_map: SortedMap<PageId, Vec<NavNode>> = SortedMap::new();
        let mut i: usize = 0;
        while i < pages.len()
            invariant
                builder.wf(),
                site == *builder,
                g == self@,
                g.wf(),
                u == g.children_of@.dom(),
                u.finite(),
                fuel == u.len() + 1,
                *pages == builder.page_registry.pages,
                i <= builder.id_seq().len(),
                crumbs_map.wf(),
                crumbs_map@.dom() == builder.id_seq().take(i as int).to_set(),
                forall|x: Seq<char>| #[trigger] crumbs_map@.contains_key(x) ==> crumbs_view(crumbs_map)[x]
                    == breadcrumbs_of(site, g, x),
            decreases builder.id_seq().len() - i,
        {
            let page_id = pages.key_at(i);
            let ghost x = page_id@;
            let mut crumbs: Vec<NavNode> = Vec::new();
            let mut current = page_id.clone_key();
            let mut seen: crate::site_builder::IdSet = SortedMap::new();
            proof {
                assert(seen@.dom() =~= Set::<Seq<char>>::empty());
                assert(nav_models(crumbs@) + crumbs_up(site, g, current@, seen@.dom(), fuel) =~= crumbs_up(site, g, x, Set::empty(), fuel));
            }
            loop
                invariant
                    builder.wf(),
                    site == *builder,
                    g == self@,
                    g.wf(),
                    u == g.children_of@.dom(),
                    u.finite(),
                    fuel == u.len() + 1,
                    *pages == builder.page_registry.pages,
                    seen.wf(),
                    seen@.dom().subset_of(u),
                    nav_models(crumbs@) + crumbs_up(site, g, current@, seen@.dom(), (fuel - seen@.dom().len()) as nat)
                        == crumbs_up(site, g, x, Set::empty(), fuel),
                ensures
                    nav_models(crumbs@) == crumbs_up(site, g, x, Set::empty(), fuel),
                decreases u.len() - seen@.dom().len(),
            {
                proof {
                    seen.lemma_dom();
                    vstd::set_lib::lemma_len_subset(seen@.dom(), u);
                }
                let ghost f = (fuel - seen@.dom().len()) as nat;
                let parent = match self.graph.get_parents(&current) {
                    Some(parents) => {
                        proof {
                            parents.lemma_dom();
                        }
                        if parents.len() == 0 {
                            proof {
                                assert(first_parent(g, current@) is None);
                                assert(crumbs_up(site, g, current@, seen@.dom(), f) =~= Seq::<NavModel>::empty());
                                assert(nav_models(crumbs@) =~= nav_models(crumbs@) + Seq::<NavModel>::empty());
                            }
                            break;
                        }
                        parents.key_at(0)
                    },
                    None => {
                        proof {
                            assert(first_parent(g, current@) is None);
                            assert(nav_models(crumbs@) =~= nav_models(crumbs@) + Seq::<NavModel>::empty());
                        }
                        break;
                    },
                };
                proof {
                    assert(first_parent(g, current@) == Some(parent@));
                }
                if seen.contains_key(parent) {
                    proof {
                        assert(nav_models(crumbs@) =~= nav_models(crumbs@) + Seq::<NavModel>::empty());
                    }
                    break;
                }
                let ghost seen0 = seen@.dom();
                seen.insert(parent.clone_key(), ());
                let ghost before = nav_models(crumbs@);
                proof {
                    assert(g.parents(current@).contains(parent@)) by {
                        let ps = g.parents_of.exec_map()[current@];
                        ps.lemma_dom();
                        assert(ps.key_seq().to_set().contains(ps.key_seq()[0]));
                    }
                    assert(g.children(parent@).contains(current@));
                    assert(u.contains(parent@)) by {
                        if !u.contains(parent@) {
                            assert(g.children(parent@) =~= Set::<Seq<char>>::empty());
                        }
                    }
                    assert(seen@.dom() =~= seen0.insert(parent@));
                    assert(seen@.dom().len() == seen0.len() + 1);
                    assert(seen0.subset_of(u.remove(parent@)));
                    vstd::set_lib::lemma_len_subset(seen0, u.remove(parent@));
                }
                match pages.get(parent) {
                    Some(page) => match &page.page_meta {
                        Some(meta) => {
                            if meta.publish {
                                let node = NavNode {
                                    title: meta.title.clone(),
                                    url: meta.url.clone(),
                                    children: Vec::new(),
                                    order: None,
                                };
                                crumbs.push(node);
                                proof {
                                    assert(node@.children =~= Seq::<NavModel>::empty());
                                    assert(nav_models(crumbs@) =~= before + crumb_of(site, parent@));
                                }
                            } else {
                                assert(crumb_of(site, parent@) =~= Seq::<NavModel>::empty());
                                assert(nav_models(crumbs@) =~= before + crumb_of(site, parent@));
                            }
                        },
                        None => {
                            assert(crumb_of(site, parent@) =~= Seq::<NavModel>::empty());
                            assert(nav_models(crumbs@) =~= before + crumb_of(site, parent@));
                        },
                    },
                    None => {
                        assert(crumb_of(site, parent@) =~= Seq::<NavModel>::empty());
                        assert(nav_models(crumbs@) =~= before + crumb_of(site, parent@));
                    },
                }
                current = parent.clone_key();
                proof {
                    assert(crumbs_up(site, g, x, Set::empty(), fuel) == before + crumb_of(site, parent@) + crumbs_up(
                        site,
                        g,
                        parent@,
                        seen@.dom(),
                        (f - 1) as nat,
                    ));
                    assert(before + crumb_of(site, parent@) + crumbs_up(site, g, parent@, seen@.dom(), (f - 1) as nat)
                        =~= nav_models(crumbs@) + crumbs_up(site, g, current@, seen@.dom(), (fuel - seen@.dom().len()) as nat));
                }
            }
            // from the top down
            let mut ordered: Vec<NavNode> = Vec::new();
            let ghost all = nav_models(crumbs@);
            proof {
                assert(nav_models(ordered@) =~= all.reverse().take(0));
            }
            while crumbs.len() > 0
                invariant
                    all.len() == crumbs@.len() + ordered@.len(),
                    nav_models(crumbs@) == all.take(crumbs@.len() as int),
                    nav_models(ordered@) == all.reverse().take(ordered@.len() as int),
                decreases crumbs@.len(),
            {
                let ghost c0 = crumbs@;
                let ghost o0 = ordered@;
                let n = crumbs.pop().unwrap();
                ordered.push(n);
                proof {
                    assert(crumbs@ =~= c0.drop_last());
                    assert(nav_models(c0)[c0.len() - 1] == n@);
                    assert(all.take(c0.len() as int)[c0.len() - 1] == all[c0.len() - 1]);
                    assert(nav_models(crumbs@) =~= all.take(crumbs@.len() as int));
                    assert(all[crumbs@.len() as int] == n@);
                    assert(all.reverse().take(ordered@.len() as int) =~= all.reverse().take(o0.len() as int).push(all.reverse()[o0.len() as int]));
                    assert(nav_models(ordered@) =~= nav_models(o0).push(n@));
                }
            }
            proof {
                assert(all.reverse().take(ordered@.len() as int) =~= all.reverse());
                pages.lemma_at(i as int);
            }
            let ghost m0 = crumbs_map;
            crumbs_map.insert(page_id.clone_key(), ordered);
            proof {
                crumbs_map.lemma_exec_map();
                m0.lemma_exec_map();
                let t = builder.id_seq().take(i + 1);
                assert(t =~= builder.id_seq().take(i as int).push(x));
                builder.id_seq().take(i as int).lemma_push_to_set_commute(x);
                assert forall|y: Seq<char>| #[trigger] crumbs_map@.contains_key(y) implies crumbs_view(crumbs_map)[y]
                    == breadcrumbs_of(site, g, y) by {
                    if y != x {
                        assert(m0@.contains_key(y));
                        assert(crumbs_view(m0)[y] == breadcrumbs_of(site, g, y));
                    }
                }
            }
            i = i + 1;
        }
        proof {
            assert(builder.id_seq().take(i as int) =~= builder.id_seq());
            assert forall|y: Seq<char>| #[trigger] builder.page_map().contains_key(y) implies crumbs_view(crumbs_map)[y]
                == breadcrumbs_of(site, g, y) by {
                assert(builder.id_seq().to_set().contains(y));
            }
        }
        Ok(crumbs_map)
    }

    /// Page `page_id` takes on the attributes its parents hand down, parent by parent in
    /// identifier order; returns the parents. Stops at the first parent that is missing,
    /// when the page is missing, or when a parent's attributes do not read as front matter.
    fn apply_parent_attributes(&self, builder: &mut SiteBuilder, page_id: &PageId) -> (r: Result<Vec<PageId>, String>)
        requires
            old(builder).wf(),
            self@.wf(),
        ensures
            match inherited(*old(builder), self@, page_id@) {
                Inherit::Done(f) => r matches Ok(v) && ids_of(v@) == parent_ids(self@, page_id@),
                Inherit::ParentMissing(p, f) => r matches Err(m) && m@ == parent_not_found(p),
                Inherit::PageMissing => r matches Err(m) && m@ == page_not_found(page_id@),
                Inherit::BadAttrs(p, f) => r matches Err(m) && exists|k: Seq<char>|
                    first_bad_from(*old(builder), p, k) && m@ == field_error(k),
            },
            old(builder).page_map().contains_key(page_id@) ==> {
                &&& only_page_changed(*old(builder), *final(builder), page_id@)
                &&& with_fields(
                    old(builder).page_map()[page_id@],
                    final(builder).page_map()[page_id@],
                    fields_at(inherited(*old(builder), self@, page_id@)),
                )
            },
            !old(builder).page_map().contains_key(page_id@) ==> *final(builder) == *old(builder),
    {
        let ghost site = *builder;
        let ghost id = page_id@;
        let ghost ps = parent_ids(self@, page_id@);
        proof {
            builder.page_registry.pages.lemma_exec_map();
            builder.page_registry.pages.lemma_dom();
        }
        let mut out: Vec<PageId> = Vec::new();
        match self.graph.get_parents(page_id) {
            Some(parents) => {
                let mut j: usize = 0;
                proof {
                    assert(ids_of(out@) =~= ps.take(0));
                    if site.page_map().contains_key(id) {
                        let i = site.page_registry.pages.key_seq().index_of(id);
                        site.page_registry.pages.lemma_at(i);
                    }
                }
                while j < parents.len()
                    invariant
                        site == *old(builder),
                        site.wf(),
                        builder.wf(),
                        self@.wf(),
                        parents.wf(),
                        ps == parents.key_seq(),
                        ps == parent_ids(self@, page_id@),
                        id == page_id@,
                        j <= ps.len(),
                        ids_of(out@) == ps.take(j as int),
                        inherit(site, id, ps, j as int) is Done,
                        site.page_map().contains_key(id) ==> {
                            &&& only_page_changed(site, *builder, id)
                            &&& with_fields(site.page_map()[id], builder.page_map()[id], fields_at(inherit(site, id, ps, j as int)))
                        },
                        !site.page_map().contains_key(id) ==> *builder == site,
                    decreases ps.len() - j,
                {
                    let parent_id = parents.key_at(j);
                    proof {
                        builder.page_registry.pages.lemma_exec_map();
                        builder.page_registry.pages.lemma_dom();
                    }
                    let attrs = match builder.get_pages().get(parent_id) {
                        Some(p) => {
                            proof {
                                let k = builder.page_registry.pages.key_seq().index_of(parent_id@);
                                builder.page_registry.pages.lemma_at(k);
                            }
                            p.file_meta.children_attrs.clone_map()
                        },
                        None => {
                            let q = parent_id.debug_string();
                            let m = concat_str("Parent page not found: ", q.as_str());
                            proof {
                                reveal_strlit("Parent page not found: ");
                                assert(!site.page_map().contains_key(parent_id@));
                                assert(inherit(site, id, ps, j + 1) == Inherit::ParentMissing(parent_id@, fields_at(inherit(site, id, ps, j as int))));
                                lemma_inherit_stops(site, id, ps, j + 1);
                                assert(inherited(site, self@, id) == Inherit::ParentMissing(parent_id@, fields_at(inherit(site, id, ps, j as int))));
                                assert(m@ == parent_not_found(parent_id@));
                                if site.page_map().contains_key(id) {
                                    assert(with_fields(site.page_map()[id], builder.page_map()[id], fields_at(inherited(site, self@, id))));
                                }
                            }
                            return Err(m);
                        },
                    };
                    proof {
                        assert(site.page_map().contains_key(parent_id@));
                        assert(patch_of(attrs) == patch_from(site, parent_id@));
                    }
                    let i = match builder.get_pages().find(page_id) {
                        Ok(i) => i,
                        Err(_) => {
                            let q = page_id.debug_string();
                            let m = concat_str("Page not found: ", q.as_str());
                            proof {
                                reveal_strlit("Page not found: ");
                                assert(!site.page_map().contains_key(id));
                                assert(inherit(site, id, ps, j + 1) == Inherit::PageMissing);
                                lemma_inherit_stops(site, id, ps, j + 1);
                            }
                            return Err(m);
                        },
                    };
                    let ghost b0 = *builder;
                    proof {
                        builder.page_registry.pages.lemma_at(i as int);
                    }
                    let page = builder.page_mut_at(i);
                    let res = page.file_meta.append(&attrs);
                    let ghost new_page = *page;
                    proof {
                        SiteBuilder::lemma_page_replaced(b0, *builder, i as int, new_page);
                        assert(with_fields(b0.page_map()[id], builder.page_map()[id], fields_of(builder.page_map()[id].file_meta)));
                    }
                    match res {
                        Err(e) => {
                            proof {
                                assert(inherit(site, id, ps, j + 1) == Inherit::BadAttrs(parent_id@, fields_at(inherit(site, id, ps, j as int))));
                                lemma_inherit_stops(site, id, ps, j + 1);
                            }
                            return Err(e);
                        },
                        Ok(()) => {},
                    }
                    out.push(parent_id.clone_key());
                    proof {
                        assert(ps.take(j + 1) =~= ps.take(j as int).push(ps[j as int]));
                        assert(ids_of(out@) =~= ps.take(j + 1));
                    }
                    j = j + 1;
                }
                proof {
                    assert(ps.take(j as int) =~= ps);
                }
            },
            None => {
                proof {
                    assert(ps =~= Seq::<Seq<char>>::empty());
                    assert(ids_of(out@) =~= ps);
                    if site.page_map().contains_key(id) {
                        let i = site.page_registry.pages.key_seq().index_of(id);
                        site.page_registry.pages.lemma_at(i);
                    }
                }
            },
        }
        Ok(out)
    }

    /// Sets the HTML of `meta` from the Markdown content of page `page_id`.
    fn render_markdown(&self, builder: &SiteBuilder, page_id: &PageId, meta: &mut PageMeta) -> (r: Result<(), String>)
        requires
            builder.wf(),
        ensures
            !builder.page_map().contains_key(page_id@) ==> (r matches Err(m) && m@ == page_not_found(page_id@)
                && *final(meta) == *old(meta)),
            builder.page_map().contains_key(page_id@) ==> {
                &&& r is Ok
                &&& final(meta)@ == PageMetaModel {
                    html_content: spec_markdown_html(builder.page_map()[page_id@].content@),
                    ..old(meta)@
                }
                &&& (meta_wf(*old(meta)) ==> meta_wf(*final(meta)))
            },
    {
        proof {
            builder.page_registry.pages.lemma_exec_map();
        }
        let page = match builder.get_pages().get(page_id) {
            Some(p) => p,
            None => {
                let q = page_id.debug_string();
                let m = concat_str("Page not found: ", q.as_str());
                proof {
                    reveal_strlit("Page not found: ");
                }
                return Err(m);
            },
        };
        meta.html_content = render_markdown_to_html(page.content.as_str());
        proof {
            assert(meta@.children =~= old(meta)@.children);
        }
        Ok(())
    }

    /// Processes one page: it takes on its parents' attributes, gets its metadata with
    /// the children gathered so far and its HTML, hands that metadata to each parent's
    /// gathered children, and stores it.
    fn process_page(
        &mut self,
        builder: &mut SiteBuilder,
        page_id: &PageId,
        children_map: &mut SortedMap<PageId, Vec<PageMeta>>,
    ) -> (r: Result<(), String>)
        requires
            old(builder).wf(),
            old(self)@.wf(),
            cm_wf(*old(children_map)),
        ensures
            *final(self) == *old(self),
            final(builder).wf(),
            cm_wf(*final(children_map)),
            r is Ok <==> (inherited(*old(builder), old(self)@, page_id@) is Done && old(builder).page_map().contains_key(page_id@)),
            match inherited(*old(builder), old(self)@, page_id@) {
                Inherit::ParentMissing(p, f) => r matches Err(m) && m@ == parent_not_found(p),
                Inherit::PageMissing => r matches Err(m) && m@ == page_not_found(page_id@),
                Inherit::Done(f) => !old(builder).page_map().contains_key(page_id@) ==> (r matches Err(m) && m@ == page_not_found(page_id@)),
                Inherit::BadAttrs(p, f) => r matches Err(m) && exists|k: Seq<char>|
                    first_bad_from(*old(builder), p, k) && m@ == field_error(k),
            },
            r is Err ==> {
                &&& old(builder).page_map().contains_key(page_id@) ==> {
                    &&& only_page_changed(*old(builder), *final(builder), page_id@)
                    &&& with_fields(
                        old(builder).page_map()[page_id@],
                        final(builder).page_map()[page_id@],
                        fields_at(inherited(*old(builder), old(self)@, page_id@)),
                    )
                }
                &&& !old(builder).page_map().contains_key(page_id@) ==> *final(builder) == *old(builder)
            },
            r is Ok ==> {
                let page0 = old(builder).page_map()[page_id@];
                let f = fields_at(inherited(*old(builder), old(self)@, page_id@));
                let m = meta_of(
                    page0,
                    f,
                    page_id@,
                    graph_segments(old(self)@, page_id@),
                    kids_in(*old(children_map), page_id@),
                    spec_markdown_html(page0.content@),
                );
                &&& only_page_changed(*old(builder), *final(builder), page_id@)
                &&& processed_page(page0, final(builder).page_map()[page_id@], f, m)
                &&& forall|x: Seq<char>| #[trigger] kids_in(*final(children_map), x) == if parent_ids(old(self)@, page_id@).contains(x) {
                    kids_in(*old(children_map), x).push(m)
                } else {
                    kids_in(*old(children_map), x)
                }
            },
    {
        let ghost site = *builder;
        let ghost cm0 = *children_map;
        let parents = match self.apply_parent_attributes(builder, page_id) {
            Ok(v) => v,
            Err(e) => {
                return Err(e);
            },
        };
        let ghost site1 = *builder;
        let mut page_meta = match self.build_page_meta(builder, page_id) {
            Ok(m) => m,
            Err(e) => {
                return Err(e);
            },
        };
        proof {
            builder.page_registry.pages.lemma_exec_map();
            children_map.lemma_exec_map();
        }
        let ghost kids = kids_in(*children_map, page_id@);
        let ghost m0 = page_meta@;
        match children_map.get(page_id) {
            Some(children) => {
                let mut i: usize = 0;
                proof {
                    assert(m0.children =~= kids.take(0));
                    assert(page_meta@ =~= PageMetaModel { children: kids.take(0), ..m0 });
                }
                while i < children.len()
                    invariant
                        cm_wf(*children_map),
                        children_map.exec_map().contains_key(page_id@),
                        *children == children_map.exec_map()[page_id@],
                        kids == metas_model(children@),
                        i <= children@.len(),
                        meta_wf(page_meta),
                        page_meta@ == (PageMetaModel { children: kids.take(i as int), ..m0 }),
                    decreases children@.len() - i,
                {
                    let ghost pm0 = page_meta@;
                    assert(meta_wf(children@[i as int]));
                    let c = children[i].clone_meta();
                    page_meta.children.push(c);
                    proof {
                        assert(page_meta@.children =~= pm0.children.push(c@));
                        assert(kids.take(i + 1) =~= kids.take(i as int).push(kids[i as int]));
                        assert(page_meta@ =~= PageMetaModel { children: kids.take(i + 1), ..m0 });
                    }
                    i = i + 1;
                }
                proof {
                    assert(kids.take(i as int) =~= kids);
                }
            },
            None => {
                proof {
                    assert(kids =~= Seq::<PageMetaModel>::empty());
                    assert(m0.children =~= kids);
                    assert(page_meta@ =~= PageMetaModel { children: kids, ..m0 });
                }
            },
        }
        match self.render_markdown(builder, page_id, &mut page_meta) {
            Ok(()) => {},
            Err(e) => {
                return Err(e);
            },
        }
        let ghost m = page_meta@;
        let mut j: usize = 0;
        proof {
            assert(ids_of(parents@) == parent_ids(old(self)@, page_id@));
            if self.graph.parents_of.exec_map().contains_key(page_id@) {
                let ps = self.graph.parents_of.exec_map()[page_id@];
                assert(ps.wf());
                ps.lemma_dom();
            }
            let page0 = site.page_map()[page_id@];
            let f = fields_at(inherited(site, old(self)@, page_id@));
            assert(m == meta_of(page0, f, page_id@, graph_segments(old(self)@, page_id@), kids_in(cm0, page_id@), spec_markdown_html(page0.content@)));
        }
        while j < parents.len()
            invariant
                cm_wf(*children_map),
                meta_wf(page_meta),
                page_meta@ == m,
                j <= parents@.len(),
                ids_of(parents@).no_duplicates(),
                forall|x: Seq<char>| #[trigger] kids_in(*children_map, x) == if ids_of(parents@).take(j as int).contains(x) {
                    kids_in(cm0, x).push(m)
                } else {
                    kids_in(cm0, x)
                },
            decreases parents@.len() - j,
        {
            let c = page_meta.clone_meta();
            let ghost cm1 = *children_map;
            push_child(children_map, &parents[j], c);
            proof {
                let t0 = ids_of(parents@).take(j as int);
                let t1 = ids_of(parents@).take(j + 1);
                assert(t1 =~= t0.push(parents@[j as int]@));
                assert(!t0.contains(parents@[j as int]@)) by {
                    if t0.contains(parents@[j as int]@) {
                        let n = choose|n: int| 0 <= n < t0.len() && t0[n] == parents@[j as int]@;
                        assert(ids_of(parents@)[n] == ids_of(parents@)[j as int]);
                    }
                }
                assert forall|x: Seq<char>| #[trigger] kids_in(*children_map, x) == if t1.contains(x) {
                    kids_in(cm0, x).push(m)
                } else {
                    kids_in(cm0, x)
                } by {
                    assert(kids_in(cm1, x) == if t0.contains(x) {
                        kids_in(cm0, x).push(m)
                    } else {
                        kids_in(cm0, x)
                    });
                    if x != parents@[j as int]@ {
                        assert(t1.contains(x) == t0.contains(x)) by {
                            if t1.contains(x) {
                                let n = choose|n: int| 0 <= n < t1.len() && t1[n] == x;
                                assert(t0[n] == x);
                            }
                        }
                    } else {
                        assert(t1[j as int] == x);
                    }
                }
            }
            j = j + 1;
        }
        proof {
            assert(ids_of(parents@).take(j as int) =~= ids_of(parents@));
            builder.page_registry.pages.lemma_exec_map();
            builder.page_registry.pages.lemma_dom();
        }
        let i = match builder.get_pages().find(page_id) {
            Ok(i) => i,
            Err(_) => {
                let q = page_id.debug_string();
                let msg = concat_str("Page not found: ", q.as_str());
                return Err(msg);
            },
        };
        let ghost b0 = *builder;
        proof {
            builder.page_registry.pages.lemma_at(i as int);
        }
        let page = builder.page_mut_at(i);
        page.page_meta = Some(page_meta);
        let ghost new_page = *page;
        proof {
            SiteBuilder::lemma_page_replaced(b0, *builder, i as int, new_page);
            site.page_registry.pages.lemma_exec_map();
            let page0 = site.page_map()[page_id@];
            let f = fields_at(inherited(site, old(self)@, page_id@));
            assert(processed_page(page0, builder.page_map()[page_id@], f, m));
            assert(only_page_changed(site, *builder, page_id@));
        }
        Ok(())
    }

    /// The metadata of page `page_id` before its children and HTML are added: its file
    /// metadata, stem, path segments, URL and identifier.
    fn build_page_meta(&mut self, builder: &SiteBuilder, page_id: &PageId) -> (r: Result<PageMeta, String>)
        requires
            builder.wf(),
            old(self)@.wf(),
        ensures
            *final(self) == *old(self),
            !builder.page_map().contains_key(page_id@) ==> (r matches Err(m) && m@ == page_not_found(page_id@)),
            builder.page_map().contains_key(page_id@) ==> (r matches Ok(m) && m.wf() && m@ == meta_of(
                builder.page_map()[page_id@],
                fields_of(builder.page_map()[page_id@].file_meta),
                page_id@,
                graph_segments(old(self)@, page_id@),
                Seq::empty(),
                Seq::empty(),
            )),
    {
        proof {
            builder.page_registry.pages.lemma_exec_map();
        }
        let page = match builder.get_pages().get(page_id) {
            Some(p) => p,
            None => {
                let q = page_id.debug_string();
                let m = concat_str("Page not found: ", q.as_str());
                proof {
                    reveal_strlit("Page not found: ");
                }
                return Err(m);
            },
        };
        proof {
            let i = builder.page_registry.pages.key_seq().index_of(page_id@);
            builder.page_registry.pages.lemma_at(i);
            assert(page.wf());
        }
        let mut meta = page.file_meta.clone_meta().into_page_meta();
        meta.stem = page.stem.clone();
        match self.graph.get_path_segments(page_id) {
            Some(segments) => {
                meta.path_segments = clone_strings(segments);
            },
            None => {},
        }
        let ghost segs = meta.path_segments.deep_view();
        let mut url = "/".to_owned();
        proof {
            reveal_strlit("/");
            assert(url@ =~= seq!['/'] + segs_text(segs.take(0)));
        }
        let mut i: usize = 0;
        while i < meta.path_segments.len()
            invariant
                i <= segs.len(),
                segs == meta.path_segments.deep_view(),
                url@ == seq!['/'] + segs_text(segs.take(i as int)),
            decreases segs.len() - i,
        {
            url.append(meta.path_segments[i].as_str());
            url.append("/");
            proof {
                reveal_strlit("/");
                assert(segs.take(i + 1).drop_last() =~= segs.take(i as int));
                assert(url@ =~= seq!['/'] + segs_text(segs.take(i + 1)));
            }
            i = i + 1;
        }
        proof {
            assert(segs.take(i as int) =~= segs);
            reveal_strlit("index");
            reveal_strlit(".html");
            assert("index"@ =~= seq!['i', 'n', 'd', 'e', 'x']);
            assert(".html"@ =~= seq!['.', 'h', 't', 'm', 'l']);
        }
        let is_root_index = crate::text::str_equal(meta.stem.as_str(), "index") && meta.path_segments.len() == 0;
        if !is_root_index {
            url.append(meta.stem.as_str());
            url.append(".html");
        }
        meta.url = url;
        meta.id = page_id.to_string();
        proof {
            let exp = meta_of(
                builder.page_map()[page_id@],
                fields_of(builder.page_map()[page_id@].file_meta),
                page_id@,
                graph_segments(self@, page_id@),
                Seq::empty(),
                Seq::empty(),
            );
            assert(meta@.children =~= Seq::<PageMetaModel>::empty());
            assert(meta@.title == exp.title);
            assert(meta@.stem == exp.stem);
            assert(meta@.template == exp.template);
            assert(meta@.publish == exp.publish);
            assert(meta@.id == exp.id);
            assert(meta@.path_segments == exp.path_segments);
            assert(meta@.html_content == exp.html_content);
            assert(meta@.url == exp.url);
            assert(meta@.extra == exp.extra);
            assert(meta@ =~= meta_of(
                builder.page_map()[page_id@],
                fields_of(builder.page_map()[page_id@].file_meta),
                page_id@,
                graph_segments(self@, page_id@),
                Seq::empty(),
                Seq::empty(),
            ));
        }
        Ok(meta)
    }
}

/// Taking on the same parent attributes twice changes nothing the second time.
pub proof fn lemma_append_idempotent(f: Fields, patch: Map<Seq<char>, YamlModel>)
    ensures
        append_fields(append_fields(f, patch), patch) == append_fields(f, patch),
{
    let once = append_fields(f, patch);
    assert(keep_existing(once.extra, patch_extra(patch)) =~= once.extra);
}

/// A page's own values win over what its parents hand down: a field the page sets stays,
/// and so does every attribute it has.
pub proof fn lemma_page_values_win(f: Fields, patch: Map<Seq<char>, YamlModel>)
    ensures
        f.template is Some ==> append_fields(f, patch).template == f.template,
        f.publish is Some ==> append_fields(f, patch).publish == f.publish,
        forall|k: Seq<char>| #[trigger] f.extra.contains_key(k) ==> append_fields(f, patch).extra[k] == f.extra[k],
        f.extra.dom().subset_of(append_fields(f, patch).extra.dom()),
{
}

/// The URL of a page is `/` exactly for the root index page (stem `index`, no segments);
/// every other URL ends with `.html`.
pub proof fn lemma_url_root(segs: Seq<Seq<char>>, stem: Seq<char>)
    ensures
        (page_url(segs, stem) == seq!['/']) <==> (stem == seq!['i', 'n', 'd', 'e', 'x'] && segs.len() == 0),
        !(stem == seq!['i', 'n', 'd', 'e', 'x'] && segs.len() == 0) ==> page_url(segs, stem).len() >= 5 && page_url(segs, stem).skip(
            page_url(segs, stem).len() - 5,
        ) == seq!['.', 'h', 't', 'm', 'l'],
{
    let u = page_url(segs, stem);
    if stem == seq!['i', 'n', 'd', 'e', 'x'] && segs.len() == 0 {
        assert(segs_text(segs) =~= Seq::<char>::empty());
        assert(u =~= seq!['/']);
    } else {
        let tail = stem + seq!['.', 'h', 't', 'm', 'l'];
        assert(u =~= seq!['/'] + segs_text(segs) + tail);
        assert(u.skip(u.len() - 5) =~= seq!['.', 'h', 't', 'm', 'l']);
    }
}

/// A page without parents has no breadcrumbs.
pub proof fn lemma_root_no_breadcrumbs(site: SiteBuilder, g: Graph, x: Seq<char>)
    requires
        parent_ids(g, x).len() == 0,
    ensures
        breadcrumbs_of(site, g, x) == Seq::<NavModel>::empty(),
{
    assert(crumbs_up(site, g, x, Set::empty(), (g.children_of@.dom().len() + 1) as nat) =~= Seq::<NavModel>::empty());
    assert(Seq::<NavModel>::empty().reverse() =~= Seq::<NavModel>::empty());
}

} // verus!
