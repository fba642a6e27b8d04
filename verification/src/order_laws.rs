use vstd::prelude::*;
use crate::graph::{
    Graph, built_from, built_children, roots_upto, has_stuck_part, lemma_children_are_pages, lemma_ids_upto_pages,
    names_directory, dir_roots_upto, roots_of_page, roots_contribution, children_of_source, rebuilt,
    parent_ids, seg_map, record_segments, segs_upto, touched_segments, ids_upto,
};
use crate::path::{is_prefix, spec_path_components};
use crate::processor::{is_order, kids};
use crate::site_builder::SiteBuilder;

verus! {

/// In a graph built from a site, every child is a page.
pub proof fn lemma_built_children_are_pages(g: Graph, site: SiteBuilder, x: Seq<char>)
    requires
        site.wf(),
        built_from(g, site),
    ensures
        g.children(x).subset_of(site.page_registry.pages@.dom()),
{
    site.page_registry.pages.lemma_dom();
    if site.page_registry.pages@.contains_key(x) {
        let i = site.id_seq().index_of(x);
        site.page_registry.pages.lemma_at(i);
        let bc = built_children(site, i);
        lemma_children_are_pages(roots_upto(site, i + 1), site, site.page_seq()[i]);
        lemma_ids_upto_pages(bc, site.page_registry.pages@.dom(), bc.len() as int);
    }
}

/// When the child edges have no cycle (no nonempty set of pages in which every page has a
/// child), the order that a graph built from the site gives lists every page.
pub proof fn lemma_order_lists_every_page(g: Graph, site: SiteBuilder, o: Seq<Seq<char>>)
    requires
        site.wf(),
        built_from(g, site),
        is_order(g, site, o),
        !has_stuck_part(g, site.page_registry.pages@.dom()),
    ensures
        forall|x: Seq<char>| #[trigger] site.page_registry.pages@.contains_key(x) ==> o.contains(x),
{
    site.page_registry.pages.lemma_dom();
    let pages = site.page_registry.pages@.dom();
    let s = pages.difference(o.to_set());
    assert forall|x: Seq<char>| #[trigger] site.page_registry.pages@.contains_key(x) implies o.contains(x) by {
        if !o.contains(x) {
            assert(s.contains(x));
            assert(s.len() > 0) by {
                if s.len() == 0 {
                    s.lemma_len0_is_empty();
                }
            }
            vstd::set_lib::lemma_len_subset(s, pages);
            assert forall|y: Seq<char>| s.contains(y) implies exists|c: Seq<char>| #[trigger] g.children(y).contains(c) && s.contains(c) by {
                assert(g.eligible(site, y));
                assert(!o.contains(y));
                assert(!g.children(y).subset_of(o.to_set()));
                let c = choose|c: Seq<char>| g.children(y).contains(c) && !o.to_set().contains(c);
                lemma_built_children_are_pages(g, site, y);
                assert(s.contains(c));
            }
            assert(has_stuck_part(g, pages));
        }
    }
}

/// A path lies above the directory of some page (or is one).
pub open spec fn root_is_dir(site: SiteBuilder, r: Seq<Seq<char>>) -> bool {
    exists|j: int| 0 <= j < site.page_seq().len() && is_prefix(r, #[trigger] site.page_seq()[j].parent_dir@)
}

/// The roots that child roots open are directories.
proof fn lemma_dir_roots_are_dirs(site: SiteBuilder, chs: Seq<String>, n: int)
    ensures
        forall|r: Seq<Seq<char>>| #[trigger] dir_roots_upto(site, chs, n).contains(r) ==> root_is_dir(site, r),
    decreases n,
{
    if n > 0 {
        lemma_dir_roots_are_dirs(site, chs, n - 1);
        let path = spec_path_components(chs[n - 1]@);
        if names_directory(site, chs[n - 1]@) {
            let j = choose|j: int| 0 <= j < site.page_seq().len() && is_prefix(path, #[trigger] site.page_seq()[j].parent_dir@);
            assert(root_is_dir(site, path));
        }
        assert forall|r: Seq<Seq<char>>| #[trigger] dir_roots_upto(site, chs, n).contains(r) implies root_is_dir(site, r) by {
            if r != path {
                assert(dir_roots_upto(site, chs, n - 1).contains(r));
            }
        }
    }
}

/// Every collection root the pages open is a directory.
proof fn lemma_roots_upto_dirs(site: SiteBuilder, m: int)
    requires
        m <= site.page_seq().len(),
    ensures
        forall|r: Seq<Seq<char>>| #[trigger] roots_upto(site, m).contains(r) ==> root_is_dir(site, r),
    decreases m,
{
    if m > 0 {
        lemma_roots_upto_dirs(site, m - 1);
        let p = site.page_seq()[m - 1];
        lemma_dir_roots_are_dirs(site, p.file_meta.children@, p.file_meta.children@.len() as int);
        assert(p.parent_dir@.take(p.parent_dir@.len() as int) =~= p.parent_dir@);
        assert(is_prefix(p.parent_dir@, site.page_seq()[m - 1].parent_dir@));
        assert(root_is_dir(site, p.parent_dir@));
        assert forall|r: Seq<Seq<char>>| #[trigger] roots_upto(site, m).contains(r) implies root_is_dir(site, r) by {
            if !roots_upto(site, m - 1).contains(r) {
                assert(roots_of_page(site, p).contains(r));
                if p.file_meta.children@.len() > 0 {
                    assert(dir_roots_upto(site, p.file_meta.children@, p.file_meta.children@.len() as int).contains(r));
                } else {
                    assert(r == p.parent_dir@);
                }
            }
        }
    }
}

/// A child root that names a directory is among the roots that the child roots open.
proof fn lemma_dir_root_listed(site: SiteBuilder, chs: Seq<String>, n: int, k: int)
    requires
        0 <= k < n,
        names_directory(site, chs[k]@),
    ensures
        dir_roots_upto(site, chs, n).contains(spec_path_components(chs[k]@)),
    decreases n,
{
    if k < n - 1 {
        lemma_dir_root_listed(site, chs, n - 1, k);
    }
}

/// The children that child roots name depend only on which of them are collection roots.
proof fn lemma_contribution_same(
    r1: Set<Seq<Seq<char>>>,
    r2: Set<Seq<Seq<char>>>,
    site: SiteBuilder,
    chs: Seq<String>,
    n: int,
)
    requires
        n <= chs.len(),
        forall|k: int| 0 <= k < n ==> r1.contains(spec_path_components(#[trigger] chs[k]@))
            == r2.contains(spec_path_components(chs[k]@)),
    ensures
        roots_contribution(r1, site, chs, n) == roots_contribution(r2, site, chs, n),
    decreases n,
{
    if n > 0 {
        lemma_contribution_same(r1, r2, site, chs, n - 1);
        assert(r1.contains(spec_path_components(chs[n - 1]@)) == r2.contains(spec_path_components(chs[n - 1]@)));
    }
}

/// Rebuilding a page of the site a graph was built from, with the site unchanged, leaves
/// every edge as building made it: each page keeps its children and its parents.
pub proof fn lemma_rebuild_unchanged(g0: Graph, g1: Graph, site: SiteBuilder, id: Seq<char>, r: Result<Seq<Seq<char>>, Seq<char>>)
    requires
        site.wf(),
        built_from(g0, site),
        site.page_map().contains_key(id),
        rebuilt(g0, g1, site, id, r),
    ensures
        forall|x: Seq<char>| #[trigger] g1.children(x) == g0.children(x),
        forall|c: Seq<char>| #[trigger] g1.parents(c) == g0.parents(c),
{
    let ids = site.id_seq();
    let n = ids.len() as int;
    let i = ids.index_of(id);
    assert(ids.contains(id));
    let source = site.page_map()[id];
    assert(source == site.page_seq()[i]);
    assert(ids[i] == id);
    let r1 = g1.collection_roots@.dom();
    let r2 = roots_upto(site, i + 1);
    let chs = source.file_meta.children@;
    lemma_roots_upto_dirs(site, n);
    lemma_roots_upto_dirs(site, i + 1);
    lemma_dir_roots_are_dirs(site, chs, chs.len() as int);
    assert forall|k: int| 0 <= k < chs.len() implies r1.contains(spec_path_components(#[trigger] chs[k]@))
        == r2.contains(spec_path_components(chs[k]@)) by {
        let path = spec_path_components(chs[k]@);
        if names_directory(site, chs[k]@) {
            lemma_dir_root_listed(site, chs, chs.len() as int, k);
            assert(roots_of_page(site, source).contains(path));
            assert(roots_upto(site, i + 1) == roots_upto(site, i).union(roots_of_page(site, site.page_seq()[i])));
        } else {
            if r1.contains(path) {
                assert(root_is_dir(site, path));
            }
            if r2.contains(path) {
                assert(root_is_dir(site, path));
            }
        }
    }
    if chs.len() > 0 {
        lemma_contribution_same(r1, r2, site, chs, chs.len() as int);
    }
    assert(children_of_source(r1, site, source) == built_children(site, i));
    assert(g1.children(id) == g0.children(ids[i]));
    assert forall|c: Seq<char>| #[trigger] g1.parents(c) == g0.parents(c) by {
        assert forall|p: Seq<char>| g1.parents(c).contains(p) <==> g0.parents(c).contains(p) by {
            assert(g1.parents(c).contains(p) <==> g1.children(p).contains(c));
            assert(g0.parents(c).contains(p) <==> g0.children(p).contains(c));
            assert(g1.children(p) == g0.children(p));
        }
        assert(g1.parents(c) =~= g0.parents(c));
    }
}

/// A page listed as a parent of `c` is one of the parents the graph records for `c`.
proof fn lemma_parent_ids_recorded(g: Graph, c: Seq<char>, p: Seq<char>)
    requires
        g.wf(),
        parent_ids(g, c).contains(p),
    ensures
        g.parents(c).contains(p),
        g.children(p).contains(c),
{
    g.parents_of.lemma_exec_map();
}

/// Processing hands each page the metadata of all of its children: in an order that
/// processing follows, every child of the page at position `i` comes before it, so the
/// children gathered by then are those gathered over the whole order, and each of them is
/// in the order.
pub proof fn lemma_children_gathered_before(g: Graph, site: SiteBuilder, o: Seq<Seq<char>>, i: int)
    requires
        g.wf(),
        is_order(g, site, o),
        0 <= i < o.len(),
    ensures
        kids(site, g, o, o[i], i) == kids(site, g, o, o[i], o.len() as int),
        forall|c: Seq<char>| #[trigger] g.children(o[i]).contains(c) ==> o.take(i).contains(c),
{
    let x = o[i];
    assert forall|c: Seq<char>| #[trigger] g.children(x).contains(c) implies o.take(i).contains(c) by {
        assert(g.children(o[i]).subset_of(o.take(i).to_set()));
    }
    lemma_no_later_child(g, site, o, i, o.len() as int);
}

/// No page from position `i` up to `n` of the order has the page at `i` as a parent, so
/// the children gathered for it do not change over those positions.
proof fn lemma_no_later_child(g: Graph, site: SiteBuilder, o: Seq<Seq<char>>, i: int, n: int)
    requires
        g.wf(),
        is_order(g, site, o),
        0 <= i <= n <= o.len(),
        i < o.len(),
    ensures
        kids(site, g, o, o[i], n) == kids(site, g, o, o[i], i),
    decreases n - i,
{
    if n > i {
        lemma_no_later_child(g, site, o, i, n - 1);
        let c = o[n - 1];
        if parent_ids(g, c).contains(o[i]) {
            lemma_parent_ids_recorded(g, c, o[i]);
            assert(g.children(o[i]).subset_of(o.take(i).to_set()));
            assert(o.take(i).to_set().contains(c));
            let k = choose|k: int| 0 <= k < o.take(i).len() && o.take(i)[k] == c;
            assert(o[k] == o[n - 1]);
            assert(false);
        }
    }
}

/// The four per-page maps of `g` (parents, children, counts of incoming edges, path
/// segments) have the same keys.
pub open spec fn keys_agree(g: Graph) -> bool {
    &&& g.parents_of@.dom() == g.children_of@.dom()
    &&& g.incoming_edges@.dom() == g.children_of@.dom()
    &&& seg_map(g.path_segments).dom() == g.children_of@.dom()
}

proof fn lemma_record_segments_dom(
    m: Map<Seq<char>, Seq<Seq<char>>>,
    ch: Seq<(Seq<char>, Seq<Seq<char>>)>,
    n: int,
)
    ensures
        record_segments(m, ch, n).dom() == m.dom().union(ids_upto(ch, n)),
    decreases n,
{
    if n > 0 {
        lemma_record_segments_dom(m, ch, n - 1);
        assert(record_segments(m, ch, n).dom() =~= m.dom().union(ids_upto(ch, n)));
    } else {
        assert(m.dom().union(ids_upto(ch, n)) =~= m.dom());
    }
}

proof fn lemma_segs_upto_dom(site: SiteBuilder, n: int)
    requires
        site.wf(),
        n <= site.id_seq().len(),
    ensures
        segs_upto(site, n).dom() == site.page_registry.pages@.dom(),
    decreases n,
{
    if n <= 0 {
        assert(segs_upto(site, n).dom() =~= site.page_registry.pages@.dom());
    } else {
        lemma_segs_upto_dom(site, n - 1);
        let ch = built_children(site, n - 1);
        lemma_record_segments_dom(segs_upto(site, n - 1), ch, ch.len() as int);
        lemma_children_are_pages(roots_upto(site, n), site, site.page_seq()[n - 1]);
        lemma_ids_upto_pages(ch, site.page_registry.pages@.dom(), ch.len() as int);
        assert(segs_upto(site, n).dom() =~= site.page_registry.pages@.dom());
    }
}

/// A graph built from a site keeps one entry per page in each of its four per-page maps;
/// with `wf`, each parent lists exactly the pages that list it as a child, and each
/// page's count of incoming edges is its number of children.
pub proof fn lemma_built_keys(g: Graph, site: SiteBuilder)
    requires
        site.wf(),
        built_from(g, site),
    ensures
        keys_agree(g),
        g.children_of@.dom() == site.page_registry.pages@.dom(),
        g.wf(),
{
    lemma_segs_upto_dom(site, site.id_seq().len() as int);
}

/// Rebuilding a page keeps the four per-page maps on the same keys, adding only the
/// rebuilt identifier, and keeps the relations mirrored and the counts right (`wf`).
/// So over any run of rebuilds after a build, on sites with the same pages, the keys stay
/// the page identifiers as long as each rebuilt identifier is a page.
pub proof fn lemma_rebuild_keeps_keys(
    g0: Graph,
    g1: Graph,
    site: SiteBuilder,
    id: Seq<char>,
    r: Result<Seq<Seq<char>>, Seq<char>>,
)
    requires
        g0.wf(),
        site.wf(),
        keys_agree(g0),
        site.page_registry.pages@.dom().subset_of(g0.children_of@.dom()),
        rebuilt(g0, g1, site, id, r),
    ensures
        keys_agree(g1),
        g1.children_of@.dom() == g0.children_of@.dom().insert(id),
        g1.wf(),
{
    let segs0 = seg_map(g0.path_segments);
    assert(touched_segments(segs0, id).dom() =~= segs0.dom().insert(id));
    if site.page_map().contains_key(id) {
        site.page_registry.pages.lemma_exec_map();
        let source = site.page_map()[id];
        let plan = children_of_source(g1.collection_roots@.dom(), site, source);
        lemma_children_are_pages(g1.collection_roots@.dom(), site, source);
        lemma_ids_upto_pages(plan, site.page_registry.pages@.dom(), plan.len() as int);
        lemma_record_segments_dom(touched_segments(segs0, id), plan, plan.len() as int);
        assert(g1.parents_of@.dom() =~= g1.children_of@.dom());
        assert(seg_map(g1.path_segments).dom() =~= g1.children_of@.dom());
    } else {
        assert(seg_map(g1.path_segments).dom() =~= g1.children_of@.dom());
    }
}

} // verus!
