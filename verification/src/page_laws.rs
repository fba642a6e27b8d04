use vstd::prelude::*;
use crate::graph::{Graph, parent_ids, listed_under};
use crate::models::NavModel;
use crate::processor::{page_url, nav_tree, breadcrumbs_of, crumbs_up, first_parent};
use crate::site_builder::{SiteBuilder, under_root_upto, gathered_under, page_segments, named_comps};
use crate::yaml::YamlModel;

verus! {

proof fn lemma_under_root_members(
    ids: Seq<Seq<char>>,
    pages: Seq<crate::models::PageSource>,
    root: Seq<Seq<char>>,
    n: int,
    x: Seq<char>,
)
    requires
        0 <= n <= ids.len(),
        n <= pages.len(),
    ensures
        (exists|k: int| 0 <= k < under_root_upto(ids, pages, root, n).len()
            && #[trigger] under_root_upto(ids, pages, root, n)[k].0 == x)
            <==> (exists|i: int| 0 <= i < n && #[trigger] ids[i] == x && gathered_under(pages[i], root)),
    decreases n,
{
    if n > 0 {
        lemma_under_root_members(ids, pages, root, n - 1, x);
        let prev = under_root_upto(ids, pages, root, n - 1);
        let cur = under_root_upto(ids, pages, root, n);
        if exists|k: int| 0 <= k < cur.len() && #[trigger] cur[k].0 == x {
            let k = choose|k: int| 0 <= k < cur.len() && #[trigger] cur[k].0 == x;
            if k < prev.len() {
                assert(cur[k] == prev[k]);
            } else {
                assert(ids[n - 1] == x);
            }
        }
        if exists|i: int| 0 <= i < n && #[trigger] ids[i] == x && gathered_under(pages[i], root) {
            let i = choose|i: int| 0 <= i < n && #[trigger] ids[i] == x && gathered_under(pages[i], root);
            if i < n - 1 {
                let k = choose|k: int| 0 <= k < prev.len() && #[trigger] prev[k].0 == x;
                assert(cur[k] == prev[k]);
            } else {
                assert(cur[prev.len() as int].0 == x);
            }
        }
    }
}

/// The pages a collection root gathers are exactly the pages whose path starts with the
/// root, except the index page that sits directly in the root; an index page in a
/// subdirectory of the root is gathered like any other page.
pub proof fn lemma_gathered_pages(site: SiteBuilder, root: Seq<Seq<char>>, x: Seq<char>)
    requires
        site.wf(),
    ensures
        (exists|k: int| 0 <= k < listed_under(site, root).len() && #[trigger] listed_under(site, root)[k].0 == x)
            <==> (site.page_map().contains_key(x) && {
            let p = site.page_map()[x];
            &&& root.len() <= p.rel_comps@.len()
            &&& p.rel_comps@.take(root.len() as int) == root
            &&& !(p.stem@ == seq!['i', 'n', 'd', 'e', 'x'] && p.parent_dir@ == root)
        }),
{
    let pm = site.page_registry.pages;
    let ids = site.id_seq();
    let pages = site.page_seq();
    pm.lemma_exec_map();
    assert(pages.len() == ids.len());
    lemma_under_root_members(ids, pages, root, ids.len() as int, x);
    if exists|i: int| 0 <= i < ids.len() && #[trigger] ids[i] == x && gathered_under(pages[i], root) {
        let i = choose|i: int| 0 <= i < ids.len() && #[trigger] ids[i] == x && gathered_under(pages[i], root);
        pm.lemma_at(i);
    }
    if site.page_map().contains_key(x) {
        assert(pm@.contains_key(x));
        assert(ids.contains(x));
        let i = choose|i: int| 0 <= i < ids.len() && ids[i] == x;
        pm.lemma_at(i);
    }
}

proof fn lemma_under_root_entries(
    ids: Seq<Seq<char>>,
    pages: Seq<crate::models::PageSource>,
    root: Seq<Seq<char>>,
    n: int,
    k: int,
) -> (i: int)
    requires
        0 <= n <= ids.len(),
        n <= pages.len(),
        0 <= k < under_root_upto(ids, pages, root, n).len(),
    ensures
        0 <= i < n,
        under_root_upto(ids, pages, root, n)[k] == (ids[i], page_segments(pages[i])),
    decreases n,
{
    let prev = under_root_upto(ids, pages, root, n - 1);
    if k < prev.len() {
        lemma_under_root_entries(ids, pages, root, n - 1, k)
    } else {
        n - 1
    }
}

proof fn lemma_plain_comps(c: Seq<Seq<char>>, n: int)
    requires
        0 <= n <= c.len(),
        forall|j: int| 0 <= j < c.len() ==> (#[trigger] c[j]).len() > 0 && c[j] != seq!['.'],
    ensures
        named_comps(c, n) == c.take(n),
    decreases n,
{
    if n > 0 {
        lemma_plain_comps(c, n - 1);
        assert(crate::path::cur_comp() =~= seq!['.']);
        assert(c.take(n) =~= c.take(n - 1).push(c[n - 1]));
    } else {
        assert(c.take(0) =~= Seq::<Seq<char>>::empty());
    }
}

/// Each page a collection root gathers comes with the components of its directory as its
/// path segments, when none of them is empty or `.`.
pub proof fn lemma_gathered_segments(site: SiteBuilder, root: Seq<Seq<char>>, k: int)
    requires
        site.wf(),
        0 <= k < listed_under(site, root).len(),
        forall|j: int| 0 <= j < site.page_map()[listed_under(site, root)[k].0].parent_dir@.len() ==> {
            let c = #[trigger] site.page_map()[listed_under(site, root)[k].0].parent_dir@[j];
            c.len() > 0 && c != seq!['.']
        },
    ensures
        site.page_map().contains_key(listed_under(site, root)[k].0),
        listed_under(site, root)[k].1 == site.page_map()[listed_under(site, root)[k].0].parent_dir@,
{
    let pm = site.page_registry.pages;
    let ids = site.id_seq();
    let pages = site.page_seq();
    pm.lemma_exec_map();
    assert(pages.len() == ids.len());
    let i = lemma_under_root_entries(ids, pages, root, ids.len() as int, k);
    pm.lemma_at(i);
    let d = pages[i].parent_dir@;
    lemma_plain_comps(d, d.len() as int);
    assert(d.take(d.len() as int) =~= d);
}

/// The URL of a page without path segments: `/` for the root index page, otherwise `/`
/// and `stem.html`.
pub proof fn lemma_url_without_segments(stem: Seq<char>)
    ensures
        page_url(seq![], stem) == if stem == seq!['i', 'n', 'd', 'e', 'x'] {
            seq!['/']
        } else {
            seq!['/'] + stem + seq!['.', 'h', 't', 'm', 'l']
        },
{
    assert(crate::processor::segs_text(seq![]) =~= Seq::<char>::empty());
    if stem == seq!['i', 'n', 'd', 'e', 'x'] {
        assert(page_url(seq![], stem) =~= seq!['/']);
    } else {
        assert(page_url(seq![], stem) =~= seq!['/'] + stem + seq!['.', 'h', 't', 'm', 'l']);
    }
}

/// One more path segment `s` puts `s/` into the URL right before the page's file name:
/// the URL with segments `segs` and then `s` is the URL with `segs`, without its file
/// name part, followed by `s`, `/`, and `stem.html`. With the URL without segments this
/// fixes the URL of every page: `/`, each segment and `/` in order, then `stem.html`.
pub proof fn lemma_url_one_more_segment(segs: Seq<Seq<char>>, s: Seq<char>, stem: Seq<char>)
    ensures
        ({
            let before = page_url(segs, stem);
            let file = if stem == seq!['i', 'n', 'd', 'e', 'x'] && segs.len() == 0 {
                Seq::<char>::empty()
            } else {
                stem + seq!['.', 'h', 't', 'm', 'l']
            };
            &&& before.len() >= file.len()
            &&& page_url(segs.push(s), stem) == before.take(before.len() - file.len()) + s + seq!['/'] + stem
                + seq!['.', 'h', 't', 'm', 'l']
        }),
{
    let t = crate::processor::segs_text(segs);
    let before = page_url(segs, stem);
    let file = if stem == seq!['i', 'n', 'd', 'e', 'x'] && segs.len() == 0 {
        Seq::<char>::empty()
    } else {
        stem + seq!['.', 'h', 't', 'm', 'l']
    };
    assert(segs.push(s).drop_last() =~= segs);
    assert(segs.push(s).last() == s);
    assert(before =~= seq!['/'] + t + file);
    assert(before.take(before.len() - file.len()) =~= seq!['/'] + t);
    assert(page_url(segs.push(s), stem) =~= seq!['/'] + t + s + seq!['/'] + stem + seq!['.', 'h', 't', 'm', 'l']);
}

/// The key `order`.
pub open spec fn order_key() -> Seq<char> {
    seq!['o', 'r', 'd', 'e', 'r']
}

/// A published, processed page whose attributes give `order` as an integer `v` has a
/// navigation entry whose order is `v` cut to `i32`.
pub proof fn lemma_nav_order_from_attribute(site: SiteBuilder, id: Seq<char>, fuel: nat, v: i64)
    requires
        fuel > 0,
        site.page_map()[id].page_meta matches Some(m) && m@.publish && m@.extra.contains_key(order_key())
            && (m@.extra[order_key()] == YamlModel::NegInt(v) || (0 <= v && m@.extra[order_key()]
            == YamlModel::PosInt(v as u64))),
    ensures
        nav_tree(site, id, fuel) matches Some(n) && n.order == Some(v as i32),
{
    assert(order_key() =~= seq!['o', 'r', 'd', 'e', 'r']);
}

/// A published, processed page whose attributes have no `order` has a navigation entry
/// without an order.
pub proof fn lemma_nav_order_absent(site: SiteBuilder, id: Seq<char>, fuel: nat)
    requires
        fuel > 0,
        site.page_map()[id].page_meta matches Some(m) && m@.publish && !m@.extra.contains_key(order_key()),
    ensures
        nav_tree(site, id, fuel) matches Some(n) && n.order is None,
{
    assert(order_key() =~= seq!['o', 'r', 'd', 'e', 'r']);
}

/// An `order` attribute that is no integer fitting in `i64` (null, a boolean, a float, a
/// string, a list, a mapping, or an integer beyond `i64`) gives no order.
pub proof fn lemma_nav_order_not_integer(site: SiteBuilder, id: Seq<char>, fuel: nat)
    requires
        fuel > 0,
        site.page_map()[id].page_meta matches Some(m) && m@.publish && m@.extra.contains_key(order_key()) && {
            let o = m@.extra[order_key()];
            ||| o is Null
            ||| o is Bool
            ||| o is Float
            ||| o is Str
            ||| o is List
            ||| o is Dict
            ||| (o matches YamlModel::PosInt(u) && u > i64::MAX)
        },
    ensures
        nav_tree(site, id, fuel) matches Some(n) && n.order is None,
{
    assert(order_key() =~= seq!['o', 'r', 'd', 'e', 'r']);
}

/// A tag on an integer `order` attribute does not change the order it gives.
pub proof fn lemma_nav_order_tagged(site: SiteBuilder, id: Seq<char>, fuel: nat, tag: Seq<char>, v: i64)
    requires
        fuel > 0,
        site.page_map()[id].page_meta matches Some(m) && m@.publish && m@.extra.contains_key(order_key())
            && (m@.extra[order_key()] == YamlModel::Tagged(tag, Box::new(YamlModel::NegInt(v))) || (0 <= v
            && m@.extra[order_key()] == YamlModel::Tagged(tag, Box::new(YamlModel::PosInt(v as u64))))),
    ensures
        nav_tree(site, id, fuel) matches Some(n) && n.order == Some(v as i32),
{
    assert(order_key() =~= seq!['o', 'r', 'd', 'e', 'r']);
    let m = site.page_map()[id].page_meta->0;
    let o = m@.extra[order_key()];
    assert(crate::yaml::untag(YamlModel::NegInt(v)) == YamlModel::NegInt(v));
    assert(crate::yaml::untag(YamlModel::PosInt(v as u64)) == YamlModel::PosInt(v as u64));
    if let YamlModel::Tagged(t, b) = o {
        assert(crate::yaml::untag(o) == crate::yaml::untag(*b));
    }
}

/// The first-parent chain above `y` leaves `seen` behind: following first parents from
/// `y`, each page reached is new (not in `seen`, nor reached before), and a page without
/// parents is reached within `n` steps.
pub open spec fn chain_clear(g: Graph, y: Seq<char>, seen: Set<Seq<char>>, n: nat) -> bool
    decreases n,
{
    if parent_ids(g, y).len() == 0 {
        true
    } else {
        let q = parent_ids(g, y)[0];
        n > 0 && !seen.contains(q) && chain_clear(g, q, seen.insert(q), (n - 1) as nat)
    }
}

proof fn lemma_crumbs_same(
    site: SiteBuilder,
    g: Graph,
    y: Seq<char>,
    s: Set<Seq<char>>,
    t: Set<Seq<char>>,
    n: nat,
    f1: nat,
    f2: nat,
)
    requires
        chain_clear(g, y, s, n),
        t.subset_of(s),
        n <= f1,
        n <= f2,
    ensures
        crumbs_up(site, g, y, s, f1) == crumbs_up(site, g, y, t, f2),
    decreases n,
{
    if parent_ids(g, y).len() > 0 {
        let q = parent_ids(g, y)[0];
        assert(first_parent(g, y) == Some(q));
        lemma_crumbs_same(site, g, q, s.insert(q), t.insert(q), (n - 1) as nat, (f1 - 1) as nat, (f2 - 1) as nat);
    } else {
        assert(first_parent(g, y) is None);
    }
}

/// The entry a published, processed page `p` gives in breadcrumbs.
pub open spec fn crumb_entry(site: SiteBuilder, p: Seq<char>) -> NavModel {
    let m = site.page_map()[p].page_meta->0;
    NavModel { title: m.title@, url: m.url@, children: Seq::empty(), order: None }
}

/// The last breadcrumb of a page is its first parent, when that parent is processed and
/// published.
pub proof fn lemma_last_crumb_is_first_parent(site: SiteBuilder, g: Graph, x: Seq<char>)
    requires
        parent_ids(g, x).len() > 0,
        site.page_map().contains_key(parent_ids(g, x)[0]),
        site.page_map()[parent_ids(g, x)[0]].page_meta matches Some(m) && m.publish,
    ensures
        breadcrumbs_of(site, g, x).len() > 0,
        breadcrumbs_of(site, g, x).last() == crumb_entry(site, parent_ids(g, x)[0]),
{
    let p = parent_ids(g, x)[0];
    let fuel = (g.children_of@.dom().len() + 1) as nat;
    assert(first_parent(g, x) == Some(p));
    let c = crumbs_up(site, g, x, Set::empty(), fuel);
    assert(c[0] == crumb_entry(site, p));
    assert(c.reverse()[c.len() - 1] == c[0]);
}

/// Breadcrumbs run from the top down: when the first-parent chain above `x`'s first
/// parent `p` has no cycle (it never comes back to `p` and ends within as many steps as
/// there are pages), the breadcrumbs of `x` are those of `p` followed by `p` itself (when
/// `p` is processed and published).
pub proof fn lemma_crumbs_extend_parent(site: SiteBuilder, g: Graph, x: Seq<char>)
    requires
        parent_ids(g, x).len() > 0,
        chain_clear(g, parent_ids(g, x)[0], Set::empty().insert(parent_ids(g, x)[0]), g.children_of@.dom().len()),
    ensures
        ({
            let p = parent_ids(g, x)[0];
            breadcrumbs_of(site, g, x) == if site.page_map().contains_key(p) && (site.page_map()[p].page_meta matches Some(
                m,
            ) && m.publish) {
                breadcrumbs_of(site, g, p).push(crumb_entry(site, p))
            } else {
                breadcrumbs_of(site, g, p)
            }
        }),
{
    let p = parent_ids(g, x)[0];
    let n = g.children_of@.dom().len();
    let fuel = (n + 1) as nat;
    assert(first_parent(g, x) == Some(p));
    let sp = Set::<Seq<char>>::empty().insert(p);
    lemma_crumbs_same(site, g, p, sp, Set::empty(), n, n, fuel);
    let rest = crumbs_up(site, g, p, sp, n);
    let c = crumbs_up(site, g, x, Set::empty(), fuel);
    let head = crate::processor::crumb_of(site, p);
    assert(c == head + rest);
    if site.page_map().contains_key(p) && (site.page_map()[p].page_meta matches Some(m) && m.publish) {
        assert(head == seq![crumb_entry(site, p)]);
        assert((head + rest).reverse() =~= rest.reverse().push(crumb_entry(site, p)));
    } else {
        assert(head =~= Seq::<NavModel>::empty());
        assert(head + rest =~= rest);
    }
}

} // verus!
