use vstd::prelude::*;
use crate::processor::{nav_tree, nav_children, nav_child, crumbs_up, first_parent};
use crate::graph::{Graph, parent_ids};
use crate::site_builder::SiteBuilder;

verus! {

/// Navigation goes from page `a` to page `b`: `a` is processed and published and one of
/// its child references names `b`.
pub open spec fn nav_step(site: SiteBuilder, a: Seq<char>, b: Seq<char>) -> bool {
    &&& site.page_map().contains_key(a)
    &&& site.page_map()[a].page_meta matches Some(m) && m.publish
    &&& exists|i: int| 0 <= i < site.page_map()[a].file_meta.children@.len()
        && #[trigger] nav_child(site, site.page_map()[a].file_meta.children@[i]@) == Some(b)
}

/// `c` is a walk of navigation steps through pages.
pub open spec fn nav_chain(site: SiteBuilder, c: Seq<Seq<char>>) -> bool {
    &&& c.len() > 0
    &&& forall|k: int| 0 <= k < c.len() ==> site.page_map().contains_key(#[trigger] c[k])
    &&& forall|k: int| 0 <= k < c.len() - 1 ==> #[trigger] nav_step(site, c[k], c[k + 1])
}

/// No walk of navigation steps comes back to where it started.
pub open spec fn no_nav_cycle(site: SiteBuilder) -> bool {
    forall|c: Seq<Seq<char>>| #[trigger] nav_chain(site, c) && c.len() > 1 ==> c[0] != c.last()
}

/// Without cycles, a walk never passes a page twice, so it is no longer than there are
/// pages.
proof fn lemma_chain_short(site: SiteBuilder, c: Seq<Seq<char>>)
    requires
        site.wf(),
        no_nav_cycle(site),
        nav_chain(site, c),
    ensures
        c.no_duplicates(),
        c.len() <= site.id_seq().len(),
{
    assert forall|i: int, j: int| 0 <= i < c.len() && 0 <= j < c.len() && i != j implies c[i] != c[j] by {
        let lo = if i < j { i } else { j };
        let hi = if i < j { j } else { i };
        let d = c.subrange(lo, hi + 1);
        assert forall|k: int| 0 <= k < d.len() - 1 implies #[trigger] nav_step(site, d[k], d[k + 1]) by {
            assert(d[k] == c[lo + k] && d[k + 1] == c[lo + k + 1]);
        }
        assert forall|k: int| 0 <= k < d.len() implies site.page_map().contains_key(#[trigger] d[k]) by {
            assert(d[k] == c[lo + k]);
        }
        assert(nav_chain(site, d));
        assert(d[0] == c[lo] && d.last() == c[hi]);
    }
    let pages = site.page_registry.pages;
    pages.lemma_dom();
    pages.lemma_exec_map();
    c.unique_seq_to_set();
    assert forall|x: Seq<char>| c.to_set().contains(x) implies pages@.dom().contains(x) by {
        let k = choose|k: int| 0 <= k < c.len() && c[k] == x;
        assert(site.page_map().contains_key(c[k]));
    }
    vstd::set_lib::lemma_len_subset(c.to_set(), pages@.dom());
}

/// One level more of depth changes no entry once the depth left and the walk so far
/// together exceed the number of pages.
proof fn lemma_tree_more_fuel(site: SiteBuilder, path: Seq<Seq<char>>, fuel: nat)
    requires
        site.wf(),
        no_nav_cycle(site),
        nav_chain(site, path),
        fuel + path.len() >= site.id_seq().len() + 1,
    ensures
        nav_tree(site, path.last(), fuel + 1) == nav_tree(site, path.last(), fuel),
    decreases fuel, 0int,
{
    lemma_chain_short(site, path);
    if fuel > 0 {
        let x = path.last();
        let page = site.page_map()[x];
        if page.page_meta matches Some(m) && m.publish {
            let chs = page.file_meta.children@;
            lemma_children_more_fuel(site, path, chs, (fuel - 1) as nat, chs.len() as int);
            assert((fuel + 1 - 1) as nat == fuel);
        }
    }
}

/// The same for the entries of the first `n` child references of the last page of `path`.
proof fn lemma_children_more_fuel(site: SiteBuilder, path: Seq<Seq<char>>, chs: Seq<String>, fuel: nat, n: int)
    requires
        site.wf(),
        no_nav_cycle(site),
        nav_chain(site, path),
        site.page_map()[path.last()].page_meta matches Some(m) && m.publish,
        chs == site.page_map()[path.last()].file_meta.children@,
        n <= chs.len(),
        fuel + 1 + path.len() >= site.id_seq().len() + 1,
    ensures
        nav_children(site, chs, fuel + 1, n) == nav_children(site, chs, fuel, n),
    decreases fuel, n,
{
    if n > 0 {
        lemma_children_more_fuel(site, path, chs, fuel, n - 1);
        if let Some(c) = nav_child(site, chs[n - 1]@) {
            let x = path.last();
            assert(nav_step(site, x, c));
            let p2 = path.push(c);
            assert(nav_chain(site, p2)) by {
                assert forall|k: int| 0 <= k < p2.len() - 1 implies #[trigger] nav_step(site, p2[k], p2[k + 1]) by {
                    if k < path.len() - 1 {
                        assert(p2[k] == path[k] && p2[k + 1] == path[k + 1]);
                    } else {
                        assert(p2[k] == x && p2[k + 1] == c);
                    }
                }
                assert forall|k: int| 0 <= k < p2.len() implies site.page_map().contains_key(#[trigger] p2[k]) by {
                    if k < path.len() {
                        assert(p2[k] == path[k]);
                    } else {
                        assert(site.page_map().contains_key(c));
                    }
                }
            }
            lemma_tree_more_fuel(site, p2, fuel);
            assert(p2.last() == c);
        }
    }
}

/// When child references form no cycle among processed, published pages, navigation is
/// never cut short: the depth bound (one more level than there are pages) is not reached,
/// so any larger bound gives the same entry.
pub proof fn lemma_navigation_bound_unreached(site: SiteBuilder, x: Seq<char>, fuel: nat)
    requires
        site.wf(),
        site.page_map().contains_key(x),
        no_nav_cycle(site),
        fuel >= site.id_seq().len() + 1,
    ensures
        nav_tree(site, x, fuel) == nav_tree(site, x, (site.id_seq().len() + 1) as nat),
    decreases fuel,
{
    let base = (site.id_seq().len() + 1) as nat;
    if fuel > base {
        lemma_navigation_bound_unreached(site, x, (fuel - 1) as nat);
        let path = seq![x];
        assert(nav_chain(site, path)) by {
            assert(path[0] == x);
        }
        assert(path.last() == x);
        lemma_tree_more_fuel(site, path, (fuel - 1) as nat);
    }
}

/// The first parent of a page is one of its parents, so it has children.
proof fn lemma_first_parent_has_children(g: Graph, x: Seq<char>)
    requires
        g.wf(),
    ensures
        first_parent(g, x) matches Some(p) ==> g.parents(x).contains(p) && g.children_of@.contains_key(p),
{
    if let Some(p) = first_parent(g, x) {
        g.parents_of.lemma_exec_map();
        let s = g.parents_of.exec_map()[x];
        assert(s.wf());
        s.lemma_dom();
        assert(parent_ids(g, x) == s.key_seq());
        assert(s.key_seq().to_set().contains(p));
        assert(g.parents(x).contains(p));
        assert(g.children(p).contains(x));
    }
}

/// Walking up through first parents with one step more to spare changes nothing while
/// the steps left outnumber the parent pages not yet passed.
proof fn lemma_crumbs_more_fuel(site: SiteBuilder, g: Graph, x: Seq<char>, seen: Set<Seq<char>>, fuel: nat)
    requires
        g.wf(),
        seen.subset_of(g.children_of@.dom()),
        fuel >= g.children_of@.dom().difference(seen).len() + 1,
    ensures
        crumbs_up(site, g, x, seen, fuel + 1) == crumbs_up(site, g, x, seen, fuel),
    decreases fuel,
{
    g.children_of.lemma_dom();
    lemma_first_parent_has_children(g, x);
    if let Some(p) = first_parent(g, x) {
        if !seen.contains(p) {
            let d = g.children_of@.dom();
            let seen2 = seen.insert(p);
            assert(d.difference(seen2) =~= d.difference(seen).remove(p));
            assert(d.difference(seen).contains(p));
            lemma_crumbs_more_fuel(site, g, p, seen2, (fuel - 1) as nat);
            assert((fuel + 1 - 1) as nat == fuel);
        }
    }
}

/// Breadcrumbs are never cut short: the walk up through first parents stops at a page
/// without parents or at one already passed before the bound on its steps (one more than
/// the pages with children) is reached, so any larger bound gives the same breadcrumbs.
pub proof fn lemma_breadcrumbs_bound_unreached(site: SiteBuilder, g: Graph, x: Seq<char>, fuel: nat)
    requires
        g.wf(),
        fuel >= g.children_of@.dom().len() + 1,
    ensures
        crumbs_up(site, g, x, Set::empty(), fuel) == crumbs_up(site, g, x, Set::empty(), (g.children_of@.dom().len() + 1) as nat),
    decreases fuel,
{
    let base = (g.children_of@.dom().len() + 1) as nat;
    if fuel > base {
        lemma_breadcrumbs_bound_unreached(site, g, x, (fuel - 1) as nat);
        g.children_of.lemma_dom();
        assert(g.children_of@.dom().difference(Set::empty()) =~= g.children_of@.dom());
        lemma_crumbs_more_fuel(site, g, x, Set::empty(), (fuel - 1) as nat);
    }
}

} // verus!
