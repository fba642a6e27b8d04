use vstd::prelude::*;
use std::collections::VecDeque;
use crate::page_id::PageId;
use crate::path::PathKey;
use crate::site_builder::{IdSet, SiteBuilder, under_root_upto};
use crate::models::PageSource;
use crate::path::{spec_path_components, spec_without_extension, is_prefix};
use crate::error::{ErrorKind, ErrorCollector, ParserError};
use crate::page_id::page_id_debug;
use crate::sorted_map::{SortedMap, OrdKey, sorted_keys};
use crate::models::clone_strings;
use crate::text::concat_str;

verus! {

broadcast use vstd::set_lib::group_set_lib_default;

/// The identifiers of a sequence of pages.
pub open spec fn ids_of(v: Seq<PageId>) -> Seq<Seq<char>> {
    Seq::new(v.len(), |i: int| v[i]@)
}

/// The parents of `id`, in identifier order.
pub open spec fn parent_ids(g: Graph, id: Seq<char>) -> Seq<Seq<char>> {
    if g.parents_of.exec_map().contains_key(id) {
        g.parents_of.exec_map()[id].key_seq()
    } else {
        Seq::empty()
    }
}

/// Whether a node has no children.
pub open spec fn childless(g: Graph) -> spec_fn(Seq<char>) -> bool {
    |x: Seq<char>| g.incoming(x) == 0
}

/// Whether all the children of a node are in `done`.
pub open spec fn all_children_in(g: Graph, done: Set<Seq<char>>) -> spec_fn(Seq<char>) -> bool {
    |p: Seq<char>| g.children(p).subset_of(done)
}

/// Where the ordering starts: the pages without children, in identifier order.
pub open spec fn order_seeds(g: Graph, site: SiteBuilder) -> Seq<Seq<char>> {
    site.page_registry.pages.key_seq().filter(childless(g))
}

/// The parents of `u` that have all their children in `done`, in identifier order: those
/// that emitting `u` (the last of `done`) readies.
pub open spec fn completed_parents(g: Graph, u: Seq<char>, done: Set<Seq<char>>) -> Seq<Seq<char>> {
    parent_ids(g, u).filter(all_children_in(g, done))
}

/// Everything the ordering has queued once the first `n` nodes of `o` are emitted: the
/// starting pages, then, for each emitted node in turn, the parents it readies.
pub open spec fn kahn_queue(g: Graph, site: SiteBuilder, o: Seq<Seq<char>>, n: int) -> Seq<Seq<char>>
    decreases n,
{
    if n <= 0 {
        order_seeds(g, site)
    } else {
        kahn_queue(g, site, o, n - 1) + completed_parents(g, o[n - 1], o.take(n).to_set())
    }
}

/// The identifiers of `a` in identifier order.
pub open spec fn sorted_ids(a: Set<Seq<char>>) -> Seq<Seq<char>> {
    choose|s: Seq<Seq<char>>| sorted_keys::<PageId>(s) && s.to_set() == a
}

/// Whether a member of `a` has no children in `a`.
pub open spec fn local_start(g: Graph, a: Set<Seq<char>>) -> spec_fn(Seq<char>) -> bool {
    |x: Seq<char>| g.local_children(x, a).len() == 0
}

/// Whether a node is in `a` and has all its children in `a` within `done`.
pub open spec fn local_ready(g: Graph, a: Set<Seq<char>>, done: Set<Seq<char>>) -> spec_fn(Seq<char>) -> bool {
    |p: Seq<char>| a.contains(p) && g.local_children(p, a).subset_of(done)
}

/// The parents of `u` within `a` that have all their children in `a` within `done`, in
/// identifier order: those that emitting `u` readies in an ordering of `a`.
pub open spec fn local_completed(g: Graph, u: Seq<char>, a: Set<Seq<char>>, done: Set<Seq<char>>) -> Seq<Seq<char>> {
    parent_ids(g, u).filter(local_ready(g, a, done))
}

/// Everything the ordering of `a` has queued once the first `n` nodes of `o` are emitted:
/// the members of `a` without children in `a`, in identifier order, then, for each emitted
/// node in turn, the parents it readies.
pub open spec fn local_queue(g: Graph, a: Set<Seq<char>>, o: Seq<Seq<char>>, n: int) -> Seq<Seq<char>>
    decreases n,
{
    if n <= 0 {
        sorted_ids(a).filter(local_start(g, a))
    } else {
        local_queue(g, a, o, n - 1) + local_completed(g, o[n - 1], a, o.take(n).to_set())
    }
}

/// A strictly increasing enumeration of `a` is its identifiers in order.
proof fn lemma_sorted_ids(a: Set<Seq<char>>, ks: Seq<Seq<char>>)
    requires
        sorted_keys::<PageId>(ks),
        ks.to_set() == a,
    ensures
        sorted_ids(a) == ks,
{
    let s = sorted_ids(a);
    assert(sorted_keys::<PageId>(s) && s.to_set() == a);
    crate::sorted_map::lemma_sorted_unique::<PageId>(s, ks);
}

/// The local queue after `n` emitted nodes depends only on those `n` nodes.
proof fn lemma_local_queue_prefix(g: Graph, a: Set<Seq<char>>, o1: Seq<Seq<char>>, o2: Seq<Seq<char>>, n: int)
    requires
        0 <= n <= o1.len(),
        n <= o2.len(),
        o1.take(n) == o2.take(n),
    ensures
        local_queue(g, a, o1, n) == local_queue(g, a, o2, n),
    decreases n,
{
    if n > 0 {
        assert(o1.take(n - 1) =~= o1.take(n).take(n - 1));
        assert(o2.take(n - 1) =~= o2.take(n).take(n - 1));
        lemma_local_queue_prefix(g, a, o1, o2, n - 1);
        assert(o1[n - 1] == o1.take(n)[n - 1]);
        assert(o2[n - 1] == o2.take(n)[n - 1]);
    }
}

/// Filtering one more element of `s`.
proof fn lemma_filter_take_step(s: Seq<Seq<char>>, f: spec_fn(Seq<char>) -> bool, j: int)
    requires
        0 <= j < s.len(),
    ensures
        s.take(j + 1).filter(f) == if f(s[j]) {
            s.take(j).filter(f).push(s[j])
        } else {
            s.take(j).filter(f)
        },
{
    reveal(Seq::filter);
    assert(s.take(j + 1).drop_last() =~= s.take(j));
    assert(s.take(j + 1).last() == s[j]);
}

/// Filtering nothing gives nothing.
proof fn lemma_filter_empty(s: Seq<Seq<char>>, f: spec_fn(Seq<char>) -> bool)
    requires
        s.len() == 0,
    ensures
        s.filter(f) == Seq::<Seq<char>>::empty(),
{
    reveal(Seq::filter);
    assert(s =~= Seq::<Seq<char>>::empty());
}

/// The queue after `n` emitted nodes depends only on those `n` nodes.
proof fn lemma_kahn_queue_prefix(g: Graph, site: SiteBuilder, o1: Seq<Seq<char>>, o2: Seq<Seq<char>>, n: int)
    requires
        0 <= n <= o1.len(),
        n <= o2.len(),
        o1.take(n) == o2.take(n),
    ensures
        kahn_queue(g, site, o1, n) == kahn_queue(g, site, o2, n),
    decreases n,
{
    if n > 0 {
        assert(o1.take(n - 1) =~= o1.take(n).take(n - 1));
        assert(o2.take(n - 1) =~= o2.take(n).take(n - 1));
        lemma_kahn_queue_prefix(g, site, o1, o2, n - 1);
        assert(o1[n - 1] == o1.take(n)[n - 1]);
        assert(o2[n - 1] == o2.take(n)[n - 1]);
    }
}

/// The members of an identifier set kept as a map.
pub open spec fn set_at(m: Map<Seq<char>, Map<Seq<char>, ()>>, x: Seq<char>) -> Set<Seq<char>> {
    if m.contains_key(x) {
        m[x].dom()
    } else {
        Set::empty()
    }
}


/// Every set kept in `m` is well formed.
pub open spec fn sets_wf(m: SortedMap<PageId, IdSet>) -> bool {
    forall|k: Seq<char>| #[trigger] m.exec_map().contains_key(k) ==> m.exec_map()[k].wf()
}

/// Adds `member` to the set kept under `key`, making that set when there is none;
/// says whether `member` is new there.
fn set_add(m: &mut SortedMap<PageId, IdSet>, key: &PageId, member: &PageId) -> (added: bool)
    requires
        old(m).wf(),
        sets_wf(*old(m)),
    ensures
        final(m).wf(),
        sets_wf(*final(m)),
        final(m)@.dom() == old(m)@.dom().insert(key@),
        forall|x: Seq<char>| #[trigger] set_at(final(m)@, x) == if x == key@ {
            set_at(old(m)@, x).insert(member@)
        } else {
            set_at(old(m)@, x)
        },
        added == !set_at(old(m)@, key@).contains(member@),
        set_at(final(m)@, key@).len() <= usize::MAX,
{
    proof {
        m.lemma_exec_map();
    }
    match m.find(key) {
        Ok(i) => {
            proof {
                m.lemma_at(i as int);
            }
            let mut s = m.value_at(i).clone_map();
            let added = !s.contains_key(member);
            s.insert(member.clone_key(), ());
            let ghost sv = s;
            proof {
                sv.lemma_dom();
                sv.lemma_len_bound();
            }
            m.set_value_at(i, s);
            proof {
                m.lemma_exec_map();
                assert forall|x: Seq<char>| #[trigger] set_at(m@, x) == if x == key@ {
                    set_at(old(m)@, x).insert(member@)
                } else {
                    set_at(old(m)@, x)
                } by {
                    if x == key@ {
                        assert(sv@.dom() =~= old(m)@[key@].dom().insert(member@));
                    }
                }
            }
            added
        },
        Err(_) => {
            let mut s: IdSet = SortedMap::new();
            s.insert(member.clone_key(), ());
            let ghost sv = s;
            proof {
                sv.lemma_dom();
                sv.lemma_len_bound();
            }
            m.insert(key.clone_key(), s);
            proof {
                m.lemma_exec_map();
                assert forall|x: Seq<char>| #[trigger] set_at(m@, x) == if x == key@ {
                    set_at(old(m)@, x).insert(member@)
                } else {
                    set_at(old(m)@, x)
                } by {
                    if x == key@ {
                        assert(sv@.dom() =~= Set::<Seq<char>>::empty().insert(member@));
                    }
                }
            }
            true
        },
    }
}

/// Takes `member` out of the set kept under `key`, when there is one.
fn set_remove(m: &mut SortedMap<PageId, IdSet>, key: &PageId, member: &PageId)
    requires
        old(m).wf(),
        sets_wf(*old(m)),
    ensures
        final(m).wf(),
        sets_wf(*final(m)),
        final(m)@.dom() == old(m)@.dom(),
        forall|x: Seq<char>| #[trigger] set_at(final(m)@, x) == if x == key@ {
            set_at(old(m)@, x).remove(member@)
        } else {
            set_at(old(m)@, x)
        },
{
    proof {
        m.lemma_exec_map();
    }
    match m.find(key) {
        Ok(i) => {
            proof {
                m.lemma_at(i as int);
            }
            let mut s = m.value_at(i).clone_map();
            s.remove(member);
            let ghost sv = s;
            m.set_value_at(i, s);
            proof {
                m.lemma_exec_map();
                assert forall|x: Seq<char>| #[trigger] set_at(m@, x) == if x == key@ {
                    set_at(old(m)@, x).remove(member@)
                } else {
                    set_at(old(m)@, x)
                } by {
                    if x == key@ {
                        assert(sv@.dom() =~= old(m)@[key@].dom().remove(member@));
                    }
                }
                assert(m@.dom() =~= old(m)@.dom());
            }
        },
        Err(_) => {
            assert forall|x: Seq<char>| #[trigger] set_at(m@, x) == if x == key@ {
                set_at(old(m)@, x).remove(member@)
            } else {
                set_at(old(m)@, x)
            } by {
                if x == key@ {
                    assert(set_at(old(m)@, x) =~= Set::<Seq<char>>::empty().remove(member@));
                }
            }
        },
    }
}

/// Gives `key` an empty set when it has none.
fn set_touch(m: &mut SortedMap<PageId, IdSet>, key: &PageId)
    requires
        old(m).wf(),
        sets_wf(*old(m)),
    ensures
        final(m).wf(),
        sets_wf(*final(m)),
        final(m)@.dom() == old(m)@.dom().insert(key@),
        forall|x: Seq<char>| #[trigger] set_at(final(m)@, x) == set_at(old(m)@, x),
{
    proof {
        m.lemma_exec_map();
    }
    if !m.contains_key(key) {
        let s: IdSet = SortedMap::new();
        let ghost sv = s;
        m.insert(key.clone_key(), s);
        proof {
            m.lemma_exec_map();
            assert forall|x: Seq<char>| #[trigger] set_at(m@, x) == set_at(old(m)@, x) by {
                if x == key@ {
                    assert(sv@.dom() =~= Set::<Seq<char>>::empty());
                }
            }
        }
    } else {
        assert(old(m)@.dom().insert(key@) =~= old(m)@.dom());
    }
}


/// The identifiers among the first `n` of a list of pages with their segments.
pub open spec fn ids_upto(ch: Seq<(Seq<char>, Seq<Seq<char>>)>, n: int) -> Set<Seq<char>>
    decreases n,
{
    if n <= 0 {
        Set::empty()
    } else {
        ids_upto(ch, n - 1).insert(ch[n - 1].0)
    }
}

/// Segments kept per page, as text.
pub open spec fn seg_map(m: SortedMap<PageId, Vec<String>>) -> Map<Seq<char>, Seq<Seq<char>>> {
    Map::new(|k: Seq<char>| m@.contains_key(k), |k: Seq<char>| m.exec_map()[k].deep_view())
}

/// The segments after recording the first `n` pairs in turn (a later pair for the
/// same page replaces an earlier one).
pub open spec fn record_segments(
    m: Map<Seq<char>, Seq<Seq<char>>>,
    ch: Seq<(Seq<char>, Seq<Seq<char>>)>,
    n: int,
) -> Map<Seq<char>, Seq<Seq<char>>>
    decreases n,
{
    if n <= 0 {
        m
    } else {
        record_segments(m, ch, n - 1).insert(ch[n - 1].0, ch[n - 1].1)
    }
}


/// A list of pages with their segments, as text.
pub open spec fn pairs_view(v: Seq<(PageId, Vec<String>)>) -> Seq<(Seq<char>, Seq<Seq<char>>)> {
    Seq::new(v.len(), |i: int| (v[i].0@, v[i].1.deep_view()))
}

/// The pages of `site` listed under `root`, in identifier order, with their segments.
pub open spec fn listed_under(site: SiteBuilder, root: Seq<Seq<char>>) -> Seq<(Seq<char>, Seq<Seq<char>>)> {
    under_root_upto(site.id_seq(), site.page_seq(), root, site.id_seq().len() as int)
}

/// The children that one child root `ch` names: the pages under it when it is a known
/// collection root, otherwise the page it names, with no segments, when there is one.
pub open spec fn root_contribution(
    roots: Set<Seq<Seq<char>>>,
    site: SiteBuilder,
    ch: Seq<char>,
) -> Seq<(Seq<char>, Seq<Seq<char>>)> {
    let path = spec_path_components(ch);
    if roots.contains(path) {
        listed_under(site, path)
    } else if site.page_registry.pages@.contains_key(spec_without_extension(ch)) {
        seq![(spec_without_extension(ch), Seq::<Seq<char>>::empty())]
    } else {
        Seq::empty()
    }
}

/// The children that the first `n` child roots name, one root after the other.
pub open spec fn roots_contribution(
    roots: Set<Seq<Seq<char>>>,
    site: SiteBuilder,
    chs: Seq<String>,
    n: int,
) -> Seq<(Seq<char>, Seq<Seq<char>>)>
    decreases n,
{
    if n <= 0 {
        Seq::empty()
    } else {
        roots_contribution(roots, site, chs, n - 1) + root_contribution(roots, site, chs[n - 1]@)
    }
}

/// The children of a page: those its child roots name when it has any; otherwise, for
/// an index page, the pages under its directory; otherwise none.
pub open spec fn children_of_source(
    roots: Set<Seq<Seq<char>>>,
    site: SiteBuilder,
    source: PageSource,
) -> Seq<(Seq<char>, Seq<Seq<char>>)> {
    if source.file_meta.children@.len() > 0 {
        roots_contribution(roots, site, source.file_meta.children@, source.file_meta.children@.len() as int)
    } else if source.spec_is_index() {
        listed_under(site, source.parent_dir@)
    } else {
        Seq::empty()
    }
}

/// Appends `more` to `out`.
fn append_pairs(out: &mut Vec<(PageId, Vec<String>)>, more: Vec<(PageId, Vec<String>)>)
    ensures
        pairs_view(final(out)@) == pairs_view(old(out)@) + pairs_view(more@),
{
    let mut more = more;
    let ghost m = more@;
    out.append(&mut more);
    assert(pairs_view(out@) =~= pairs_view(old(out)@) + pairs_view(m));
}


/// A child root `ch` names a directory of the site: some page's directory lies under it.
pub open spec fn names_directory(site: SiteBuilder, ch: Seq<char>) -> bool {
    exists|i: int|
        0 <= i < site.page_seq().len() && is_prefix(spec_path_components(ch), #[trigger] site.page_seq()[i].parent_dir@)
}

/// The collection roots that the first `n` of the child roots `chs` open: those that
/// name directories.
pub open spec fn dir_roots_upto(site: SiteBuilder, chs: Seq<String>, n: int) -> Set<Seq<Seq<char>>>
    decreases n,
{
    if n <= 0 {
        Set::empty()
    } else if names_directory(site, chs[n - 1]@) {
        dir_roots_upto(site, chs, n - 1).insert(spec_path_components(chs[n - 1]@))
    } else {
        dir_roots_upto(site, chs, n - 1)
    }
}

/// The collection roots that a page opens: the child roots that name directories when
/// it has child roots; otherwise its own directory when it is an index page.
pub open spec fn roots_of_page(site: SiteBuilder, p: PageSource) -> Set<Seq<Seq<char>>> {
    if p.file_meta.children@.len() > 0 {
        dir_roots_upto(site, p.file_meta.children@, p.file_meta.children@.len() as int)
    } else if p.spec_is_index() {
        Set::empty().insert(p.parent_dir@)
    } else {
        Set::empty()
    }
}

/// The collection roots opened by the first `n` pages, in identifier order.
pub open spec fn roots_upto(site: SiteBuilder, n: int) -> Set<Seq<Seq<char>>>
    decreases n,
{
    if n <= 0 {
        Set::empty()
    } else {
        roots_upto(site, n - 1).union(roots_of_page(site, site.page_seq()[n - 1]))
    }
}

/// The children, with segments, that the graph gives the `n`-th page: computed once the
/// pages up to it have opened their roots.
pub open spec fn built_children(site: SiteBuilder, n: int) -> Seq<(Seq<char>, Seq<Seq<char>>)> {
    children_of_source(roots_upto(site, n + 1), site, site.page_seq()[n])
}

/// The path segments after the first `n` pages have recorded their children's.
pub open spec fn segs_upto(site: SiteBuilder, n: int) -> Map<Seq<char>, Seq<Seq<char>>>
    decreases n,
{
    if n <= 0 {
        Map::new(|k: Seq<char>| site.page_registry.pages@.contains_key(k), |k: Seq<char>| Seq::<Seq<char>>::empty())
    } else {
        record_segments(segs_upto(site, n - 1), built_children(site, n - 1), built_children(site, n - 1).len() as int)
    }
}

/// The child references among the first `n` of `chs` that name neither a directory nor
/// a page, each with the page `id` that makes it.
pub open spec fn missing_in(site: SiteBuilder, id: Seq<char>, chs: Seq<String>, n: int) -> Seq<(Seq<char>, Seq<char>)>
    decreases n,
{
    if n <= 0 {
        Seq::empty()
    } else if !names_directory(site, chs[n - 1]@) && !site.page_registry.pages@.contains_key(
        spec_without_extension(chs[n - 1]@),
    ) {
        missing_in(site, id, chs, n - 1).push((id, chs[n - 1]@))
    } else {
        missing_in(site, id, chs, n - 1)
    }
}

/// The dangling child references of the first `n` pages, in order.
pub open spec fn missing_upto(site: SiteBuilder, n: int) -> Seq<(Seq<char>, Seq<char>)>
    decreases n,
{
    if n <= 0 {
        Seq::empty()
    } else {
        missing_upto(site, n - 1) + missing_in(
            site,
            site.id_seq()[n - 1],
            site.page_seq()[n - 1].file_meta.children@,
            site.page_seq()[n - 1].file_meta.children@.len() as int,
        )
    }
}

/// `w` is the warning that page `parent` names `reference`, which is no page.
pub open spec fn missing_warning(w: ParserError, parent: Seq<char>, reference: Seq<char>) -> bool {
    &&& (w.kind matches ErrorKind::MissingChildReference { parent_id, reference: r } && parent_id@
        == page_id_debug(parent) && r@ == reference)
    &&& w.file is None
    &&& w.span is None
    &&& w.source_content is None
}

/// The warnings after `before` and then one for each dangling reference in `refs`.
pub open spec fn warned(now: Seq<ParserError>, before: Seq<ParserError>, refs: Seq<(Seq<char>, Seq<char>)>) -> bool {
    &&& now.len() == before.len() + refs.len()
    &&& forall|k: int| 0 <= k < before.len() ==> #[trigger] now[k] == before[k]
    &&& forall|k: int| 0 <= k < refs.len() ==> missing_warning(#[trigger] now[before.len() + k], refs[k].0, refs[k].1)
}

/// The pages listed under a root are pages of the site.
pub proof fn lemma_listed_are_pages(site: SiteBuilder, root: Seq<Seq<char>>, n: int)
    requires
        site.wf(),
        0 <= n <= site.id_seq().len(),
    ensures
        forall|k: int| 0 <= k < under_root_upto(site.id_seq(), site.page_seq(), root, n).len()
            ==> site.page_registry.pages@.contains_key(#[trigger] under_root_upto(site.id_seq(), site.page_seq(), root, n)[k].0),
    decreases n,
{
    if n > 0 {
        lemma_listed_are_pages(site, root, n - 1);
        site.page_registry.pages.lemma_at(n - 1);
        let prev = under_root_upto(site.id_seq(), site.page_seq(), root, n - 1);
        let cur = under_root_upto(site.id_seq(), site.page_seq(), root, n);
        assert forall|k: int| 0 <= k < cur.len() implies site.page_registry.pages@.contains_key(#[trigger] cur[k].0) by {
            if k < prev.len() {
                assert(cur[k] == prev[k]);
            } else {
                assert(cur[k].0 == site.id_seq()[n - 1]);
            }
        }
    }
}

/// The children computed from the first `n` child roots are pages of the site.
proof fn lemma_contribution_pages(roots: Set<Seq<Seq<char>>>, site: SiteBuilder, chs: Seq<String>, n: int)
    requires
        site.wf(),
    ensures
        forall|k: int| 0 <= k < roots_contribution(roots, site, chs, n).len()
            ==> site.page_registry.pages@.contains_key(#[trigger] roots_contribution(roots, site, chs, n)[k].0),
    decreases n,
{
    if n > 0 {
        lemma_contribution_pages(roots, site, chs, n - 1);
        let prev = roots_contribution(roots, site, chs, n - 1);
        let last = root_contribution(roots, site, chs[n - 1]@);
        lemma_listed_are_pages(site, spec_path_components(chs[n - 1]@), site.id_seq().len() as int);
        assert forall|k: int| 0 <= k < (prev + last).len() implies site.page_registry.pages@.contains_key(#[trigger] (prev + last)[k].0) by {
            if k >= prev.len() {
                assert((prev + last)[k] == last[k - prev.len()]);
            }
        }
    }
}

/// The children the graph gives a page are pages of the site.
pub proof fn lemma_children_are_pages(roots: Set<Seq<Seq<char>>>, site: SiteBuilder, p: PageSource)
    requires
        site.wf(),
    ensures
        forall|k: int| 0 <= k < children_of_source(roots, site, p).len()
            ==> site.page_registry.pages@.contains_key(#[trigger] children_of_source(roots, site, p)[k].0),
{
    lemma_contribution_pages(roots, site, p.file_meta.children@, p.file_meta.children@.len() as int);
    lemma_listed_are_pages(site, p.parent_dir@, site.id_seq().len() as int);
}

/// Every identifier in a list of children is a page.
pub proof fn lemma_ids_upto_pages(ch: Seq<(Seq<char>, Seq<Seq<char>>)>, pages: Set<Seq<char>>, n: int)
    requires
        0 <= n <= ch.len(),
        forall|k: int| 0 <= k < ch.len() ==> pages.contains(#[trigger] ch[k].0),
    ensures
        ids_upto(ch, n).subset_of(pages),
    decreases n,
{
    if n > 0 {
        lemma_ids_upto_pages(ch, pages, n - 1);
    }
}

/// Warnings added in two rounds are the warnings of both, in order.
proof fn lemma_warned_trans(
    now: Seq<ParserError>,
    mid: Seq<ParserError>,
    before: Seq<ParserError>,
    r1: Seq<(Seq<char>, Seq<char>)>,
    r2: Seq<(Seq<char>, Seq<char>)>,
)
    requires
        warned(mid, before, r1),
        warned(now, mid, r2),
    ensures
        warned(now, before, r1 + r2),
{
    let r = r1 + r2;
    assert forall|k: int| 0 <= k < before.len() implies #[trigger] now[k] == before[k] by {
        assert(now[k] == mid[k]);
    }
    assert forall|k: int| 0 <= k < r.len() implies missing_warning(#[trigger] now[before.len() + k], r[k].0, r[k].1) by {
        if k < r1.len() {
            assert(now[before.len() + k] == mid[before.len() + k]);
        } else {
            assert(now[mid.len() + (k - r1.len())] == now[before.len() + k]);
        }
    }
}

/// Whether some directory in `dirs` lies under `path`.
/// The directories that hold pages.
fn page_dirs(registry: &SiteBuilder) -> (dirs: SortedMap<PathKey, ()>)
    requires
        registry.wf(),
    ensures
        dirs.wf(),
        forall|d: Seq<Seq<char>>| #[trigger] dirs@.contains_key(d) <==> exists|j: int|
            0 <= j < registry.id_seq().len() && #[trigger] registry.page_seq()[j].parent_dir@ == d,
{
    let pages = registry.get_pages();
    let mut dirs: SortedMap<PathKey, ()> = SortedMap::new();
    let mut i: usize = 0;
    while i < pages.len()
        invariant
            registry.wf(),
            *pages == registry.page_registry.pages,
            i <= pages.key_seq().len(),
            dirs.wf(),
            forall|d: Seq<Seq<char>>| #[trigger] dirs@.contains_key(d) <==> exists|j: int| 0 <= j < i && #[trigger] registry.page_seq()[j].parent_dir@ == d,
        decreases pages.key_seq().len() - i,
    {
        let page = pages.value_at(i);
        dirs.insert(page.parent_dir.clone_key(), ());
        assert forall|d: Seq<Seq<char>>| #[trigger] dirs@.contains_key(d) <==> exists|j: int| 0 <= j < i + 1 && #[trigger] registry.page_seq()[j].parent_dir@ == d by {
            if d == page.parent_dir@ {
                assert(registry.page_seq()[i as int].parent_dir@ == d);
            }
        }
        i = i + 1;
    }
    dirs
}

fn under_some_dir(dirs: &SortedMap<PathKey, ()>, path: &PathKey) -> (b: bool)
    requires
        dirs.wf(),
    ensures
        b == exists|d: Seq<Seq<char>>| #[trigger] dirs@.contains_key(d) && is_prefix(path@, d),
{
    let mut i: usize = 0;
    while i < dirs.len()
        invariant
            dirs.wf(),
            i <= dirs.key_seq().len(),
            forall|j: int| 0 <= j < i ==> !is_prefix(path@, #[trigger] dirs.key_seq()[j]),
        decreases dirs.key_seq().len() - i,
    {
        let d = dirs.key_at(i);
        if d.starts_with(path) {
            proof {
                dirs.lemma_at(i as int);
            }
            return true;
        }
        i = i + 1;
    }
    proof {
        dirs.lemma_dom();
        assert forall|d: Seq<Seq<char>>| #[trigger] dirs@.contains_key(d) implies !is_prefix(path@, d) by {
            assert(dirs.key_seq().to_set().contains(d));
            let j = choose|j: int| 0 <= j < dirs.key_seq().len() && dirs.key_seq()[j] == d;
        }
    }
    false
}


/// The message for a rebuild of a page the site does not have.
pub open spec fn not_found_message(id: Seq<char>) -> Seq<char> {
    "Node with ID "@ + page_id_debug(id) + " not found in registry during rebuild"@
}

/// The message for a rebuild whose affected pages cannot be ordered.
pub open spec fn cycle_message(id: Seq<char>) -> Seq<char> {
    "cycle detected in affected subgraph starting at "@ + page_id_debug(id)
}

/// The collection roots after page `p` is rebuilt: those there were, with the roots that
/// `p` opens as building does (its child roots that name directories, or its directory
/// when it is an index page without child roots).
pub open spec fn rebuild_roots(roots: Set<Seq<Seq<char>>>, site: SiteBuilder, p: PageSource) -> Set<Seq<Seq<char>>> {
    roots.union(roots_of_page(site, p))
}

/// The segments map with an empty entry for `id` when it has none.
pub open spec fn touched_segments(m: Map<Seq<char>, Seq<Seq<char>>>, id: Seq<char>) -> Map<Seq<char>, Seq<Seq<char>>> {
    if m.contains_key(id) {
        m
    } else {
        m.insert(id, Seq::empty())
    }
}

/// Some nonempty part of `a` in which every member has a child that is a member:
/// the members of a cycle and those above one.
pub open spec fn has_stuck_part(g: Graph, a: Set<Seq<char>>) -> bool {
    exists|s: Set<Seq<char>>|
        s.subset_of(a) && #[trigger] s.len() > 0 && s.finite() && forall|x: Seq<char>|
            s.contains(x) ==> exists|c: Seq<char>| #[trigger] g.children(x).contains(c) && s.contains(c)
}


/// `g` is the graph built from `site`: each page gathers the children its child roots
/// (or, for an index page, its directory) give it once the pages before it have opened
/// their collection roots; nodes are exactly the pages.
pub open spec fn built_from(g: Graph, site: SiteBuilder) -> bool {
    &&& g.wf()
    &&& forall|i: int| 0 <= i < site.id_seq().len() ==> #[trigger] g.children(site.id_seq()[i])
        == ids_upto(built_children(site, i), built_children(site, i).len() as int)
    &&& forall|x: Seq<char>| !site.page_registry.pages@.contains_key(x) ==> #[trigger] g.children(x)
        == Set::<Seq<char>>::empty()
    &&& g.collection_roots@.dom() == roots_upto(site, site.id_seq().len() as int)
    &&& seg_map(g.path_segments) == segs_upto(site, site.id_seq().len() as int)
    &&& g.incoming_edges@.dom() == site.page_registry.pages@.dom()
    &&& g.parents_of@.dom() == site.page_registry.pages@.dom()
    &&& g.children_of@.dom() == site.page_registry.pages@.dom()
}


/// A result, with text in place of page identifiers and strings.
pub open spec fn result_view(r: Result<Vec<PageId>, String>) -> Result<Seq<Seq<char>>, Seq<char>> {
    match r {
        Ok(v) => Ok(ids_of(v@)),
        Err(m) => Err(m@),
    }
}

/// What rebuilding page `id` of `site` does: graph `g0` becomes `g1` and `r` comes back.
pub open spec fn rebuilt(g0: Graph, g1: Graph, site: SiteBuilder, id: Seq<char>, r: Result<Seq<Seq<char>>, Seq<char>>) -> bool {
    &&& g1.wf()
    &&& g1.incoming_edges@.dom() == g0.incoming_edges@.dom().insert(id)
    &&& g1.children_of@.dom() == g0.children_of@.dom().insert(id)
    &&& (!site.page_map().contains_key(id) ==> {
                &&& r == Err::<Seq<Seq<char>>, Seq<char>>(not_found_message(id))
                &&& forall|x: Seq<char>| #[trigger] g1.children(x) == if x == id {
                    Set::<Seq<char>>::empty()
                } else {
                    g0.children(x)
                }
                &&& g1.parents_of@.dom() == g0.parents_of@.dom().insert(id)
                &&& g1.collection_roots == g0.collection_roots
                &&& seg_map(g1.path_segments) == touched_segments(seg_map(g0.path_segments), id)
            })
    &&& (site.page_map().contains_key(id) ==> {
                let source = site.page_map()[id];
                let plan = children_of_source(g1.collection_roots@.dom(), site, source);
                let a = Set::new(|x: Seq<char>| g1.reaches_up(id, x));
                &&& g1.collection_roots@.dom() == rebuild_roots(g0.collection_roots@.dom(), site, source)
                &&& forall|x: Seq<char>| #[trigger] g1.children(x) == if x == id {
                    ids_upto(plan, plan.len() as int)
                } else {
                    g0.children(x)
                }
                &&& g1.parents_of@.dom() == g0.parents_of@.dom().insert(id).union(ids_upto(plan, plan.len() as int))
                &&& seg_map(g1.path_segments) == record_segments(
                    touched_segments(seg_map(g0.path_segments), id),
                    plan,
                    plan.len() as int,
                )
                &&& match r {
                    Ok(order) => {
                        &&& order.no_duplicates()
                        &&& forall|x: Seq<char>| #[trigger] order.contains(x) <==> a.contains(x)
                        &&& forall|i: int| 0 <= i < order.len() ==> g1.local_children(#[trigger] order[i], a).subset_of(
                            order.take(i).to_set(),
                        )
                        &&& order == local_queue(g1, a, order, order.len() as int)
                    },
                    Err(m) => m == cycle_message(id) && has_stuck_part(g1, a),
                }
            })
}

/// Dependency graph between pages. An edge runs from a child page to the page that
/// gathers it (its parent); pages are processed children first.
pub struct Graph {
    /// Maps each page to its set of parent pages
    pub parents_of: SortedMap<PageId, IdSet>,
    /// Maps each page to its set of child pages
    pub children_of: SortedMap<PageId, IdSet>,
    /// Number of children of each page (the edges coming in)
    pub incoming_edges: SortedMap<PageId, usize>,
    /// Path segments for each page (used in URL construction)
    pub path_segments: SortedMap<PageId, Vec<String>>,
    /// Root directories that contain collections of pages
    pub collection_roots: SortedMap<PathKey, ()>,
}

impl Graph {
    /// The parents of `c`.
    pub open spec fn parents(&self, c: Seq<char>) -> Set<Seq<char>> {
        set_at(self.parents_of@, c)
    }

    /// The children of `p`.
    pub open spec fn children(&self, p: Seq<char>) -> Set<Seq<char>> {
        set_at(self.children_of@, p)
    }

    /// The recorded number of children of `p` (none recorded counts as zero).
    pub open spec fn incoming(&self, p: Seq<char>) -> nat {
        if self.incoming_edges@.contains_key(p) {
            self.incoming_edges@[p] as nat
        } else {
            0
        }
    }

    /// The maps are well formed, the parent and child relations mirror each other, and
    /// each page's count of incoming edges is its number of children.
    pub open spec fn wf(&self) -> bool {
        &&& self.parents_of.wf()
        &&& self.children_of.wf()
        &&& self.incoming_edges.wf()
        &&& self.path_segments.wf()
        &&& self.collection_roots.wf()
        &&& sets_wf(self.parents_of)
        &&& sets_wf(self.children_of)
        &&& forall|p: Seq<char>, c: Seq<char>| #[trigger] self.parents(c).contains(p) <==> #[trigger] self.children(p).contains(c)
        &&& forall|p: Seq<char>| #[trigger] self.children(p).finite()
        &&& forall|p: Seq<char>| #[trigger] self.incoming(p) == self.children(p).len()
    }

    /// Makes sure `id` has an entry in each of the page maps, leaving the relations as
    /// they are.
    fn touch_node(&mut self, id: &PageId)
        requires
            old(self).wf(),
        ensures
            final(self).wf(),
            final(self).incoming_edges@ == (if old(self).incoming_edges@.contains_key(id@) {
                old(self).incoming_edges@
            } else {
                old(self).incoming_edges@.insert(id@, 0usize)
            }),
            final(self).parents_of@.dom() == old(self).parents_of@.dom().insert(id@),
            final(self).children_of@.dom() == old(self).children_of@.dom().insert(id@),
            forall|x: Seq<char>| #[trigger] final(self).parents(x) == old(self).parents(x),
            forall|x: Seq<char>| #[trigger] final(self).children(x) == old(self).children(x),
            final(self).path_segments@ == (if old(self).path_segments@.contains_key(id@) {
                old(self).path_segments@
            } else {
                old(self).path_segments@.insert(id@, Seq::<String>::empty())
            }),
            seg_map(final(self).path_segments) == (if old(self).path_segments@.contains_key(id@) {
                seg_map(old(self).path_segments)
            } else {
                seg_map(old(self).path_segments).insert(id@, Seq::<Seq<char>>::empty())
            }),
            final(self).collection_roots == old(self).collection_roots,
    {
        proof {
            self.path_segments.lemma_exec_map();
        }
        if !self.incoming_edges.contains_key(id) {
            self.incoming_edges.insert(id.clone_key(), 0);
        }
        set_touch(&mut self.parents_of, id);
        set_touch(&mut self.children_of, id);
        if !self.path_segments.contains_key(id) {
            let segs: Vec<String> = Vec::new();
            self.path_segments.insert(id.clone_key(), segs);
            assert(segs@ =~= Seq::<String>::empty());
            proof {
                self.path_segments.lemma_exec_map();
                assert(segs.deep_view() =~= Seq::<Seq<char>>::empty());
                assert(seg_map(self.path_segments) =~= seg_map(old(self).path_segments).insert(id@, Seq::<Seq<char>>::empty()));
            }
        }
        assert forall|p: Seq<char>| #[trigger] self.incoming(p) == self.children(p).len() by {
            assert(old(self).incoming(p) == old(self).children(p).len());
        }
        assert forall|p: Seq<char>| #[trigger] self.children(p).finite() by {
            assert(old(self).children(p).finite());
        }
        assert forall|p: Seq<char>, c: Seq<char>| #[trigger] self.parents(c).contains(p) <==> #[trigger] self.children(p).contains(c) by {
            assert(old(self).parents(c).contains(p) <==> old(self).children(p).contains(c));
        }
    }

    /// Removes every edge into `id`: it no longer gathers any child.
    fn detach_parent(&mut self, id: &PageId)
        requires
            old(self).wf(),
        ensures
            final(self).wf(),
            forall|x: Seq<char>| #[trigger] final(self).children(x) == if x == id@ {
                Set::<Seq<char>>::empty()
            } else {
                old(self).children(x)
            },
            forall|x: Seq<char>| #[trigger] final(self).parents(x) == old(self).parents(x).remove(id@),
            final(self).children_of@.dom() == old(self).children_of@.dom().insert(id@),
            final(self).parents_of@.dom() == old(self).parents_of@.dom(),
            final(self).incoming_edges@ == (if old(self).incoming_edges@.contains_key(id@) {
                old(self).incoming_edges@.insert(id@, 0usize)
            } else {
                old(self).incoming_edges@
            }),
            final(self).path_segments == old(self).path_segments,
            final(self).collection_roots == old(self).collection_roots,
    {
        proof {
            self.children_of.lemma_exec_map();
        }
        match self.children_of.find(id) {
            Ok(i) => {
                proof {
                    self.children_of.lemma_at(i as int);
                }
                let children = self.children_of.value_at(i).clone_map();
                proof {
                    children.lemma_dom();
                }
                let ghost ks = children.key_seq();
                let mut j: usize = 0;
                while j < children.len()
                    invariant
                        children.wf(),
                        ks == children.key_seq(),
                        ks.to_set() == old(self).children(id@),
                        j <= ks.len(),
                        self.parents_of.wf(),
                        sets_wf(self.parents_of),
                        self.parents_of@.dom() == old(self).parents_of@.dom(),
                        forall|x: Seq<char>| #[trigger] self.parents(x) == if ks.take(j as int).contains(x) {
                            old(self).parents(x).remove(id@)
                        } else {
                            old(self).parents(x)
                        },
                        self.children_of == old(self).children_of,
                        self.incoming_edges == old(self).incoming_edges,
                        self.path_segments == old(self).path_segments,
                        self.collection_roots == old(self).collection_roots,
                    decreases ks.len() - j,
                {
                    let child = children.key_at(j);
                    let ghost before = self.parents_of@;
                    let ghost g0 = *self;
                    proof {
                        children.lemma_dom();
                        assert(ks.take(j + 1) =~= ks.take(j as int).push(ks[j as int]));
                        assert(ks.take(j + 1)[j as int] == ks[j as int]);
                        if ks.take(j as int).contains(ks[j as int]) {
                            let k = choose|k: int| 0 <= k < j && ks.take(j as int)[k] == ks[j as int];
                            assert(ks[k] == ks[j as int]);
                        }
                    }
                    set_remove(&mut self.parents_of, child, id);
                    assert forall|x: Seq<char>| #[trigger] self.parents(x) == if ks.take(j + 1).contains(x) {
                        old(self).parents(x).remove(id@)
                    } else {
                        old(self).parents(x)
                    } by {
                        if x == child@ {
                            assert(ks.take(j + 1).contains(x));
                            assert(g0.parents(x) == old(self).parents(x));
                            assert(set_at(before, x).remove(id@) =~= old(self).parents(x).remove(id@));
                        } else {
                            assert(ks.take(j + 1).contains(x) == ks.take(j as int).contains(x));
                            assert(g0.parents(x) == self.parents(x));
                        }
                    }
                    j = j + 1;
                }
                assert(ks.take(j as int) =~= ks);
                let ghost g1 = *self;
                if self.incoming_edges.contains_key(id) {
                    self.incoming_edges.insert(id.clone_key(), 0);
                }
                assert forall|x: Seq<char>| #[trigger] self.parents(x) == old(self).parents(x).remove(id@) by {
                    assert(ks.take(j as int).contains(x) == ks.contains(x));
                    assert(g1.parents(x) == self.parents(x));
                    if !ks.contains(x) {
                        assert(!ks.to_set().contains(x));
                        assert(old(self).parents(x).contains(id@) <==> old(self).children(id@).contains(x));
                        assert(!old(self).parents(x).contains(id@));
                        assert(old(self).parents(x).remove(id@) =~= old(self).parents(x));
                    }
                }
            },
            Err(_) => {
                assert forall|x: Seq<char>| #[trigger] self.parents(x) == old(self).parents(x).remove(id@) by {
                    assert(!old(self).children(id@).contains(x));
                    assert(old(self).parents(x).remove(id@) =~= old(self).parents(x));
                }
                if self.incoming_edges.contains_key(id) {
                    assert(old(self).incoming(id@) == 0);
                    assert(old(self).incoming_edges@.insert(id@, 0usize) =~= old(self).incoming_edges@);
                }
            },
        }
        let empty: IdSet = SortedMap::new();
        let ghost ev = empty;
        let ghost mid = *self;
        self.children_of.insert(id.clone_key(), empty);
        proof {
            self.children_of.lemma_exec_map();
            assert(ev@.dom() =~= Set::<Seq<char>>::empty());
            assert(self.children(id@) =~= Set::<Seq<char>>::empty());
            assert forall|x: Seq<char>| #[trigger] self.parents(x) == old(self).parents(x).remove(id@) by {
                assert(mid.parents(x) == old(self).parents(x).remove(id@));
            }
            assert forall|p: Seq<char>, c: Seq<char>| #[trigger] self.parents(c).contains(p) <==> #[trigger] self.children(p).contains(c) by {
                assert(old(self).parents(c).contains(p) <==> old(self).children(p).contains(c));
                if p == id@ {
                    assert(!self.parents(c).contains(p));
                }
            }
            assert forall|p: Seq<char>| #[trigger] self.incoming(p) == self.children(p).len() by {
                assert(old(self).incoming(p) == old(self).children(p).len());
            }
            assert forall|p: Seq<char>| #[trigger] self.children(p).finite() by {
                assert(old(self).children(p).finite());
            }
        }
    }

    /// The children of `source`, with the path segments each is listed with.
    fn compute_children(&self, registry: &SiteBuilder, source: &PageSource) -> (r: Vec<(PageId, Vec<String>)>)
        requires
            self.wf(),
            registry.wf(),
        ensures
            pairs_view(r@) == children_of_source(self.collection_roots@.dom(), *registry, *source),
    {
        let ghost roots = self.collection_roots@.dom();
        let mut results: Vec<(PageId, Vec<String>)> = Vec::new();
        let chs = source.child_roots();
        if chs.len() > 0 {
            let mut i: usize = 0;
            assert(pairs_view(results@) =~= roots_contribution(roots, *registry, chs@, 0));
            while i < chs.len()
                invariant
                    self.wf(),
                    registry.wf(),
                    roots == self.collection_roots@.dom(),
                    *chs == source.file_meta.children,
                    i <= chs@.len(),
                    pairs_view(results@) == roots_contribution(roots, *registry, chs@, i as int),
                decreases chs@.len() - i,
            {
                let ch = chs[i].as_str();
                let path = PathKey::from_str(ch);
                if self.collection_roots.contains_key(&path) {
                    let found = registry.under_root(&path);
                    assert(pairs_view(found@) =~= listed_under(*registry, path@));
                    append_pairs(&mut results, found);
                } else {
                    let page_id = PageId::new(ch);
                    if registry.get_pages().contains_key(&page_id) {
                        let ghost before = pairs_view(results@);
                        let segs: Vec<String> = Vec::new();
                        results.push((page_id, segs));
                        assert(segs.deep_view() =~= Seq::<Seq<char>>::empty());
                        assert(pairs_view(results@) =~= before + seq![(page_id@, Seq::<Seq<char>>::empty())]);
                    } else {
                        assert(pairs_view(results@) =~= pairs_view(results@) + Seq::<(Seq<char>, Seq<Seq<char>>)>::empty());
                    }
                }
                i = i + 1;
            }
        } else if source.is_index() {
            let found = registry.under_root(source.parent_dir());
            assert(pairs_view(found@) =~= listed_under(*registry, source.parent_dir@));
            results = found;
        } else {
            assert(pairs_view(results@) =~= Seq::<(Seq<char>, Seq<Seq<char>>)>::empty());
        }
        results
    }

    /// Records `root` as a collection root.
    fn add_root(&mut self, root: PathKey)
        requires
            old(self).wf(),
        ensures
            final(self).wf(),
            final(self).collection_roots@.dom() == old(self).collection_roots@.dom().insert(root@),
            final(self).parents_of == old(self).parents_of,
            final(self).children_of == old(self).children_of,
            final(self).incoming_edges == old(self).incoming_edges,
            final(self).path_segments == old(self).path_segments,
    {
        let ghost g0 = *self;
        self.collection_roots.insert(root, ());
        assert forall|p: Seq<char>, c: Seq<char>| #[trigger] self.parents(c).contains(p) <==> #[trigger] self.children(p).contains(c) by {
            assert(g0.parents(c).contains(p) <==> g0.children(p).contains(c));
        }
        assert forall|p: Seq<char>| #[trigger] self.children(p).finite() by {
            assert(g0.children(p).finite());
        }
        assert forall|p: Seq<char>| #[trigger] self.incoming(p) == self.children(p).len() by {
            assert(g0.incoming(p) == g0.children(p).len());
        }
    }

    /// Makes each listed page a child of `id`, recording its path segments.
    fn attach_children(&mut self, id: &PageId, children: Vec<(PageId, Vec<String>)>)
        requires
            old(self).wf(),
        ensures
            final(self).wf(),
            forall|x: Seq<char>| #[trigger] final(self).children(x) == if x == id@ {
                old(self).children(x).union(ids_upto(pairs_view(children@), children@.len() as int))
            } else {
                old(self).children(x)
            },
            forall|x: Seq<char>| #[trigger] final(self).parents(x) == if ids_upto(pairs_view(children@), children@.len() as int).contains(x) {
                old(self).parents(x).insert(id@)
            } else {
                old(self).parents(x)
            },
            final(self).children_of@.dom() == (if children@.len() > 0 {
                old(self).children_of@.dom().insert(id@)
            } else {
                old(self).children_of@.dom()
            }),
            final(self).parents_of@.dom() == old(self).parents_of@.dom().union(ids_upto(pairs_view(children@), children@.len() as int)),
            final(self).incoming_edges@.dom() == (if final(self).children(id@) == old(self).children(id@) {
                old(self).incoming_edges@.dom()
            } else {
                old(self).incoming_edges@.dom().insert(id@)
            }),
            seg_map(final(self).path_segments) == record_segments(seg_map(old(self).path_segments), pairs_view(children@), children@.len() as int),
            final(self).collection_roots == old(self).collection_roots,
    {
        let mut k: usize = 0;
        proof {
            assert(ids_upto(pairs_view(children@), 0) =~= Set::<Seq<char>>::empty());
            assert forall|x: Seq<char>| #[trigger] self.children(x) == if x == id@ {
                old(self).children(x).union(ids_upto(pairs_view(children@), 0))
            } else {
                old(self).children(x)
            } by {
                if x == id@ {
                    assert(old(self).children(x).union(ids_upto(pairs_view(children@), 0)) =~= old(self).children(x));
                }
            }
            assert(old(self).parents_of@.dom().union(ids_upto(pairs_view(children@), 0)) =~= old(self).parents_of@.dom());
        }
        while k < children.len()
            invariant
                old(self).wf(),
                self.wf(),
                k <= children@.len(),
                forall|x: Seq<char>| #[trigger] self.children(x) == if x == id@ {
                    old(self).children(x).union(ids_upto(pairs_view(children@), k as int))
                } else {
                    old(self).children(x)
                },
                forall|x: Seq<char>| #[trigger] self.parents(x) == if ids_upto(pairs_view(children@), k as int).contains(x) {
                    old(self).parents(x).insert(id@)
                } else {
                    old(self).parents(x)
                },
                self.children_of@.dom() == (if k > 0 {
                    old(self).children_of@.dom().insert(id@)
                } else {
                    old(self).children_of@.dom()
                }),
                self.parents_of@.dom() == old(self).parents_of@.dom().union(ids_upto(pairs_view(children@), k as int)),
                self.incoming_edges@.dom() == (if self.children(id@) == old(self).children(id@) {
                    old(self).incoming_edges@.dom()
                } else {
                    old(self).incoming_edges@.dom().insert(id@)
                }),
                seg_map(self.path_segments) == record_segments(seg_map(old(self).path_segments), pairs_view(children@), k as int),
                self.collection_roots == old(self).collection_roots,
            decreases children@.len() - k,
        {
            let cid = &children[k].0;
            let segs = clone_strings(&children[k].1);
            let ghost g0 = *self;
            let ghost seg0 = seg_map(self.path_segments);
            self.path_segments.insert(cid.clone_key(), segs);
            proof {
                self.path_segments.lemma_exec_map();
                assert(seg_map(self.path_segments) =~= seg0.insert(cid@, children@[k as int].1.deep_view()));
            }
            let _ = set_add(&mut self.children_of, id, cid);
            let added = set_add(&mut self.parents_of, cid, id);
            proof {
                assert(g0.parents(cid@).contains(id@) <==> g0.children(id@).contains(cid@));
                assert(g0.incoming(id@) == g0.children(id@).len());
            }
            if added {
                match self.incoming_edges.find(id) {
                    Ok(i) => {
                        proof {
                            self.incoming_edges.lemma_at(i as int);
                        }
                        let v = *self.incoming_edges.value_at(i);
                        self.incoming_edges.set_value_at(i, v + 1);
                    },
                    Err(_) => {
                        self.incoming_edges.insert(id.clone_key(), 1);
                    },
                }
            }
            proof {
                let n = k + 1;
                assert(ids_upto(pairs_view(children@), n as int) == ids_upto(pairs_view(children@), k as int).insert(cid@));
                assert forall|x: Seq<char>| #[trigger] self.children(x) == if x == id@ {
                    old(self).children(x).union(ids_upto(pairs_view(children@), n as int))
                } else {
                    old(self).children(x)
                } by {
                    assert(g0.children(x) == if x == id@ {
                        old(self).children(x).union(ids_upto(pairs_view(children@), k as int))
                    } else {
                        old(self).children(x)
                    });
                    if x == id@ {
                        assert(old(self).children(x).union(ids_upto(pairs_view(children@), n as int)) =~= old(self).children(x).union(ids_upto(pairs_view(children@), k as int)).insert(cid@));
                    }
                }
                assert forall|x: Seq<char>| #[trigger] self.parents(x) == if ids_upto(pairs_view(children@), n as int).contains(x) {
                    old(self).parents(x).insert(id@)
                } else {
                    old(self).parents(x)
                } by {
                    assert(g0.parents(x) == if ids_upto(pairs_view(children@), k as int).contains(x) {
                        old(self).parents(x).insert(id@)
                    } else {
                        old(self).parents(x)
                    });
                    if x == cid@ {
                        assert(g0.parents(x).insert(id@) =~= old(self).parents(x).insert(id@));
                    }
                }
                assert(self.parents_of@.dom() =~= old(self).parents_of@.dom().union(ids_upto(pairs_view(children@), n as int)));
                assert forall|p: Seq<char>, c: Seq<char>| #[trigger] self.parents(c).contains(p) <==> #[trigger] self.children(p).contains(c) by {
                    assert(g0.parents(c).contains(p) <==> g0.children(p).contains(c));
                    assert(g0.parents(c) == if ids_upto(pairs_view(children@), k as int).contains(c) {
                        old(self).parents(c).insert(id@)
                    } else {
                        old(self).parents(c)
                    });
                    assert(g0.children(p) == if p == id@ {
                        old(self).children(p).union(ids_upto(pairs_view(children@), k as int))
                    } else {
                        old(self).children(p)
                    });
                }
                assert forall|p: Seq<char>| #[trigger] self.children(p).finite() by {
                    assert(g0.children(p).finite());
                }
                assert forall|p: Seq<char>| #[trigger] self.incoming(p) == self.children(p).len() by {
                    assert(g0.incoming(p) == g0.children(p).len());
                    if p == id@ && added {
                        assert(self.children(p) == g0.children(p).insert(cid@));
                    }
                }
                assert(g0.children(id@) == old(self).children(id@).union(ids_upto(pairs_view(children@), k as int)));
                if added {
                    assert(self.children(id@).contains(cid@));
                    assert(!g0.children(id@).contains(cid@));
                    assert(!old(self).children(id@).contains(cid@));
                    assert(self.children(id@) != old(self).children(id@));
                    assert(self.incoming_edges@.dom() =~= old(self).incoming_edges@.dom().insert(id@));
                } else {
                    assert(self.children(id@) =~= g0.children(id@));
                }
            }
            k = k + 1;
        }
    }

    /// An empty graph.
    pub fn new() -> (g: Self)
        ensures
            g.wf(),
            forall|x: Seq<char>| g.parents(x) == Set::<Seq<char>>::empty(),
            forall|x: Seq<char>| g.children(x) == Set::<Seq<char>>::empty(),
            g.parents_of@ == Map::<Seq<char>, Map<Seq<char>, ()>>::empty(),
            g.children_of@ == Map::<Seq<char>, Map<Seq<char>, ()>>::empty(),
            g.incoming_edges@ == Map::<Seq<char>, usize>::empty(),
            g.path_segments@ == Map::<Seq<char>, Seq<String>>::empty(),
            g.collection_roots@ == Map::<Seq<Seq<char>>, ()>::empty(),
    {
        Graph {
            parents_of: SortedMap::new(),
            children_of: SortedMap::new(),
            incoming_edges: SortedMap::new(),
            path_segments: SortedMap::new(),
            collection_roots: SortedMap::new(),
        }
    }

    /// Builds the graph of a site: each page gathers the pages its child roots name (a
    /// directory that holds pages, or a page), or, for an index page without child roots,
    /// the pages under its directory. Child references that name neither a directory nor
    /// a page are reported as warnings, in page order.
    pub fn build(registry: &SiteBuilder, errors: &mut ErrorCollector) -> (r: Result<Graph, String>)
        requires
            registry.wf(),
        ensures
            r matches Ok(g) && built_from(g, *registry),
            final(errors).errors_seq() == old(errors).errors_seq(),
            warned(
                final(errors).warnings_seq(),
                old(errors).warnings_seq(),
                missing_upto(*registry, registry.id_seq().len() as int),
            ),
    {
        let ghost site = *registry;
        let ghost ids = registry.id_seq();
        let ghost pagedom = registry.page_registry.pages@.dom();
        let pages = registry.get_pages();
        proof {
            pages.lemma_dom();
        }
        let mut g = Graph::new();
        let mut i: usize = 0;
        proof {
            assert(ids.take(0).to_set() =~= Set::<Seq<char>>::empty());
            assert(seg_map(g.path_segments) =~= Map::new(|k: Seq<char>| ids.take(0).to_set().contains(k), |k: Seq<char>| Seq::<Seq<char>>::empty()));
        }
        while i < pages.len()
            invariant
                registry.wf(),
                *pages == registry.page_registry.pages,
                ids == pages.key_seq(),
                g.wf(),
                i <= ids.len(),
                forall|x: Seq<char>| #[trigger] g.children(x) == Set::<Seq<char>>::empty(),
                g.incoming_edges@.dom() == ids.take(i as int).to_set(),
                g.parents_of@.dom() == ids.take(i as int).to_set(),
                g.children_of@.dom() == ids.take(i as int).to_set(),
                seg_map(g.path_segments) == Map::new(|k: Seq<char>| ids.take(i as int).to_set().contains(k), |k: Seq<char>| Seq::<Seq<char>>::empty()),
                g.collection_roots@.dom() == Set::<Seq<Seq<char>>>::empty(),
            decreases ids.len() - i,
        {
            let ghost g0 = g;
            g.touch_node(pages.key_at(i));
            proof {
                let t1 = ids.take(i + 1).to_set();
                assert(ids.take(i + 1) =~= ids.take(i as int).push(ids[i as int]));
                ids.take(i as int).lemma_push_to_set_commute(ids[i as int]);
                assert(g.incoming_edges@.dom() =~= t1);
                assert(g.parents_of@.dom() =~= t1);
                assert(g.children_of@.dom() =~= t1);
                assert(seg_map(g.path_segments) =~= Map::new(|k: Seq<char>| t1.contains(k), |k: Seq<char>| Seq::<Seq<char>>::empty()));
                assert forall|x: Seq<char>| #[trigger] g.children(x) == Set::<Seq<char>>::empty() by {
                    assert(g0.children(x) == Set::<Seq<char>>::empty());
                }
            }
            i = i + 1;
        }
        proof {
            assert(ids.take(i as int) =~= ids);
            assert(ids.to_set() == pagedom);
            assert(seg_map(g.path_segments) =~= segs_upto(site, 0));
        }
        let dirs = page_dirs(registry);
        let mut i: usize = 0;
        proof {
            assert(roots_upto(site, 0) =~= Set::<Seq<Seq<char>>>::empty());
            assert(ids.take(0).to_set() =~= Set::<Seq<char>>::empty());
            assert(missing_upto(site, 0) =~= Seq::<(Seq<char>, Seq<char>)>::empty());
            assert(warned(errors.warnings_seq(), old(errors).warnings_seq(), missing_upto(site, 0)));
        }
        while i < pages.len()
            invariant
                registry.wf(),
                site == *registry,
                *pages == registry.page_registry.pages,
                ids == pages.key_seq(),
                ids.no_duplicates(),
                ids.to_set() == pagedom,
                pagedom == registry.page_registry.pages@.dom(),
                dirs.wf(),
                forall|d: Seq<Seq<char>>| #[trigger] dirs@.contains_key(d) <==> exists|j: int| 0 <= j < ids.len() && #[trigger] registry.page_seq()[j].parent_dir@ == d,
                g.wf(),
                i <= ids.len(),
                forall|j: int| 0 <= j < i ==> #[trigger] g.children(ids[j])
                    == ids_upto(built_children(site, j), built_children(site, j).len() as int),
                forall|x: Seq<char>| !ids.take(i as int).contains(x) ==> #[trigger] g.children(x) == Set::<Seq<char>>::empty(),
                g.collection_roots@.dom() == roots_upto(site, i as int),
                seg_map(g.path_segments) == segs_upto(site, i as int),
                g.incoming_edges@.dom() == pagedom,
                g.parents_of@.dom() == pagedom,
                g.children_of@.dom() == pagedom,
                errors.errors_seq() == old(errors).errors_seq(),
                warned(errors.warnings_seq(), old(errors).warnings_seq(), missing_upto(site, i as int)),
            decreases ids.len() - i,
        {
            let pid = pages.key_at(i);
            let node = pages.value_at(i);
            proof {
                pages.lemma_at(i as int);
            }
            let chs = node.child_roots();
            let ghost gtop = g;
            let ghost roots0 = g.collection_roots@.dom();
            let ghost warn0 = errors.warnings_seq();
            if chs.len() > 0 {
                let mut k: usize = 0;
                proof {
                    assert(dir_roots_upto(site, chs@, 0) =~= Set::<Seq<Seq<char>>>::empty());
                    assert(roots0.union(dir_roots_upto(site, chs@, 0)) =~= roots0);
                    assert(missing_in(site, pid@, chs@, 0) =~= Seq::<(Seq<char>, Seq<char>)>::empty());
                    assert(warned(errors.warnings_seq(), warn0, missing_in(site, pid@, chs@, 0)));
                }
                while k < chs.len()
                    invariant
                        registry.wf(),
                        site == *registry,
                        *pages == registry.page_registry.pages,
                        ids == pages.key_seq(),
                        i < ids.len(),
                        pid@ == ids[i as int],
                        *chs == site.page_seq()[i as int].file_meta.children,
                        g.parents_of == gtop.parents_of,
                        g.children_of == gtop.children_of,
                        g.incoming_edges == gtop.incoming_edges,
                        g.path_segments == gtop.path_segments,
                        dirs.wf(),
                        forall|d: Seq<Seq<char>>| #[trigger] dirs@.contains_key(d) <==> exists|j: int| 0 <= j < ids.len() && #[trigger] registry.page_seq()[j].parent_dir@ == d,
                        g.wf(),
                        k <= chs@.len(),
                        g.collection_roots@.dom() == roots0.union(dir_roots_upto(site, chs@, k as int)),
                        errors.errors_seq() == old(errors).errors_seq(),
                        warned(errors.warnings_seq(), warn0, missing_in(site, pid@, chs@, k as int)),
                    decreases chs@.len() - k,
                {
                    let ch = chs[k].as_str();
                    let path = PathKey::from_str(ch);
                    let ghost gk = g;
                    let ghost wk = errors.warnings_seq();
                    proof {
                        if names_directory(site, ch@) {
                            let j = choose|j: int| 0 <= j < site.page_seq().len() && is_prefix(spec_path_components(ch@), #[trigger] site.page_seq()[j].parent_dir@);
                            assert(dirs@.contains_key(site.page_seq()[j].parent_dir@));
                        }
                    }
                    if under_some_dir(&dirs, &path) {
                        proof {
                            let d = choose|d: Seq<Seq<char>>| #[trigger] dirs@.contains_key(d) && is_prefix(path@, d);
                            let j = choose|j: int| 0 <= j < ids.len() && #[trigger] registry.page_seq()[j].parent_dir@ == d;
                            assert(is_prefix(spec_path_components(ch@), site.page_seq()[j].parent_dir@));
                            assert(names_directory(site, ch@));
                        }
                        g.add_root(path);
                        assert(g.collection_roots@.dom() =~= roots0.union(dir_roots_upto(site, chs@, k + 1)));
                    } else {
                        let page_id = PageId::new(ch);
                        if !pages.contains_key(&page_id) {
                            let w = ParserError::missing_child_reference(pid.debug_string(), chs[k].clone());
                            errors.add_warning(w);
                        }
                        proof {
                            let before = missing_in(site, pid@, chs@, k as int);
                            let after = missing_in(site, pid@, chs@, k + 1);
                            assert forall|m: int| 0 <= m < after.len() implies missing_warning(#[trigger] errors.warnings_seq()[warn0.len() + m], after[m].0, after[m].1) by {
                                if m < before.len() {
                                    assert(errors.warnings_seq()[warn0.len() + m] == wk[warn0.len() + m]);
                                    assert(missing_warning(wk[warn0.len() + m], before[m].0, before[m].1));
                                }
                            }
                            assert forall|m: int| 0 <= m < warn0.len() implies #[trigger] errors.warnings_seq()[m] == warn0[m] by {
                                assert(errors.warnings_seq()[m] == wk[m]);
                            }
                        }
                    }
                    k = k + 1;
                }
                proof {
                    assert(roots_of_page(site, site.page_seq()[i as int]) == dir_roots_upto(site, chs@, chs@.len() as int));
                }
            } else if node.is_index() {
                g.add_root(node.parent_dir.clone_key());
                proof {
                    assert(g.collection_roots@.dom() =~= roots0.union(roots_of_page(site, site.page_seq()[i as int])));
                }
            } else {
                proof {
                    assert(roots0.union(roots_of_page(site, site.page_seq()[i as int])) =~= roots0);
                }
            }
            proof {
                assert(g.collection_roots@.dom() == roots_upto(site, i + 1));
                if chs@.len() == 0 {
                    assert(missing_in(site, pid@, chs@, 0) =~= Seq::<(Seq<char>, Seq<char>)>::empty());
                }
                assert(warned(errors.warnings_seq(), warn0, missing_in(site, pid@, chs@, chs@.len() as int)));
                lemma_warned_trans(errors.warnings_seq(), warn0, old(errors).warnings_seq(), missing_upto(site, i as int), missing_in(site, pid@, chs@, chs@.len() as int));
            }
            let children = g.compute_children(registry, node);
            let ghost g1 = g;
            proof {
                lemma_children_are_pages(g.collection_roots@.dom(), site, *node);
                lemma_ids_upto_pages(pairs_view(children@), pagedom, children@.len() as int);
            }
            g.attach_children(pid, children);
            proof {
                let bc = built_children(site, i as int);
                assert(pairs_view(children@) == bc);
                assert(!ids.take(i as int).contains(pid@)) by {
                    if ids.take(i as int).contains(pid@) {
                        let j = choose|j: int| 0 <= j < i && ids.take(i as int)[j] == pid@;
                        assert(ids[j] == ids[i as int]);
                    }
                }
                assert(gtop.children(pid@) == Set::<Seq<char>>::empty());
                assert(g1.children(pid@) == gtop.children(pid@));
                assert(g.children(pid@) =~= ids_upto(bc, bc.len() as int));
                assert forall|j: int| 0 <= j < i + 1 implies #[trigger] g.children(ids[j])
                    == ids_upto(built_children(site, j), built_children(site, j).len() as int) by {
                    if j < i {
                        assert(ids[j] != pid@);
                        assert(gtop.children(ids[j]) == ids_upto(built_children(site, j), built_children(site, j).len() as int));
                        assert(g1.children(ids[j]) == gtop.children(ids[j]));
                        assert(g1.children(ids[j]) == g.children(ids[j]));
                    }
                }
                assert(ids.take(i + 1) =~= ids.take(i as int).push(ids[i as int]));
                assert forall|x: Seq<char>| !ids.take(i + 1).contains(x) implies #[trigger] g.children(x) == Set::<Seq<char>>::empty() by {
                    assert(!ids.take(i as int).contains(x));
                    if x == pid@ {
                        assert(ids.take(i + 1)[i as int] == pid@);
                    }
                    assert(x != pid@);
                    assert(gtop.children(x) == Set::<Seq<char>>::empty());
                    assert(g1.children(x) == gtop.children(x));
                }
                assert(g.parents_of@.dom() =~= pagedom);
                assert(g.children_of@.dom() =~= pagedom);
                assert(g.incoming_edges@.dom() =~= pagedom);
                assert(missing_upto(site, i + 1) == missing_upto(site, i as int) + missing_in(
                    site,
                    ids[i as int],
                    site.page_seq()[i as int].file_meta.children@,
                    site.page_seq()[i as int].file_meta.children@.len() as int,
                ));
            }
            i = i + 1;
        }
        proof {
            assert(ids.take(i as int) =~= ids);
        }
        Ok(g)
    }

    /// A page to order: a page of the site, or a node of the graph that gathers children.
    pub open spec fn eligible(&self, site: SiteBuilder, x: Seq<char>) -> bool {
        site.page_registry.pages@.contains_key(x) || (self.incoming_edges@.contains_key(x) && self.children(x).len() > 0)
    }

    /// The nodes the ordering can reach.
    pub open spec fn universe(&self, site: SiteBuilder) -> Set<Seq<char>> {
        site.page_registry.pages@.dom().union(self.incoming_edges@.dom())
    }

    /// The state of the ordering: `out` has been emitted and `q` waits, `cnt` counts each
    /// node's children not yet emitted.
    pub open spec fn kahn_inv(
        &self,
        site: SiteBuilder,
        cnt: SortedMap<PageId, usize>,
        out: Seq<Seq<char>>,
        q: Seq<Seq<char>>,
    ) -> bool {
        let done = out.to_set();
        let seen = out + q;
        &&& cnt.wf()
        &&& cnt@.dom() == self.incoming_edges@.dom()
        &&& forall|x: Seq<char>| #[trigger] cnt@.contains_key(x) ==> cnt@[x] as nat == self.children(x).difference(done).len()
        &&& seen.no_duplicates()
        &&& forall|k: int| 0 <= k < seen.len() ==> self.eligible(site, #[trigger] seen[k])
        &&& forall|k: int| 0 <= k < out.len() ==> self.children(#[trigger] out[k]).subset_of(out.take(k).to_set())
        &&& forall|k: int| 0 <= k < q.len() ==> self.children(#[trigger] q[k]).subset_of(done)
        &&& forall|x: Seq<char>| self.eligible(site, x) && #[trigger] self.children(x).subset_of(done) ==> seen.contains(x)
    }

    /// What is emitted or waiting fits in the nodes the ordering can reach.
    proof fn lemma_seen_bound(&self, site: SiteBuilder, seen: Seq<Seq<char>>)
        requires
            self.incoming_edges.wf(),
            site.wf(),
            seen.no_duplicates(),
            forall|k: int| 0 <= k < seen.len() ==> self.eligible(site, #[trigger] seen[k]),
        ensures
            seen.len() <= self.universe(site).len(),
            self.universe(site).finite(),
    {
        self.incoming_edges.lemma_dom();
        site.page_registry.pages.lemma_dom();
        seen.unique_seq_to_set();
        assert forall|x: Seq<char>| seen.to_set().contains(x) implies self.universe(site).contains(x) by {
            let k = choose|k: int| 0 <= k < seen.len() && seen[k] == x;
            assert(self.eligible(site, seen[k]));
        }
        vstd::set_lib::lemma_len_subset(seen.to_set(), self.universe(site));
    }

    /// Emitting `u` (the last of `out`): each of its parents has one child fewer to wait
    /// for, and those left with none join the queue, in identifier order.
    fn release_parents(
        &self,
        u: &PageId,
        cnt: &mut SortedMap<PageId, usize>,
        q: &mut VecDeque<PageId>,
        Ghost(site): Ghost<SiteBuilder>,
        Ghost(out): Ghost<Seq<Seq<char>>>,
    )
        requires
            self.wf(),
            site.wf(),
            out.len() > 0,
            out.last() == u@,
            old(cnt).wf(),
            old(cnt)@.dom() == self.incoming_edges@.dom(),
            forall|x: Seq<char>| #[trigger] old(cnt)@.contains_key(x) ==> old(cnt)@[x] as nat
                == self.children(x).difference(out.drop_last().to_set()).len(),
            (out + ids_of(old(q)@)).no_duplicates(),
            forall|k: int| 0 <= k < (out + ids_of(old(q)@)).len() ==> self.eligible(site, #[trigger] (out + ids_of(old(q)@))[k]),
            forall|k: int| 0 <= k < out.len() ==> self.children(#[trigger] out[k]).subset_of(out.take(k).to_set()),
            forall|k: int| 0 <= k < ids_of(old(q)@).len() ==> self.children(#[trigger] ids_of(old(q)@)[k]).subset_of(out.drop_last().to_set()),
            forall|x: Seq<char>| self.eligible(site, x) && #[trigger] self.children(x).subset_of(out.drop_last().to_set())
                ==> (out + ids_of(old(q)@)).contains(x),
        ensures
            self.kahn_inv(site, *final(cnt), out, ids_of(final(q)@)),
            final(q)@.len() >= old(q)@.len(),
            ids_of(final(q)@) == ids_of(old(q)@) + completed_parents(*self, u@, out.to_set()),
    {
        let ghost o = out.to_set();
        let ghost o0 = out.drop_last().to_set();
        let ghost q0 = ids_of(q@);
        proof {
            assert(out =~= out.drop_last().push(u@));
            out.drop_last().lemma_push_to_set_commute(u@);
            assert(o == o0.insert(u@));
            assert(!o0.contains(u@)) by {
                if o0.contains(u@) {
                    let k = choose|k: int| 0 <= k < out.drop_last().len() && out.drop_last()[k] == u@;
                    assert((out + q0)[k] == (out + q0)[out.len() - 1]);
                }
            }
        }
        match self.get_parents(u) {
            Some(parents) => {
                proof {
                    parents.lemma_dom();
                }
                let ghost ps = parents.key_seq();
                let ghost f = all_children_in(*self, o);
                let mut j: usize = 0;
                proof {
                    assert(ps == parent_ids(*self, u@));
                    assert(ps.take(0) =~= Seq::<Seq<char>>::empty());
                    lemma_filter_empty(ps.take(0), f);
                    assert(ids_of(q@) =~= q0 + ps.take(0).filter(f));
                    assert forall|x: Seq<char>| #[trigger] cnt@.contains_key(x) implies cnt@[x] as nat
                        == self.children(x).difference(o).len() + (if self.parents(u@).contains(x) && !ps.take(0).contains(x) { 1int } else { 0int }) by {
                        assert(self.parents(u@).contains(x) <==> self.children(x).contains(u@));
                        assert(self.children(x).finite());
                        if self.children(x).contains(u@) {
                            assert(self.children(x).difference(o) =~= self.children(x).difference(o0).remove(u@));
                            assert(self.children(x).difference(o0).contains(u@));
                        } else {
                            assert(self.children(x).difference(o) =~= self.children(x).difference(o0));
                        }
                    }
                    assert forall|x: Seq<char>| self.eligible(site, x) && #[trigger] self.children(x).subset_of(o)
                        implies (out + ids_of(q@)).contains(x) || (self.parents(u@).contains(x) && !ps.take(0).contains(x)) by {
                        if !self.children(x).subset_of(o0) {
                            let c = choose|c: Seq<char>| self.children(x).contains(c) && !o0.contains(c);
                            assert(o.contains(c));
                            assert(c == u@);
                            assert(self.parents(u@).contains(x) <==> self.children(x).contains(u@));
                        }
                    }
                }
                while j < parents.len()
                    invariant
                        self.wf(),
                        site.wf(),
                        parents.wf(),
                        ps == parents.key_seq(),
                        ps == parent_ids(*self, u@),
                        f == all_children_in(*self, o),
                        ids_of(q@) == q0 + ps.take(j as int).filter(f),
                        ps.no_duplicates(),
                        ps.to_set() == self.parents(u@),
                        j <= ps.len(),
                        out.len() > 0,
                        out.last() == u@,
                        o == out.to_set(),
                        o0 == out.drop_last().to_set(),
                        o == o0.insert(u@),
                        !o0.contains(u@),
                        q0 == ids_of(old(q)@),
                        cnt.wf(),
                        cnt@.dom() == self.incoming_edges@.dom(),
                        forall|x: Seq<char>| #[trigger] cnt@.contains_key(x) ==> cnt@[x] as nat
                            == self.children(x).difference(o).len() + (if self.parents(u@).contains(x) && !ps.take(j as int).contains(x) { 1int } else { 0int }),
                        ids_of(q@).len() >= q0.len(),
                        ids_of(q@).take(q0.len() as int) == q0,
                        (out + ids_of(q@)).no_duplicates(),
                        forall|k: int| 0 <= k < (out + ids_of(q@)).len() ==> self.eligible(site, #[trigger] (out + ids_of(q@))[k]),
                        forall|k: int| 0 <= k < out.len() ==> self.children(#[trigger] out[k]).subset_of(out.take(k).to_set()),
                        forall|k: int| 0 <= k < q0.len() ==> self.children(#[trigger] q0[k]).subset_of(o0),
                        forall|k: int| q0.len() <= k < ids_of(q@).len() ==> self.children(#[trigger] ids_of(q@)[k]).subset_of(o)
                            && ps.take(j as int).contains(ids_of(q@)[k]),
                        forall|x: Seq<char>| self.eligible(site, x) && #[trigger] self.children(x).subset_of(o)
                            ==> (out + ids_of(q@)).contains(x) || (self.parents(u@).contains(x) && !ps.take(j as int).contains(x)),
                    decreases ps.len() - j,
                {
                    let p = parents.key_at(j);
                    let ghost qj = ids_of(q@);
                    proof {
                        assert(ps.take(j + 1) =~= ps.take(j as int).push(ps[j as int]));
                        assert(ps.to_set().contains(ps[j as int]));
                        assert(self.parents(u@).contains(p@));
                        assert(self.children(p@).contains(u@));
                        assert(!ps.take(j as int).contains(p@)) by {
                            if ps.take(j as int).contains(p@) {
                                let m = choose|m: int| 0 <= m < j && ps.take(j as int)[m] == p@;
                                assert(ps[m] == ps[j as int]);
                            }
                        }
                    }
                    match cnt.find(p) {
                        Ok(k) => {
                            proof {
                                cnt.lemma_at(k as int);
                                assert(cnt@.contains_key(p@));
                            }
                            let e = *cnt.value_at(k);
                            let e2 = e.saturating_sub(1);
                            proof {
                                assert(e as nat == self.children(p@).difference(o).len() + 1);
                                assert(e2 == e - 1);
                            }
                            cnt.set_value_at(k, e2);
                            if e2 == 0 {
                                proof {
                                    assert(self.children(p@).finite());
                                    self.children(p@).difference(o).lemma_len0_is_empty();
                                    assert forall|c: Seq<char>| self.children(p@).contains(c) implies o.contains(c) by {
                                        if !o.contains(c) {
                                            assert(self.children(p@).difference(o).contains(c));
                                        }
                                    }
                                    assert(!(out + qj).contains(p@)) by {
                                        if (out + qj).contains(p@) {
                                            let m = choose|m: int| 0 <= m < (out + qj).len() && (out + qj)[m] == p@;
                                            if m < out.len() {
                                                assert(out[m] == p@);
                                                assert(self.children(out[m]).subset_of(out.take(m).to_set()));
                                                assert(out.take(m).to_set().contains(u@));
                                                let n = choose|n: int| 0 <= n < out.take(m).len() && out.take(m)[n] == u@;
                                                assert((out + q0)[n] == (out + q0)[out.len() - 1]);
                                            } else if m - out.len() < q0.len() {
                                                assert(q0[m - out.len()] == p@);
                                                assert(self.children(q0[m - out.len()]).subset_of(o0));
                                            } else {
                                                assert(qj[m - out.len()] == p@);
                                                assert(ps.take(j as int).contains(qj[m - out.len()]));
                                            }
                                        }
                                    }
                                }
                                q.push_back(p.clone_key());
                                proof {
                                    assert(ids_of(q@) =~= qj.push(p@));
                                    assert(out + ids_of(q@) =~= (out + qj).push(p@));
                                    assert(f(p@));
                                    lemma_filter_take_step(ps, f, j as int);
                                    assert(ids_of(q@) =~= q0 + ps.take(j + 1).filter(f));
                                }
                            } else {
                                proof {
                                    assert(!f(p@)) by {
                                        if self.children(p@).subset_of(o) {
                                            assert(self.children(p@).difference(o) =~= Set::<Seq<char>>::empty());
                                        }
                                    }
                                    lemma_filter_take_step(ps, f, j as int);
                                }
                            }
                        },
                        Err(_) => {
                            proof {
                                assert(!self.incoming_edges@.contains_key(p@));
                                assert(self.incoming(p@) == 0);
                                assert(self.children(p@).len() > 0) by {
                                    assert(self.children(p@).contains(u@));
                                    assert(self.children(p@).finite());
                                }
                                lemma_filter_take_step(ps, f, j as int);
                            }
                        },
                    }
                    proof {
                        let qn = ids_of(q@);
                        assert(qn.take(q0.len() as int) =~= q0) by {
                            assert(qn.take(qj.len() as int) =~= qj);
                            assert(qj.take(q0.len() as int) == q0);
                        }
                        assert forall|x: Seq<char>| #[trigger] cnt@.contains_key(x) implies cnt@[x] as nat
                            == self.children(x).difference(o).len() + (if self.parents(u@).contains(x) && !ps.take(j + 1).contains(x) { 1int } else { 0int }) by {
                            if x != p@ {
                                assert(ps.take(j + 1).contains(x) == ps.take(j as int).contains(x));
                            } else {
                                assert(ps.take(j + 1)[j as int] == p@);
                            }
                        }
                        assert forall|k: int| q0.len() <= k < qn.len() implies self.children(#[trigger] qn[k]).subset_of(o)
                            && ps.take(j + 1).contains(qn[k]) by {
                            if k < qj.len() {
                                assert(qn[k] == qj[k]);
                                let m = choose|m: int| 0 <= m < j && ps.take(j as int)[m] == qj[k];
                                assert(ps.take(j + 1)[m] == qj[k]);
                            } else {
                                assert(qn[k] == p@);
                                assert(ps.take(j + 1)[j as int] == p@);
                            }
                        }
                        assert forall|k: int| 0 <= k < q0.len() implies self.children(#[trigger] q0[k]).subset_of(o0) by {
                        }
                        assert forall|x: Seq<char>| self.eligible(site, x) && #[trigger] self.children(x).subset_of(o)
                            implies (out + qn).contains(x) || (self.parents(u@).contains(x) && !ps.take(j + 1).contains(x)) by {
                            if x == p@ {
                                if (out + qj).contains(x) {
                                    let m = choose|m: int| 0 <= m < (out + qj).len() && (out + qj)[m] == x;
                                    assert((out + qn)[m] == x);
                                } else {
                                    assert(self.incoming_edges@.contains_key(p@)) by {
                                        if !self.incoming_edges@.contains_key(p@) {
                                            assert(self.children(p@).contains(u@));
                                            assert(self.children(p@).len() > 0);
                                        }
                                    }
                                    assert(self.children(p@).difference(o) =~= Set::<Seq<char>>::empty());
                                    assert(qn.last() == p@);
                                    assert((out + qn)[(out + qn).len() - 1] == p@);
                                }
                            } else {
                                assert(ps.take(j + 1).contains(x) == ps.take(j as int).contains(x));
                                if (out + qj).contains(x) {
                                    let m = choose|m: int| 0 <= m < (out + qj).len() && (out + qj)[m] == x;
                                    assert((out + qn)[m] == x);
                                }
                            }
                        }
                        assert forall|k: int| 0 <= k < (out + qn).len() implies self.eligible(site, #[trigger] (out + qn)[k]) by {
                            if k < (out + qj).len() {
                                assert((out + qn)[k] == (out + qj)[k]);
                            } else {
                                assert((out + qn)[k] == p@);
                                assert(self.children(p@).contains(u@));
                            }
                        }
                    }
                    j = j + 1;
                }
                proof {
                    assert(ps.take(j as int) =~= ps);
                    assert(ids_of(q@) == q0 + completed_parents(*self, u@, out.to_set()));
                    let qn = ids_of(q@);
                    assert forall|x: Seq<char>| #[trigger] cnt@.contains_key(x) implies cnt@[x] as nat == self.children(x).difference(o).len() by {
                        if self.parents(u@).contains(x) {
                            assert(ps.to_set().contains(x));
                        }
                    }
                    assert forall|x: Seq<char>| self.eligible(site, x) && #[trigger] self.children(x).subset_of(o) implies (out + qn).contains(x) by {
                        if self.parents(u@).contains(x) {
                            assert(ps.to_set().contains(x));
                        }
                    }
                    assert forall|k: int| 0 <= k < qn.len() implies self.children(#[trigger] qn[k]).subset_of(o) by {
                        if k < q0.len() {
                            assert(qn[k] == qn.take(q0.len() as int)[k]);
                            assert(self.children(q0[k]).subset_of(o0));
                        }
                    }
                }
            },
            None => {
                proof {
                    lemma_filter_empty(parent_ids(*self, u@), all_children_in(*self, o));
                    assert(ids_of(q@) =~= q0 + completed_parents(*self, u@, out.to_set()));
                    assert forall|x: Seq<char>| !#[trigger] self.children(x).contains(u@) by {
                        assert(self.parents(u@).contains(x) <==> self.children(x).contains(u@));
                    }
                    assert forall|x: Seq<char>| #[trigger] cnt@.contains_key(x) implies cnt@[x] as nat == self.children(x).difference(o).len() by {
                        assert(!self.children(x).contains(u@));
                        assert(self.children(x).difference(o) =~= self.children(x).difference(o0));
                    }
                    assert forall|x: Seq<char>| self.eligible(site, x) && #[trigger] self.children(x).subset_of(o) implies (out + q0).contains(x) by {
                        assert(!self.children(x).contains(u@));
                        assert(self.children(x).subset_of(o0));
                    }
                    assert forall|k: int| 0 <= k < q0.len() implies self.children(#[trigger] q0[k]).subset_of(o) by {
                        assert(self.children(q0[k]).subset_of(o0));
                    }
                    assert forall|k: int| 0 <= k < out.len() implies self.children(#[trigger] out[k]).subset_of(out.take(k).to_set()) by {
                    }
                }
            },
        }
    }

    /// The children of `x` that lie in `a`.
    pub open spec fn local_children(&self, x: Seq<char>, a: Set<Seq<char>>) -> Set<Seq<char>> {
        self.children(x).intersect(a)
    }

    /// The state of the ordering of `a`: `out` has been emitted and `q` waits, `cnt` counts
    /// each member's children in `a` not yet emitted.
    pub open spec fn kahn_local_inv(
        &self,
        a: Set<Seq<char>>,
        cnt: SortedMap<PageId, usize>,
        out: Seq<Seq<char>>,
        q: Seq<Seq<char>>,
    ) -> bool {
        let done = out.to_set();
        let seen = out + q;
        &&& cnt.wf()
        &&& cnt@.dom() == a
        &&& forall|x: Seq<char>| #[trigger] cnt@.contains_key(x) ==> cnt@[x] as nat == self.local_children(x, a).difference(done).len()
        &&& seen.no_duplicates()
        &&& forall|k: int| 0 <= k < seen.len() ==> a.contains(#[trigger] seen[k])
        &&& forall|k: int| 0 <= k < out.len() ==> self.local_children(#[trigger] out[k], a).subset_of(out.take(k).to_set())
        &&& forall|k: int| 0 <= k < q.len() ==> self.local_children(#[trigger] q[k], a).subset_of(done)
        &&& forall|x: Seq<char>| a.contains(x) && #[trigger] self.local_children(x, a).subset_of(done) ==> seen.contains(x)
    }

    /// Within `affected` (closed under parents): emitting `u` (the last of `out`) leaves
    /// each of its parents one child fewer to wait for, and those left with none join the
    /// queue, in identifier order.
    fn release_affected(
        &self,
        u: &PageId,
        affected: &IdSet,
        cnt: &mut SortedMap<PageId, usize>,
        q: &mut VecDeque<PageId>,
        Ghost(a): Ghost<Set<Seq<char>>>,
        Ghost(out): Ghost<Seq<Seq<char>>>,
    )
        requires
            self.wf(),
            affected.wf(),
            a == affected@.dom(),
            forall|x: Seq<char>| #[trigger] a.contains(x) ==> self.parents(x).subset_of(a),
            out.len() > 0,
            out.last() == u@,
            old(cnt).wf(),
            old(cnt)@.dom() == a,
            forall|x: Seq<char>| #[trigger] old(cnt)@.contains_key(x) ==> old(cnt)@[x] as nat
                == self.local_children(x, a).difference(out.drop_last().to_set()).len(),
            (out + ids_of(old(q)@)).no_duplicates(),
            forall|k: int| 0 <= k < (out + ids_of(old(q)@)).len() ==> a.contains(#[trigger] (out + ids_of(old(q)@))[k]),
            forall|k: int| 0 <= k < out.len() ==> self.local_children(#[trigger] out[k], a).subset_of(out.take(k).to_set()),
            forall|k: int| 0 <= k < ids_of(old(q)@).len() ==> self.local_children(#[trigger] ids_of(old(q)@)[k], a).subset_of(out.drop_last().to_set()),
            forall|x: Seq<char>| a.contains(x) && #[trigger] self.local_children(x, a).subset_of(out.drop_last().to_set())
                ==> (out + ids_of(old(q)@)).contains(x),
        ensures
            self.kahn_local_inv(a, *final(cnt), out, ids_of(final(q)@)),
            final(q)@.len() >= old(q)@.len(),
            ids_of(final(q)@) == ids_of(old(q)@) + local_completed(*self, u@, a, out.to_set()),
    {
        let ghost o = out.to_set();
        let ghost o0 = out.drop_last().to_set();
        let ghost q0 = ids_of(q@);
        proof {
            assert(out =~= out.drop_last().push(u@));
            out.drop_last().lemma_push_to_set_commute(u@);
            assert(o == o0.insert(u@));
            assert(a.contains((out + q0)[out.len() - 1]));
            assert(a.contains(u@));
            assert(!o0.contains(u@)) by {
                if o0.contains(u@) {
                    let k = choose|k: int| 0 <= k < out.drop_last().len() && out.drop_last()[k] == u@;
                    assert((out + q0)[k] == (out + q0)[out.len() - 1]);
                }
            }
        }
        match self.get_parents(u) {
            Some(parents) => {
                proof {
                    parents.lemma_dom();
                }
                let ghost ps = parents.key_seq();
                let ghost f = local_ready(*self, a, o);
                let mut j: usize = 0;
                proof {
                    assert(ps == parent_ids(*self, u@));
                    assert(ps.take(0) =~= Seq::<Seq<char>>::empty());
                    lemma_filter_empty(ps.take(0), f);
                    assert(ids_of(q@) =~= q0 + ps.take(0).filter(f));
                    assert forall|x: Seq<char>| #[trigger] cnt@.contains_key(x) implies cnt@[x] as nat
                        == self.local_children(x, a).difference(o).len() + (if self.parents(u@).contains(x) && !ps.take(0).contains(x) { 1int } else { 0int }) by {
                        assert(self.parents(u@).contains(x) <==> self.local_children(x, a).contains(u@));
                        assert(self.local_children(x, a).finite());
                        if self.local_children(x, a).contains(u@) {
                            assert(self.local_children(x, a).difference(o) =~= self.local_children(x, a).difference(o0).remove(u@));
                            assert(self.local_children(x, a).difference(o0).contains(u@));
                        } else {
                            assert(self.local_children(x, a).difference(o) =~= self.local_children(x, a).difference(o0));
                        }
                    }
                    assert forall|x: Seq<char>| a.contains(x) && #[trigger] self.local_children(x, a).subset_of(o)
                        implies (out + ids_of(q@)).contains(x) || (self.parents(u@).contains(x) && !ps.take(0).contains(x)) by {
                        if !self.local_children(x, a).subset_of(o0) {
                            let c = choose|c: Seq<char>| self.local_children(x, a).contains(c) && !o0.contains(c);
                            assert(o.contains(c));
                            assert(c == u@);
                            assert(self.parents(u@).contains(x) <==> self.local_children(x, a).contains(u@));
                        }
                    }
                }
                while j < parents.len()
                    invariant
                        self.wf(),
                        affected.wf(),
                        a == affected@.dom(),
                        forall|x: Seq<char>| #[trigger] a.contains(x) ==> self.parents(x).subset_of(a),
                        a.contains(u@),
                        parents.wf(),
                        ps == parents.key_seq(),
                        ps == parent_ids(*self, u@),
                        f == local_ready(*self, a, o),
                        ids_of(q@) == q0 + ps.take(j as int).filter(f),
                        ps.no_duplicates(),
                        ps.to_set() == self.parents(u@),
                        j <= ps.len(),
                        out.len() > 0,
                        out.last() == u@,
                        o == out.to_set(),
                        o0 == out.drop_last().to_set(),
                        o == o0.insert(u@),
                        !o0.contains(u@),
                        q0 == ids_of(old(q)@),
                        cnt.wf(),
                        cnt@.dom() == a,
                        forall|x: Seq<char>| #[trigger] cnt@.contains_key(x) ==> cnt@[x] as nat
                            == self.local_children(x, a).difference(o).len() + (if self.parents(u@).contains(x) && !ps.take(j as int).contains(x) { 1int } else { 0int }),
                        ids_of(q@).len() >= q0.len(),
                        ids_of(q@).take(q0.len() as int) == q0,
                        (out + ids_of(q@)).no_duplicates(),
                        forall|k: int| 0 <= k < (out + ids_of(q@)).len() ==> a.contains(#[trigger] (out + ids_of(q@))[k]),
                        forall|k: int| 0 <= k < out.len() ==> self.local_children(#[trigger] out[k], a).subset_of(out.take(k).to_set()),
                        forall|k: int| 0 <= k < q0.len() ==> self.local_children(#[trigger] q0[k], a).subset_of(o0),
                        forall|k: int| q0.len() <= k < ids_of(q@).len() ==> self.local_children(#[trigger] ids_of(q@)[k], a).subset_of(o)
                            && ps.take(j as int).contains(ids_of(q@)[k]),
                        forall|x: Seq<char>| a.contains(x) && #[trigger] self.local_children(x, a).subset_of(o)
                            ==> (out + ids_of(q@)).contains(x) || (self.parents(u@).contains(x) && !ps.take(j as int).contains(x)),
                    decreases ps.len() - j,
                {
                    let p = parents.key_at(j);
                    let ghost qj = ids_of(q@);
                    proof {
                        assert(self.parents(u@).subset_of(a));
                        assert(ps.take(j + 1) =~= ps.take(j as int).push(ps[j as int]));
                        assert(ps.to_set().contains(ps[j as int]));
                        assert(self.parents(u@).contains(p@));
                        assert(self.local_children(p@, a).contains(u@));
                        assert(!ps.take(j as int).contains(p@)) by {
                            if ps.take(j as int).contains(p@) {
                                let m = choose|m: int| 0 <= m < j && ps.take(j as int)[m] == p@;
                                assert(ps[m] == ps[j as int]);
                            }
                        }
                    }
                    if affected.contains_key(p) {
                    match cnt.find(p) {
                        Ok(k) => {
                            proof {
                                cnt.lemma_at(k as int);
                                assert(cnt@.contains_key(p@));
                            }
                            let e = *cnt.value_at(k);
                            let e2 = e - 1;
                            proof {
                                assert(e as nat == self.local_children(p@, a).difference(o).len() + 1);
                                assert(e2 == e - 1);
                            }
                            cnt.set_value_at(k, e2);
                            if e2 == 0 {
                                proof {
                                    assert(self.local_children(p@, a).finite());
                                    self.local_children(p@, a).difference(o).lemma_len0_is_empty();
                                    assert forall|c: Seq<char>| self.local_children(p@, a).contains(c) implies o.contains(c) by {
                                        if !o.contains(c) {
                                            assert(self.local_children(p@, a).difference(o).contains(c));
                                        }
                                    }
                                    assert(!(out + qj).contains(p@)) by {
                                        if (out + qj).contains(p@) {
                                            let m = choose|m: int| 0 <= m < (out + qj).len() && (out + qj)[m] == p@;
                                            if m < out.len() {
                                                assert(out[m] == p@);
                                                assert(self.local_children(out[m], a).subset_of(out.take(m).to_set()));
                                                assert(out.take(m).to_set().contains(u@));
                                                let n = choose|n: int| 0 <= n < out.take(m).len() && out.take(m)[n] == u@;
                                                assert((out + q0)[n] == (out + q0)[out.len() - 1]);
                                            } else if m - out.len() < q0.len() {
                                                assert(q0[m - out.len()] == p@);
                                                assert(self.local_children(q0[m - out.len()], a).subset_of(o0));
                                            } else {
                                                assert(qj[m - out.len()] == p@);
                                                assert(ps.take(j as int).contains(qj[m - out.len()]));
                                            }
                                        }
                                    }
                                }
                                q.push_back(p.clone_key());
                                proof {
                                    assert(ids_of(q@) =~= qj.push(p@));
                                    assert(out + ids_of(q@) =~= (out + qj).push(p@));
                                    assert(f(p@));
                                    lemma_filter_take_step(ps, f, j as int);
                                    assert(ids_of(q@) =~= q0 + ps.take(j + 1).filter(f));
                                }
                            } else {
                                proof {
                                    assert(!f(p@)) by {
                                        if self.local_children(p@, a).subset_of(o) {
                                            assert(self.local_children(p@, a).difference(o) =~= Set::<Seq<char>>::empty());
                                        }
                                    }
                                    lemma_filter_take_step(ps, f, j as int);
                                }
                            }
                        },
                        Err(_) => {
                            proof {
                                assert(cnt@.contains_key(p@));
                                lemma_filter_take_step(ps, f, j as int);
                            }
                        },
                    }
                    } else {
                        proof {
                            assert(self.parents(u@).subset_of(a));
                            assert(!f(p@));
                            lemma_filter_take_step(ps, f, j as int);
                        }
                    }
                    proof {
                        let qn = ids_of(q@);
                        assert(qn.take(q0.len() as int) =~= q0) by {
                            assert(qn.take(qj.len() as int) =~= qj);
                            assert(qj.take(q0.len() as int) == q0);
                        }
                        assert forall|x: Seq<char>| #[trigger] cnt@.contains_key(x) implies cnt@[x] as nat
                            == self.local_children(x, a).difference(o).len() + (if self.parents(u@).contains(x) && !ps.take(j + 1).contains(x) { 1int } else { 0int }) by {
                            if x != p@ {
                                assert(ps.take(j + 1).contains(x) == ps.take(j as int).contains(x));
                            } else {
                                assert(ps.take(j + 1)[j as int] == p@);
                            }
                        }
                        assert forall|k: int| q0.len() <= k < qn.len() implies self.local_children(#[trigger] qn[k], a).subset_of(o)
                            && ps.take(j + 1).contains(qn[k]) by {
                            if k < qj.len() {
                                assert(qn[k] == qj[k]);
                                let m = choose|m: int| 0 <= m < j && ps.take(j as int)[m] == qj[k];
                                assert(ps.take(j + 1)[m] == qj[k]);
                            } else {
                                assert(qn[k] == p@);
                                assert(ps.take(j + 1)[j as int] == p@);
                            }
                        }
                        assert forall|k: int| 0 <= k < q0.len() implies self.local_children(#[trigger] q0[k], a).subset_of(o0) by {
                        }
                        assert forall|x: Seq<char>| a.contains(x) && #[trigger] self.local_children(x, a).subset_of(o)
                            implies (out + qn).contains(x) || (self.parents(u@).contains(x) && !ps.take(j + 1).contains(x)) by {
                            if x == p@ {
                                if (out + qj).contains(x) {
                                    let m = choose|m: int| 0 <= m < (out + qj).len() && (out + qj)[m] == x;
                                    assert((out + qn)[m] == x);
                                } else {
                                    assert(self.parents(u@).subset_of(a));
                                    assert(a.contains(p@));
                                    assert(self.local_children(p@, a).difference(o) =~= Set::<Seq<char>>::empty());
                                    assert(qn.last() == p@);
                                    assert((out + qn)[(out + qn).len() - 1] == p@);
                                }
                            } else {
                                assert(ps.take(j + 1).contains(x) == ps.take(j as int).contains(x));
                                if (out + qj).contains(x) {
                                    let m = choose|m: int| 0 <= m < (out + qj).len() && (out + qj)[m] == x;
                                    assert((out + qn)[m] == x);
                                }
                            }
                        }
                        assert forall|k: int| 0 <= k < (out + qn).len() implies a.contains(#[trigger] (out + qn)[k]) by {
                            if k < (out + qj).len() {
                                assert((out + qn)[k] == (out + qj)[k]);
                            } else {
                                assert((out + qn)[k] == p@);
                                assert(self.local_children(p@, a).contains(u@));
                            }
                        }
                    }
                    j = j + 1;
                }
                proof {
                    assert(ps.take(j as int) =~= ps);
                    assert(ids_of(q@) == q0 + local_completed(*self, u@, a, out.to_set()));
                    let qn = ids_of(q@);
                    assert forall|x: Seq<char>| #[trigger] cnt@.contains_key(x) implies cnt@[x] as nat == self.local_children(x, a).difference(o).len() by {
                        if self.parents(u@).contains(x) {
                            assert(ps.to_set().contains(x));
                        }
                    }
                    assert forall|x: Seq<char>| a.contains(x) && #[trigger] self.local_children(x, a).subset_of(o) implies (out + qn).contains(x) by {
                        if self.parents(u@).contains(x) {
                            assert(ps.to_set().contains(x));
                        }
                    }
                    assert forall|k: int| 0 <= k < qn.len() implies self.local_children(#[trigger] qn[k], a).subset_of(o) by {
                        if k < q0.len() {
                            assert(qn[k] == qn.take(q0.len() as int)[k]);
                            assert(self.local_children(q0[k], a).subset_of(o0));
                        }
                    }
                }
            },
            None => {
                proof {
                    lemma_filter_empty(parent_ids(*self, u@), local_ready(*self, a, o));
                    assert(ids_of(q@) =~= q0 + local_completed(*self, u@, a, out.to_set()));
                    assert forall|x: Seq<char>| !#[trigger] self.local_children(x, a).contains(u@) by {
                        assert(self.parents(u@).contains(x) <==> self.local_children(x, a).contains(u@));
                    }
                    assert forall|x: Seq<char>| #[trigger] cnt@.contains_key(x) implies cnt@[x] as nat == self.local_children(x, a).difference(o).len() by {
                        assert(!self.local_children(x, a).contains(u@));
                        assert(self.local_children(x, a).difference(o) =~= self.local_children(x, a).difference(o0));
                    }
                    assert forall|x: Seq<char>| a.contains(x) && #[trigger] self.local_children(x, a).subset_of(o) implies (out + q0).contains(x) by {
                        assert(!self.local_children(x, a).contains(u@));
                        assert(self.local_children(x, a).subset_of(o0));
                    }
                    assert forall|k: int| 0 <= k < q0.len() implies self.local_children(#[trigger] q0[k], a).subset_of(o) by {
                        assert(self.local_children(q0[k], a).subset_of(o0));
                    }
                    assert forall|k: int| 0 <= k < out.len() implies self.local_children(#[trigger] out[k], a).subset_of(out.take(k).to_set()) by {
                    }
                }
            },
        }
    }

    /// All nodes in an order where each comes after its children (children before
    /// parents). A page is listed exactly when all its children are; a node that is not a
    /// page is listed when it has children and all of them are. Nodes on a cycle, or
    /// gathering one, are left out. The order is that of a queue: first the pages without
    /// children, in identifier order; then, as each node is emitted, the parents it leaves
    /// with no child to wait for, in identifier order.
    pub fn order(&mut self, registry: &SiteBuilder) -> (out: Vec<PageId>)
        requires
            old(self).wf(),
            registry.wf(),
        ensures
            *final(self) == *old(self),
            ids_of(out@).no_duplicates(),
            forall|i: int| 0 <= i < out@.len() ==> old(self).children(#[trigger] ids_of(out@)[i]).subset_of(
                ids_of(out@).take(i).to_set(),
            ),
            forall|x: Seq<char>| #[trigger] ids_of(out@).contains(x) <==> (old(self).eligible(*registry, x) && old(self).children(
                x,
            ).subset_of(ids_of(out@).to_set())),
            ids_of(out@) == kahn_queue(*old(self), *registry, ids_of(out@), out@.len() as int),
    {
        let ghost site = *registry;
        let mut incoming = self.incoming_edges.clone_map();
        let pages = registry.get_pages();
        proof {
            pages.lemma_dom();
            incoming.lemma_dom();
            assert(incoming@ == self.incoming_edges@);
        }
        let mut q: VecDeque<PageId> = VecDeque::new();
        let ghost ids = pages.key_seq();
        let ghost mut idx: Seq<int> = Seq::empty();
        let mut i: usize = 0;
        proof {
            assert(ids_of(q@) =~= Seq::<Seq<char>>::empty());
            lemma_filter_empty(ids.take(0), childless(*self));
        }
        while i < pages.len()
            invariant
                self.wf(),
                registry.wf(),
                site == *registry,
                *pages == registry.page_registry.pages,
                ids == pages.key_seq(),
                ids.no_duplicates(),
                incoming.wf(),
                incoming@ == self.incoming_edges@,
                i <= ids.len(),
                idx.len() == ids_of(q@).len(),
                forall|k: int| 0 <= k < idx.len() ==> 0 <= #[trigger] idx[k] < i && ids_of(q@)[k] == ids[idx[k]]
                    && self.incoming(ids[idx[k]]) == 0,
                forall|k1: int, k2: int| 0 <= k1 < k2 < idx.len() ==> #[trigger] idx[k1] < #[trigger] idx[k2],
                forall|m: int| 0 <= m < i && self.incoming(#[trigger] ids[m]) == 0 ==> ids_of(q@).contains(ids[m]),
                ids_of(q@).no_duplicates(),
                ids_of(q@) == ids.take(i as int).filter(childless(*self)),
            decreases ids.len() - i,
        {
            let pid = pages.key_at(i);
            let c: usize = match incoming.get(pid) {
                Some(e) => *e,
                None => 0,
            };
            proof {
                pages.lemma_at(i as int);
                assert(c == self.incoming(pid@));
                lemma_filter_take_step(ids, childless(*self), i as int);
            }
            if c == 0 {
                let ghost q0 = ids_of(q@);
                let ghost idx0 = idx;
                q.push_back(pid.clone_key());
                proof {
                    idx = idx0.push(i as int);
                    let qn = ids_of(q@);
                    assert(qn =~= q0.push(pid@));
                    assert forall|k: int| 0 <= k < idx.len() implies 0 <= #[trigger] idx[k] < i + 1 && qn[k] == ids[idx[k]]
                        && self.incoming(ids[idx[k]]) == 0 by {
                        if k < idx0.len() {
                            assert(idx[k] == idx0[k]);
                            assert(qn[k] == q0[k]);
                        }
                    }
                    assert forall|k1: int, k2: int| 0 <= k1 < k2 < idx.len() implies #[trigger] idx[k1] < #[trigger] idx[k2] by {
                        if k2 < idx0.len() {
                            assert(idx[k1] == idx0[k1] && idx[k2] == idx0[k2]);
                        } else {
                            assert(idx[k1] == idx0[k1]);
                            assert(idx0[k1] < i);
                        }
                    }
                    assert forall|a: int, b: int| 0 <= a < qn.len() && 0 <= b < qn.len() && a != b implies qn[a] != qn[b] by {
                        assert(qn[a] == ids[idx[a]] && qn[b] == ids[idx[b]]);
                        if a < b {
                            assert(idx[a] < idx[b]);
                        } else {
                            assert(idx[b] < idx[a]);
                        }
                    }
                    assert forall|m: int| 0 <= m < i + 1 && self.incoming(#[trigger] ids[m]) == 0 implies qn.contains(ids[m]) by {
                        if m < i {
                            assert(q0.contains(ids[m]));
                            let k = choose|k: int| 0 <= k < q0.len() && q0[k] == ids[m];
                            assert(qn[k] == ids[m]);
                        } else {
                            assert(qn[q0.len() as int] == ids[m]);
                        }
                    }
                }
            } else {
                proof {
                    assert forall|m: int| 0 <= m < i + 1 && self.incoming(#[trigger] ids[m]) == 0 implies ids_of(q@).contains(ids[m]) by {
                        if m == i {
                            assert(ids[m] == pid@);
                        }
                    }
                }
            }
            i = i + 1;
        }
        let mut out: Vec<PageId> = Vec::new();
        proof {
            let q0 = ids_of(q@);
            assert(ids_of(out@) =~= Seq::<Seq<char>>::empty());
            assert(ids_of(out@).to_set() =~= Set::<Seq<char>>::empty());
            assert(ids_of(out@) + q0 =~= q0);
            assert forall|x: Seq<char>| #[trigger] incoming@.contains_key(x) implies incoming@[x] as nat
                == self.children(x).difference(ids_of(out@).to_set()).len() by {
                assert(self.children(x).difference(Set::<Seq<char>>::empty()) =~= self.children(x));
                assert(self.incoming(x) == self.children(x).len());
            }
            assert forall|k: int| 0 <= k < q0.len() implies self.eligible(site, #[trigger] q0[k]) by {
                assert(q0[k] == ids[idx[k]]);
                assert(ids.to_set().contains(q0[k]));
            }
            assert forall|k: int| 0 <= k < q0.len() implies self.children(#[trigger] q0[k]).subset_of(ids_of(out@).to_set()) by {
                assert(q0[k] == ids[idx[k]]);
                assert(self.incoming(q0[k]) == 0);
                assert(self.children(q0[k]).finite());
                self.children(q0[k]).lemma_len0_is_empty();
            }
            assert forall|x: Seq<char>| self.eligible(site, x) && #[trigger] self.children(x).subset_of(ids_of(out@).to_set())
                implies (ids_of(out@) + q0).contains(x) by {
                assert(self.children(x) =~= Set::<Seq<char>>::empty());
                assert(self.incoming(x) == 0);
                assert(pages@.contains_key(x));
                assert(ids.to_set().contains(x));
                let m = choose|m: int| 0 <= m < ids.len() && ids[m] == x;
                assert(q0.contains(ids[m]));
            }
            assert(self.kahn_inv(site, incoming, ids_of(out@), q0));
            self.lemma_seen_bound(site, ids_of(out@) + q0);
            assert(ids.take(i as int) =~= ids);
            assert(ids_of(out@) + q0 == kahn_queue(*self, site, ids_of(out@), 0));
        }
        while q.len() > 0
            invariant
                self.wf(),
                registry.wf(),
                site == *registry,
                self.kahn_inv(site, incoming, ids_of(out@), ids_of(q@)),
                ids_of(out@) + ids_of(q@) == kahn_queue(*self, site, ids_of(out@), out@.len() as int),
                self.universe(site).finite(),
                out@.len() + q@.len() <= self.universe(site).len(),
            decreases 2 * self.universe(site).len() - 2 * out@.len() - q@.len(),
        {
            let ghost o0 = ids_of(out@);
            let ghost q0 = ids_of(q@);
            let u = q.pop_front().unwrap();
            out.push(u.clone_key());
            proof {
                let o = ids_of(out@);
                let q1 = ids_of(q@);
                assert(o =~= o0.push(u@));
                assert(q1 =~= q0.drop_first());
                assert(o.drop_last() =~= o0);
                assert(o + q1 =~= o0 + q0);
                assert(u@ == q0[0]);
                assert forall|k: int| 0 <= k < o.len() implies self.children(#[trigger] o[k]).subset_of(o.take(k).to_set()) by {
                    if k < o0.len() {
                        assert(o.take(k) =~= o0.take(k));
                    } else {
                        assert(o.take(k) =~= o0);
                        assert(self.children(q0[0]).subset_of(o0.to_set()));
                    }
                }
                assert forall|k: int| 0 <= k < q1.len() implies self.children(#[trigger] q1[k]).subset_of(o.drop_last().to_set()) by {
                    assert(q1[k] == q0[k + 1]);
                }
            }
            let ghost q1 = ids_of(q@);
            self.release_parents(&u, &mut incoming, &mut q, Ghost(site), Ghost(ids_of(out@)));
            proof {
                self.lemma_seen_bound(site, ids_of(out@) + ids_of(q@));
                let o = ids_of(out@);
                let n = o0.len() as int;
                assert(o.take(n) =~= o0.take(n));
                lemma_kahn_queue_prefix(*self, site, o, o0, n);
                assert(o.take(n + 1) =~= o);
                assert(o[n] == u@);
                assert(kahn_queue(*self, site, o, n + 1) == kahn_queue(*self, site, o0, n)
                    + completed_parents(*self, u@, o.to_set()));
                assert(o + ids_of(q@) =~= o0 + q0 + completed_parents(*self, u@, o.to_set()));
            }
        }
        proof {
            let o = ids_of(out@);
            assert(ids_of(q@) =~= Seq::<Seq<char>>::empty());
            assert(o + ids_of(q@) =~= o);
            assert(o == kahn_queue(*self, site, o, o.len() as int));
            assert forall|x: Seq<char>| #[trigger] o.contains(x) implies (self.eligible(site, x) && self.children(x).subset_of(o.to_set())) by {
                let k = choose|k: int| 0 <= k < o.len() && o[k] == x;
                assert(self.eligible(site, o[k]));
                assert(self.children(o[k]).subset_of(o.take(k).to_set()));
                assert forall|c: Seq<char>| o.take(k).to_set().contains(c) implies o.to_set().contains(c) by {
                    let n = choose|n: int| 0 <= n < o.take(k).len() && o.take(k)[n] == c;
                    assert(o[n] == c);
                }
            }
        }
        out
    }

    /// `p` walks upwards: each step goes from a node to one of its parents.
    pub open spec fn parent_chain(&self, p: Seq<Seq<char>>) -> bool {
        p.len() > 0 && forall|k: int| 0 <= k < p.len() - 1 ==> #[trigger] self.parents(p[k]).contains(p[k + 1])
    }

    /// `to` is `from` or one of its ancestors.
    pub open spec fn reaches_up(&self, from: Seq<char>, to: Seq<char>) -> bool {
        exists|p: Seq<Seq<char>>| #[trigger] self.parent_chain(p) && p[0] == from && p.last() == to
    }

    /// A set that holds `from` and the parents of each of its members holds every
    /// ancestor of `from`.
    proof fn lemma_closed_holds_ancestors(&self, from: Seq<char>, a: Set<Seq<char>>, p: Seq<Seq<char>>)
        requires
            a.contains(from),
            forall|x: Seq<char>| #[trigger] a.contains(x) ==> self.parents(x).subset_of(a),
            self.parent_chain(p),
            p[0] == from,
        ensures
            a.contains(p.last()),
        decreases p.len(),
    {
        if p.len() > 1 {
            let q = p.drop_last();
            assert(self.parent_chain(q)) by {
                assert forall|k: int| 0 <= k < q.len() - 1 implies #[trigger] self.parents(q[k]).contains(q[k + 1]) by {
                    assert(self.parents(p[k]).contains(p[k + 1]));
                }
            }
            self.lemma_closed_holds_ancestors(from, a, q);
            let k = p.len() - 2;
            assert(self.parents(p[k]).contains(p[k + 1]));
            assert(q.last() == p[k]);
        }
    }

    /// The node `id` and all its ancestors.
    fn collect_affected(&self, id: &PageId) -> (a: IdSet)
        requires
            self.wf(),
        ensures
            a.wf(),
            forall|x: Seq<char>| #[trigger] a@.contains_key(x) <==> self.reaches_up(id@, x),
            forall|x: Seq<char>| #[trigger] a@.contains_key(x) ==> self.parents(x).subset_of(a@.dom()),
    {
        let ghost univ = self.children_of@.dom().insert(id@);
        let mut affected: IdSet = SortedMap::new();
        affected.insert(id.clone_key(), ());
        let mut stack: Vec<PageId> = Vec::new();
        stack.push(id.clone_key());
        proof {
            self.children_of.lemma_dom();
            assert(self.parent_chain(seq![id@]));
            assert(self.reaches_up(id@, id@));
            assert(affected@.dom() =~= Set::<Seq<char>>::empty().insert(id@));
            assert(ids_of(stack@)[0] == id@);
        }
        while stack.len() > 0
            invariant
                self.wf(),
                univ == self.children_of@.dom().insert(id@),
                univ.finite(),
                affected.wf(),
                affected@.contains_key(id@),
                affected@.dom().subset_of(univ),
                forall|x: Seq<char>| #[trigger] affected@.contains_key(x) ==> self.reaches_up(id@, x),
                forall|k: int| 0 <= k < stack@.len() ==> affected@.contains_key(#[trigger] stack@[k]@),
                forall|x: Seq<char>| #[trigger] affected@.contains_key(x) ==> ids_of(stack@).contains(x) || self.parents(x).subset_of(affected@.dom()),
            decreases 2 * (univ.len() - affected@.dom().len()) + stack@.len(),
        {
            proof {
                affected.lemma_dom();
                vstd::set_lib::lemma_len_subset(affected@.dom(), univ);
            }
            let ghost stack0 = stack@;
            let ghost a0 = affected@.dom();
            let n = stack.pop().unwrap();
            proof {
                assert(stack@ =~= stack0.drop_last());
                assert(n == stack0.last());
            }
            let ghost mid_stack = stack@;
            match self.get_parents(&n) {
                Some(parents) => {
                    let ghost ps = parents.key_seq();
                    proof {
                        parents.lemma_dom();
                    }
                    let mut j: usize = 0;
                    while j < parents.len()
                        invariant
                            self.wf(),
                            univ == self.children_of@.dom().insert(id@),
                            univ.finite(),
                            parents.wf(),
                            ps == parents.key_seq(),
                            ps.to_set() == self.parents(n@),
                            j <= ps.len(),
                            affected.wf(),
                            affected@.contains_key(id@),
                            affected@.contains_key(n@),
                            a0.subset_of(affected@.dom()),
                            affected@.dom().subset_of(univ),
                            forall|x: Seq<char>| #[trigger] affected@.contains_key(x) ==> self.reaches_up(id@, x),
                            forall|k: int| 0 <= k < stack@.len() ==> affected@.contains_key(#[trigger] stack@[k]@),
                            stack@.len() >= mid_stack.len(),
                            stack@.take(mid_stack.len() as int) == mid_stack,
                            forall|x: Seq<char>| #[trigger] affected@.contains_key(x) && !a0.contains(x) ==> ids_of(stack@).contains(x),
                            forall|k: int| 0 <= k < j ==> affected@.contains_key(#[trigger] ps[k]),
                            stack@.len() - mid_stack.len() == affected@.dom().len() - a0.len(),
                            affected@.dom().finite(),
                        decreases ps.len() - j,
                    {
                        let p = parents.key_at(j);
                        proof {
                            assert(ps.to_set().contains(ps[j as int]));
                            assert(self.parents(n@).contains(p@));
                            assert(self.children(p@).contains(n@));
                            assert(self.children_of@.contains_key(p@)) by {
                                if !self.children_of@.contains_key(p@) {
                                    assert(self.children(p@) =~= Set::<Seq<char>>::empty());
                                }
                            }
                        }
                        if !affected.contains_key(p) {
                            let ghost s0 = stack@;
                            let ghost d0 = affected@.dom();
                            proof {
                                let pn = choose|c: Seq<Seq<char>>| #[trigger] self.parent_chain(c) && c[0] == id@ && c.last() == n@;
                                let pp = pn.push(p@);
                                assert(self.parent_chain(pp)) by {
                                    assert forall|k: int| 0 <= k < pp.len() - 1 implies #[trigger] self.parents(pp[k]).contains(pp[k + 1]) by {
                                        if k < pn.len() - 1 {
                                            assert(self.parents(pn[k]).contains(pn[k + 1]));
                                        }
                                    }
                                }
                                assert(pp[0] == id@ && pp.last() == p@);
                            }
                            affected.insert(p.clone_key(), ());
                            stack.push(p.clone_key());
                            proof {
                                assert(affected@.dom() =~= d0.insert(p@));
                                assert(stack@.take(mid_stack.len() as int) =~= s0.take(mid_stack.len() as int));
                                assert(ids_of(stack@) =~= ids_of(s0).push(p@));
                                assert forall|x: Seq<char>| #[trigger] affected@.contains_key(x) && !a0.contains(x) implies ids_of(stack@).contains(x) by {
                                    if x == p@ {
                                        assert(ids_of(stack@)[s0.len() as int] == p@);
                                    } else {
                                        assert(ids_of(s0).contains(x));
                                        let k = choose|k: int| 0 <= k < ids_of(s0).len() && ids_of(s0)[k] == x;
                                        assert(ids_of(stack@)[k] == x);
                                    }
                                }
                            }
                        }
                        j = j + 1;
                    }
                    proof {
                        assert forall|x: Seq<char>| self.parents(n@).contains(x) implies affected@.contains_key(x) by {
                            assert(ps.to_set().contains(x));
                            let k = choose|k: int| 0 <= k < ps.len() && ps[k] == x;
                        }
                    }
                },
                None => {
                    proof {
                        assert(self.parents(n@) =~= Set::<Seq<char>>::empty());
                    }
                },
            }
            proof {
                affected.lemma_dom();
                vstd::set_lib::lemma_len_subset(affected@.dom(), univ);
                assert forall|x: Seq<char>| #[trigger] affected@.contains_key(x) implies ids_of(stack@).contains(x) || self.parents(x).subset_of(affected@.dom()) by {
                    if x == n@ {
                    } else if a0.contains(x) {
                        if ids_of(stack0).contains(x) {
                            let k = choose|k: int| 0 <= k < ids_of(stack0).len() && ids_of(stack0)[k] == x;
                            if k == stack0.len() - 1 {
                                assert(x == n@);
                            } else {
                                assert(stack@.take(mid_stack.len() as int)[k] == mid_stack[k]);
                                assert(ids_of(stack@)[k] == x);
                            }
                        } else {
                            assert(self.parents(x).subset_of(a0));
                        }
                    }
                }
            }
        }
        proof {
            assert forall|x: Seq<char>| #[trigger] affected@.contains_key(x) implies self.parents(x).subset_of(affected@.dom()) by {
                if ids_of(stack@).contains(x) {
                    let k = choose|k: int| 0 <= k < ids_of(stack@).len() && ids_of(stack@)[k] == x;
                }
            }
            assert forall|x: Seq<char>| self.reaches_up(id@, x) implies #[trigger] affected@.contains_key(x) by {
                let c = choose|c: Seq<Seq<char>>| #[trigger] self.parent_chain(c) && c[0] == id@ && c.last() == x;
                self.lemma_closed_holds_ancestors(id@, affected@.dom(), c);
            }
        }
        affected
    }

    /// For each member of `affected`, how many of its children are members too.
    fn local_indegrees(&self, affected: &IdSet) -> (m: SortedMap<PageId, usize>)
        requires
            self.wf(),
            affected.wf(),
        ensures
            m.wf(),
            m@.dom() == affected@.dom(),
            forall|x: Seq<char>| #[trigger] m@.contains_key(x) ==> m@[x] as nat == self.children(x).intersect(affected@.dom()).len(),
    {
        let ghost a = affected@.dom();
        let ghost pk = self.parents_of.key_seq();
        proof {
            self.parents_of.lemma_dom();
        }
        let mut m: SortedMap<PageId, usize> = SortedMap::new();
        let mut i: usize = 0;
        while i < affected.len()
            invariant
                self.wf(),
                affected.wf(),
                a == affected@.dom(),
                pk == self.parents_of.key_seq(),
                pk.no_duplicates(),
                pk.to_set() == self.parents_of@.dom(),
                i <= affected.key_seq().len(),
                m.wf(),
                m@.dom() == affected.key_seq().take(i as int).to_set(),
                forall|x: Seq<char>| #[trigger] m@.contains_key(x) ==> m@[x] as nat == self.children(x).intersect(a).len(),
            decreases affected.key_seq().len() - i,
        {
            let node = affected.key_at(i);
            let mut deg: usize = 0;
            let mut k: usize = 0;
            proof {
                assert(Set::new(|c: Seq<char>| pk.take(0).contains(c) && a.contains(c) && self.parents(c).contains(node@)) =~= Set::<Seq<char>>::empty());
            }
            while k < self.parents_of.len()
                invariant
                    self.wf(),
                    affected.wf(),
                    a == affected@.dom(),
                    pk == self.parents_of.key_seq(),
                    pk.no_duplicates(),
                    k <= pk.len(),
                    deg <= k,
                    deg as nat == Set::new(|c: Seq<char>| pk.take(k as int).contains(c) && a.contains(c) && self.parents(c).contains(node@)).len(),
                    Set::new(|c: Seq<char>| pk.take(k as int).contains(c) && a.contains(c) && self.parents(c).contains(node@)).finite(),
                decreases pk.len() - k,
            {
                let child = self.parents_of.key_at(k);
                let ps = self.parents_of.value_at(k);
                let ghost before = Set::new(|c: Seq<char>| pk.take(k as int).contains(c) && a.contains(c) && self.parents(c).contains(node@));
                let ghost after = Set::new(|c: Seq<char>| pk.take(k + 1).contains(c) && a.contains(c) && self.parents(c).contains(node@));
                proof {
                    self.parents_of.lemma_at(k as int);
                    self.parents_of.lemma_exec_map();
                    assert(ps.wf());
                    assert(pk.take(k + 1) =~= pk.take(k as int).push(pk[k as int]));
                    assert(!pk.take(k as int).contains(pk[k as int])) by {
                        if pk.take(k as int).contains(pk[k as int]) {
                            let n = choose|n: int| 0 <= n < k && pk.take(k as int)[n] == pk[k as int];
                            assert(pk[n] == pk[k as int]);
                        }
                    }
                }
                if affected.contains_key(child) && ps.contains_key(node) {
                    proof {
                        assert(self.parents(child@).contains(node@));
                        assert(pk.take(k + 1)[k as int] == child@);
                        let t1 = pk.take(k + 1);
                        let t0 = pk.take(k as int);
                        assert forall|c: Seq<char>| c != child@ implies (t1.contains(c) == t0.contains(c)) by {
                            if t1.contains(c) {
                                let n = choose|n: int| 0 <= n < t1.len() && t1[n] == c;
                                assert(t0[n] == c);
                            }
                            if t0.contains(c) {
                                let n = choose|n: int| 0 <= n < t0.len() && t0[n] == c;
                                assert(t1[n] == c);
                            }
                        }
                        assert(after =~= before.insert(child@));
                        assert(!before.contains(child@));
                    }
                    deg = deg + 1;
                } else {
                    proof {
                        let t1 = pk.take(k + 1);
                        let t0 = pk.take(k as int);
                        assert forall|c: Seq<char>| c != child@ implies (t1.contains(c) == t0.contains(c)) by {
                            if t1.contains(c) {
                                let n = choose|n: int| 0 <= n < t1.len() && t1[n] == c;
                                assert(t0[n] == c);
                            }
                            if t0.contains(c) {
                                let n = choose|n: int| 0 <= n < t0.len() && t0[n] == c;
                                assert(t1[n] == c);
                            }
                        }
                        assert(after =~= before);
                    }
                }
                k = k + 1;
            }
            proof {
                let counted = Set::new(|c: Seq<char>| pk.take(k as int).contains(c) && a.contains(c) && self.parents(c).contains(node@));
                assert(pk.take(k as int) =~= pk);
                assert(counted =~= self.children(node@).intersect(a)) by {
                    assert forall|c: Seq<char>| self.children(node@).intersect(a).contains(c) implies counted.contains(c) by {
                        assert(self.parents(c).contains(node@));
                        assert(self.parents_of@.contains_key(c)) by {
                            if !self.parents_of@.contains_key(c) {
                                assert(self.parents(c) =~= Set::<Seq<char>>::empty());
                            }
                        }
                        assert(pk.to_set().contains(c));
                    }
                }
            }
            let ghost m0 = m@;
            m.insert(node.clone_key(), deg);
            proof {
                let ks = affected.key_seq();
                assert(ks.take(i + 1) =~= ks.take(i as int).push(ks[i as int]));
                ks.take(i as int).lemma_push_to_set_commute(ks[i as int]);
            }
            i = i + 1;
        }
        proof {
            affected.lemma_dom();
            assert(affected.key_seq().take(i as int) =~= affected.key_seq());
        }
        m
    }

    /// Rebuilds the edges of page `id` after it changed, then orders `id` and all its
    /// ancestors, children before parents, in the order of a queue: first those without
    /// children among them, in identifier order; then, as each is emitted, the parents it
    /// leaves with no child among them to wait for, in identifier order. Fails when the
    /// site has no page `id` (after clearing its edges), or when those pages cannot be
    /// ordered (a cycle).
    pub fn rebuild(&mut self, registry: &SiteBuilder, id: &PageId) -> (r: Result<Vec<PageId>, String>)
        requires
            old(self).wf(),
            registry.wf(),
        ensures
            rebuilt(*old(self), *final(self), *registry, id@, result_view(r)),
    {
        let ghost g0 = *self;
        self.touch_node(id);
        self.detach_parent(id);
        let ghost g1 = *self;
        proof {
            registry.page_registry.pages.lemma_exec_map();
        }
        let source = match registry.get_pages().get(id) {
            Some(src) => src,
            None => {
                let q = id.debug_string();
                let head = concat_str("Node with ID ", q.as_str());
                let m = concat_str(head.as_str(), " not found in registry during rebuild");
                proof {
                    reveal_strlit("Node with ID ");
                    reveal_strlit(" not found in registry during rebuild");
                    assert forall|x: Seq<char>| #[trigger] self.children(x) == if x == id@ {
                        Set::<Seq<char>>::empty()
                    } else {
                        old(self).children(x)
                    } by {
                        assert(g1.children(x) == self.children(x));
                    }
                    assert(m@ =~= not_found_message(id@));
                    assert(result_view(Err(m)) == Err::<Seq<Seq<char>>, Seq<char>>(not_found_message(id@)));
                    assert(!registry.page_map().contains_key(id@));
                    assert(self.wf());
                    assert(self.incoming_edges@.dom() == old(self).incoming_edges@.dom().insert(id@));
                    assert(self.children_of@.dom() == old(self).children_of@.dom().insert(id@));
                    assert(self.parents_of@.dom() == old(self).parents_of@.dom().insert(id@));
                    assert(self.collection_roots == old(self).collection_roots);
                    assert(seg_map(self.path_segments) == touched_segments(seg_map(old(self).path_segments), id@));
                }
                return Err(m);
            },
        };
        let chs = source.child_roots();
        let ghost roots1 = self.collection_roots@.dom();
        let ghost site = *registry;
        if chs.len() > 0 {
            let dirs = page_dirs(registry);
            let mut k: usize = 0;
            proof {
                assert(roots1.union(dir_roots_upto(site, chs@, 0)) =~= roots1);
            }
            while k < chs.len()
                invariant
                    self.wf(),
                    registry.wf(),
                    site == *registry,
                    dirs.wf(),
                    forall|d: Seq<Seq<char>>| #[trigger] dirs@.contains_key(d) <==> exists|j: int|
                        0 <= j < registry.id_seq().len() && #[trigger] registry.page_seq()[j].parent_dir@ == d,
                    k <= chs@.len(),
                    self.collection_roots@.dom() == roots1.union(dir_roots_upto(site, chs@, k as int)),
                    self.parents_of == g1.parents_of,
                    self.children_of == g1.children_of,
                    self.incoming_edges == g1.incoming_edges,
                    self.path_segments == g1.path_segments,
                decreases chs@.len() - k,
            {
                let ch = chs[k].as_str();
                let path = PathKey::from_str(ch);
                proof {
                    if names_directory(site, ch@) {
                        let j = choose|j: int| 0 <= j < site.page_seq().len() && is_prefix(spec_path_components(ch@), #[trigger] site.page_seq()[j].parent_dir@);
                        assert(dirs@.contains_key(site.page_seq()[j].parent_dir@));
                    }
                }
                if under_some_dir(&dirs, &path) {
                    proof {
                        let d = choose|d: Seq<Seq<char>>| #[trigger] dirs@.contains_key(d) && is_prefix(path@, d);
                        let j = choose|j: int| 0 <= j < registry.id_seq().len() && #[trigger] registry.page_seq()[j].parent_dir@ == d;
                        assert(is_prefix(spec_path_components(ch@), site.page_seq()[j].parent_dir@));
                        assert(names_directory(site, ch@));
                    }
                    self.add_root(path);
                }
                assert(self.collection_roots@.dom() =~= roots1.union(dir_roots_upto(site, chs@, k + 1)));
                k = k + 1;
            }
            proof {
                assert(roots_of_page(site, *source) == dir_roots_upto(site, chs@, chs@.len() as int));
            }
        } else if source.is_index() {
            self.add_root(source.parent_dir.clone_key());
            proof {
                assert(self.collection_roots@.dom() =~= roots1.union(roots_of_page(site, *source)));
            }
        } else {
            proof {
                assert(roots1.union(roots_of_page(site, *source)) =~= roots1);
            }
        }
        let ghost g2 = *self;
        let children = self.compute_children(registry, source);
        self.attach_children(id, children);
        let ghost g3 = *self;
        proof {
            assert forall|x: Seq<char>| #[trigger] g2.children(x) == g1.children(x) by {}
            assert(g1.children(id@) == Set::<Seq<char>>::empty());
            assert(self.children(id@) =~= ids_upto(pairs_view(children@), children@.len() as int));
            assert(self.parents_of@.dom() =~= old(self).parents_of@.dom().insert(id@).union(
                ids_upto(pairs_view(children@), children@.len() as int)));
            assert(self.children_of@.dom() =~= old(self).children_of@.dom().insert(id@));
            assert(self.incoming_edges@.dom() =~= old(self).incoming_edges@.dom().insert(id@));
            assert(seg_map(g1.path_segments) == touched_segments(seg_map(old(self).path_segments), id@));
        }
        // The affected nodes: `id` and its ancestors.
        let affected = self.collect_affected(id);
        let ghost a = affected@.dom();
        proof {
            assert(a =~= Set::new(|x: Seq<char>| self.reaches_up(id@, x)));
            affected.lemma_dom();
        }
        let mut indeg = self.local_indegrees(&affected);
        let mut q: VecDeque<PageId> = VecDeque::new();
        let ghost ks = indeg.key_seq();
        let ghost mut idx: Seq<int> = Seq::empty();
        proof {
            indeg.lemma_dom();
            assert(ids_of(q@) =~= Seq::<Seq<char>>::empty());
            lemma_filter_empty(ks.take(0), local_start(*self, a));
        }
        let mut i: usize = 0;
        while i < indeg.len()
            invariant
                self.wf(),
                indeg.wf(),
                ks == indeg.key_seq(),
                ks.no_duplicates(),
                ks.to_set() == a,
                indeg@.dom() == a,
                forall|x: Seq<char>| #[trigger] indeg@.contains_key(x) ==> indeg@[x] as nat == self.local_children(x, a).len(),
                i <= ks.len(),
                idx.len() == ids_of(q@).len(),
                forall|k: int| 0 <= k < idx.len() ==> 0 <= #[trigger] idx[k] < i && ids_of(q@)[k] == ks[idx[k]]
                    && indeg@[ks[idx[k]]] == 0,
                forall|k1: int, k2: int| 0 <= k1 < k2 < idx.len() ==> #[trigger] idx[k1] < #[trigger] idx[k2],
                forall|m: int| 0 <= m < i && indeg@[#[trigger] ks[m]] == 0 ==> ids_of(q@).contains(ks[m]),
                ids_of(q@).no_duplicates(),
                ids_of(q@) == ks.take(i as int).filter(local_start(*self, a)),
            decreases ks.len() - i,
        {
            let d = *indeg.value_at(i);
            proof {
                indeg.lemma_at(i as int);
                assert(d == indeg@[ks[i as int]]);
                lemma_filter_take_step(ks, local_start(*self, a), i as int);
            }
            if d == 0 {
                let ghost q0 = ids_of(q@);
                let ghost idx0 = idx;
                let key = indeg.key_at(i);
                q.push_back(key.clone_key());
                proof {
                    idx = idx0.push(i as int);
                    let qn = ids_of(q@);
                    assert(qn =~= q0.push(ks[i as int]));
                    assert forall|k: int| 0 <= k < idx.len() implies 0 <= #[trigger] idx[k] < i + 1 && qn[k] == ks[idx[k]]
                        && indeg@[ks[idx[k]]] == 0 by {
                        if k < idx0.len() {
                            assert(idx[k] == idx0[k]);
                            assert(qn[k] == q0[k]);
                        }
                    }
                    assert forall|k1: int, k2: int| 0 <= k1 < k2 < idx.len() implies #[trigger] idx[k1] < #[trigger] idx[k2] by {
                        if k2 < idx0.len() {
                            assert(idx[k1] == idx0[k1] && idx[k2] == idx0[k2]);
                        } else {
                            assert(idx[k1] == idx0[k1]);
                            assert(idx0[k1] < i);
                        }
                    }
                    assert forall|x: int, y: int| 0 <= x < qn.len() && 0 <= y < qn.len() && x != y implies qn[x] != qn[y] by {
                        assert(qn[x] == ks[idx[x]] && qn[y] == ks[idx[y]]);
                        if x < y {
                            assert(idx[x] < idx[y]);
                        } else {
                            assert(idx[y] < idx[x]);
                        }
                    }
                    assert forall|m: int| 0 <= m < i + 1 && indeg@[#[trigger] ks[m]] == 0 implies qn.contains(ks[m]) by {
                        if m < i {
                            assert(q0.contains(ks[m]));
                            let k = choose|k: int| 0 <= k < q0.len() && q0[k] == ks[m];
                            assert(qn[k] == ks[m]);
                        } else {
                            assert(qn[q0.len() as int] == ks[m]);
                        }
                    }
                }
            }
            i = i + 1;
        }
        let mut order: Vec<PageId> = Vec::new();
        proof {
            let q0 = ids_of(q@);
            assert(ids_of(order@) =~= Seq::<Seq<char>>::empty());
            assert(ids_of(order@).to_set() =~= Set::<Seq<char>>::empty());
            assert(ids_of(order@) + q0 =~= q0);
            assert forall|x: Seq<char>| #[trigger] indeg@.contains_key(x) implies indeg@[x] as nat
                == self.local_children(x, a).difference(ids_of(order@).to_set()).len() by {
                assert(self.local_children(x, a).difference(Set::<Seq<char>>::empty()) =~= self.local_children(x, a));
            }
            assert forall|k: int| 0 <= k < q0.len() implies a.contains(#[trigger] q0[k]) by {
                assert(q0[k] == ks[idx[k]]);
                assert(ks.to_set().contains(q0[k]));
            }
            assert forall|k: int| 0 <= k < q0.len() implies self.local_children(#[trigger] q0[k], a).subset_of(ids_of(order@).to_set()) by {
                assert(q0[k] == ks[idx[k]]);
                assert(ks.to_set().contains(q0[k]));
                assert(self.children(q0[k]).finite());
                self.local_children(q0[k], a).lemma_len0_is_empty();
            }
            assert forall|x: Seq<char>| a.contains(x) && #[trigger] self.local_children(x, a).subset_of(ids_of(order@).to_set())
                implies (ids_of(order@) + q0).contains(x) by {
                assert(self.local_children(x, a) =~= Set::<Seq<char>>::empty());
                assert(ks.to_set().contains(x));
                let m = choose|m: int| 0 <= m < ks.len() && ks[m] == x;
                assert(q0.contains(ks[m]));
            }
            assert(self.kahn_local_inv(a, indeg, ids_of(order@), q0));
            assert(ks.take(i as int) =~= ks);
            lemma_sorted_ids(a, ks);
            assert(ids_of(order@) + q0 == local_queue(*self, a, ids_of(order@), 0));
            (ids_of(order@) + q0).unique_seq_to_set();
            vstd::set_lib::lemma_len_subset((ids_of(order@) + q0).to_set(), a);
        }
        while q.len() > 0
            invariant
                self.wf(),
                affected.wf(),
                a == affected@.dom(),
                a.finite(),
                forall|x: Seq<char>| #[trigger] a.contains(x) ==> self.parents(x).subset_of(a),
                self.kahn_local_inv(a, indeg, ids_of(order@), ids_of(q@)),
                ids_of(order@) + ids_of(q@) == local_queue(*self, a, ids_of(order@), order@.len() as int),
                order@.len() + q@.len() <= a.len(),
            decreases 2 * a.len() - 2 * order@.len() - q@.len(),
        {
            let ghost o0 = ids_of(order@);
            let ghost q0 = ids_of(q@);
            let u = q.pop_front().unwrap();
            order.push(u.clone_key());
            proof {
                let o = ids_of(order@);
                let q1 = ids_of(q@);
                assert(o =~= o0.push(u@));
                assert(q1 =~= q0.drop_first());
                assert(o.drop_last() =~= o0);
                assert(o + q1 =~= o0 + q0);
                assert(u@ == q0[0]);
                assert forall|k: int| 0 <= k < o.len() implies self.local_children(#[trigger] o[k], a).subset_of(o.take(k).to_set()) by {
                    if k < o0.len() {
                        assert(o.take(k) =~= o0.take(k));
                    } else {
                        assert(o.take(k) =~= o0);
                        assert(self.local_children(q0[0], a).subset_of(o0.to_set()));
                    }
                }
                assert forall|k: int| 0 <= k < q1.len() implies self.local_children(#[trigger] q1[k], a).subset_of(o.drop_last().to_set()) by {
                    assert(q1[k] == q0[k + 1]);
                }
            }
            self.release_affected(&u, &affected, &mut indeg, &mut q, Ghost(a), Ghost(ids_of(order@)));
            proof {
                let o = ids_of(order@);
                let n = o0.len() as int;
                assert(o.take(n) =~= o0.take(n));
                lemma_local_queue_prefix(*self, a, o, o0, n);
                assert(o.take(n + 1) =~= o);
                assert(o[n] == u@);
                assert(local_queue(*self, a, o, n + 1) == local_queue(*self, a, o0, n)
                    + local_completed(*self, u@, a, o.to_set()));
                assert(o + ids_of(q@) =~= o0 + q0 + local_completed(*self, u@, a, o.to_set()));
                let seen = ids_of(order@) + ids_of(q@);
                seen.unique_seq_to_set();
                assert forall|x: Seq<char>| seen.to_set().contains(x) implies a.contains(x) by {
                    let k = choose|k: int| 0 <= k < seen.len() && seen[k] == x;
                }
                vstd::set_lib::lemma_len_subset(seen.to_set(), a);
            }
        }
        let ghost o = ids_of(order@);
        proof {
            assert(ids_of(q@) =~= Seq::<Seq<char>>::empty());
            assert(o + ids_of(q@) =~= o);
            assert(o == local_queue(*self, a, o, o.len() as int));
        }
        if order.len() != affected.len() {
            let q = id.debug_string();
            let m = concat_str("cycle detected in affected subgraph starting at ", q.as_str());
            proof {
                reveal_strlit("cycle detected in affected subgraph starting at ");
                let s = a.difference(o.to_set());
                o.unique_seq_to_set();
                assert(s.len() > 0) by {
                    if s.len() == 0 {
                        s.lemma_len0_is_empty();
                        assert(a =~= o.to_set()) by {
                            assert forall|x: Seq<char>| a.contains(x) implies o.to_set().contains(x) by {
                                assert(!s.contains(x));
                            }
                            assert forall|x: Seq<char>| o.to_set().contains(x) implies a.contains(x) by {
                                let k = choose|k: int| 0 <= k < o.len() && o[k] == x;
                            }
                        }
                    }
                }
                assert forall|x: Seq<char>| s.contains(x) implies exists|c: Seq<char>| #[trigger] self.children(x).contains(c) && s.contains(c) by {
                    assert(!o.contains(x));
                    assert(!self.local_children(x, a).subset_of(o.to_set()));
                    let c = choose|c: Seq<char>| self.local_children(x, a).contains(c) && !o.to_set().contains(c);
                    assert(self.children(x).contains(c) && s.contains(c));
                }
                assert(has_stuck_part(*self, a));
            }
            return Err(m);
        }
        proof {
            o.unique_seq_to_set();
            assert forall|x: Seq<char>| #[trigger] o.contains(x) <==> a.contains(x) by {
                if a.contains(x) && !o.contains(x) {
                    assert forall|y: Seq<char>| o.to_set().contains(y) implies a.contains(y) by {
                        let k = choose|k: int| 0 <= k < o.len() && o[k] == y;
                    }
                    assert(o.to_set().subset_of(a.remove(x)));
                    vstd::set_lib::lemma_len_subset(o.to_set(), a.remove(x));
                }
                if o.contains(x) {
                    let k = choose|k: int| 0 <= k < o.len() && o[k] == x;
                }
            }
        }
        Ok(order)
    }

    /// The parents of page `id`, if the graph knows it.
    pub fn get_parents(&self, id: &PageId) -> (r: Option<&IdSet>)
        requires
            self.wf(),
        ensures
            match r {
                Some(s) => self.parents_of@.contains_key(id@) && s.wf() && s@.dom() == self.parents(id@)
                    && self.parents_of.exec_map().contains_key(id@) && *s == self.parents_of.exec_map()[id@],
                None => !self.parents_of@.contains_key(id@) && self.parents(id@) == Set::<Seq<char>>::empty()
                    && !self.parents_of.exec_map().contains_key(id@),
            },
    {
        match self.parents_of.find(id) {
            Ok(i) => {
                proof {
                    self.parents_of.lemma_at(i as int);
                }
                Some(self.parents_of.value_at(i))
            },
            Err(_) => None,
        }
    }

    /// The path segments of page `id`, if recorded.
    pub fn get_path_segments(&self, id: &PageId) -> (r: Option<&Vec<String>>)
        requires
            self.wf(),
        ensures
            match r {
                Some(s) => seg_map(self.path_segments).contains_key(id@) && s.deep_view() == seg_map(self.path_segments)[id@],
                None => !seg_map(self.path_segments).contains_key(id@),
            },
    {
        self.path_segments.get(id)
    }
}

} // verus!
