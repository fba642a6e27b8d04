use vstd::prelude::*;
use crate::error::join_with;
use crate::graph::ids_of;
use crate::models::{NavNode, NavModel, opt_str};
use crate::page_id::{PageId, page_id_debug};
use crate::path::{join_path, path_with_extension, spec_join, spec_with_extension, spec_without_extension};
use crate::processor::{nav_models, crumbs_view};
use crate::site_builder::SiteBuilder;
use crate::sorted_map::{SortedMap, OrdKey};
use crate::text::{chars_of, concat_str, str_equal};

verus! {

/// `html`
pub open spec fn ext_html() -> Seq<char> {
    seq!['h', 't', 'm', 'l']
}

/// The extensions tried, in order, for a template named without one.
pub open spec fn template_exts() -> Seq<Seq<char>> {
    seq![ext_html(), seq!['h', 't', 'm', 'l', '.', 'j', '2'], seq!['j', 'i', 'n', 'j', 'a', '2'], seq!['j', '2']]
}

/// `name.ext`
pub open spec fn dotted(name: Seq<char>, ext: Seq<char>) -> Seq<char> {
    name + seq!['.'] + ext
}

/// The names tried for a template named `t` without extension.
pub open spec fn tried_names(t: Seq<char>) -> Seq<Seq<char>> {
    Seq::new(4, |i: int| dotted(t, template_exts()[i]))
}

/// The tried names that are templates, in the order tried.
pub open spec fn found_names(t: Seq<char>, known: Seq<Seq<char>>, n: int) -> Seq<Seq<char>>
    decreases n,
{
    if n <= 0 {
        Seq::empty()
    } else if known.contains(tried_names(t)[n - 1]) {
        found_names(t, known, n - 1).push(tried_names(t)[n - 1])
    } else {
        found_names(t, known, n - 1)
    }
}

/// The template that a page renders with: its own, else the site's default, else `base`.
pub open spec fn spec_template_key(page: Option<Seq<char>>, site: Option<Seq<char>>) -> Seq<char> {
    match page {
        Some(t) => t,
        None => match site {
            Some(d) => d,
            None => seq!['b', 'a', 's', 'e'],
        },
    }
}

/// Which template file a page uses, and every file that matched.
pub struct ResolvedTemplate {
    pub name: String,
    pub found: Vec<String>,
}

/// The template that a page renders with: its own, else the site's default, else `base`.
pub fn template_key(page_template: &Option<String>, site_default: &Option<String>) -> (r: String)
    ensures
        r@ == spec_template_key(opt_str(*page_template), opt_str(*site_default)),
{
    match page_template {
        Some(t) => t.clone(),
        None => match site_default {
            Some(d) => d.clone(),
            None => {
                proof {
                    reveal_strlit("base");
                }
                let r = "base".to_owned();
                assert(r@ =~= seq!['b', 'a', 's', 'e']);
                r
            },
        },
    }
}

/// Whether `known` holds `name`.
fn is_known(known: &Vec<String>, name: &str) -> (b: bool)
    ensures
        b == known.deep_view().contains(name@),
{
    let mut i: usize = 0;
    while i < known.len()
        invariant
            i <= known@.len(),
            forall|j: int| 0 <= j < i ==> known.deep_view()[j] != name@,
        decreases known@.len() - i,
    {
        if str_equal(known[i].as_str(), name) {
            assert(known.deep_view()[i as int] == name@);
            return true;
        }
        i = i + 1;
    }
    false
}

/// Finds the template file for a template name, among the template files `known`. A name
/// with a dot must be a file itself. A name without one is tried with the extensions
/// `html`, `html.j2`, `jinja2` and `j2`, in that order; the first that is a file is used.
/// Fails when nothing matches.
pub fn resolve_template_name(template: &str, known: &Vec<String>) -> (r: Result<ResolvedTemplate, String>)
    ensures
        template@.contains('.') ==> if known.deep_view().contains(template@) {
            r matches Ok(t) && t.name@ == template@ && t.found.deep_view() == seq![template@]
        } else {
            r matches Err(m) && m@ == "Template '"@ + template@ + "' not found (explicit extension provided)"@
        },
        !template@.contains('.') ==> {
            let found = found_names(template@, known.deep_view(), 4);
            if found.len() == 0 {
                r matches Err(m) && m@ == "Template '"@ + template@ + "' not found. Tried: "@ + join_with(
                    tried_names(template@),
                    ", "@,
                )
            } else {
                r matches Ok(t) && t.name@ == found[0] && t.found.deep_view() == found
            }
        },
{
    let chars = chars_of(template);
    let mut has_dot = false;
    let mut i: usize = 0;
    while i < chars.len()
        invariant
            chars@ == template@,
            i <= chars@.len(),
            has_dot == chars@.take(i as int).contains('.'),
        decreases chars@.len() - i,
    {
        if chars[i] == '.' {
            assert(chars@.take(i + 1)[i as int] == '.');
            has_dot = true;
        }
        proof {
            assert(chars@.take(i + 1) =~= chars@.take(i as int).push(chars@[i as int]));
        }
        i = i + 1;
    }
    assert(chars@.take(i as int) =~= template@);
    if has_dot {
        if is_known(known, template) {
            let mut found: Vec<String> = Vec::new();
            found.push(template.to_owned());
            assert(found.deep_view() =~= seq![template@]);
            return Ok(ResolvedTemplate { name: template.to_owned(), found });
        }
        let head = concat_str("Template '", template);
        proof {
            reveal_strlit("Template '");
            reveal_strlit("' not found (explicit extension provided)");
        }
        return Err(concat_str(head.as_str(), "' not found (explicit extension provided)"));
    }
    proof {
        reveal_strlit("html");
        reveal_strlit("html.j2");
        reveal_strlit("jinja2");
        reveal_strlit("j2");
        reveal_strlit(".");
    }
    let mut exts: Vec<&str> = Vec::new();
    exts.push("html");
    exts.push("html.j2");
    exts.push("jinja2");
    exts.push("j2");
    assert(exts@[0]@ =~= template_exts()[0]);
    assert(exts@[1]@ =~= template_exts()[1]);
    assert(exts@[2]@ =~= template_exts()[2]);
    assert(exts@[3]@ =~= template_exts()[3]);
    let mut found: Vec<String> = Vec::new();
    let mut tried: Vec<String> = Vec::new();
    let mut k: usize = 0;
    proof {
        assert(found.deep_view() =~= found_names(template@, known.deep_view(), 0));
    }
    while k < 4
        invariant
            exts@.len() == 4,
            forall|j: int| 0 <= j < 4 ==> #[trigger] exts@[j]@ == template_exts()[j],
            k <= 4,
            found.deep_view() == found_names(template@, known.deep_view(), k as int),
            tried.deep_view() == tried_names(template@).take(k as int),
        decreases 4 - k,
    {
        let with_dot = concat_str(template, ".");
        let name = concat_str(with_dot.as_str(), exts[k]);
        proof {
            reveal_strlit(".");
            assert(name@ =~= tried_names(template@)[k as int]);
        }
        let ghost f0 = found.deep_view();
        let ghost t0 = tried.deep_view();
        if is_known(known, name.as_str()) {
            found.push(name.clone());
            assert(found.deep_view() =~= f0.push(name@));
        }
        tried.push(name);
        proof {
            assert(tried.deep_view() =~= t0.push(tried_names(template@)[k as int]));
            assert(tried_names(template@).take(k + 1) =~= tried_names(template@).take(k as int).push(tried_names(template@)[k as int]));
        }
        k = k + 1;
    }
    if found.len() == 0 {
        let mut list = String::new();
        let mut j: usize = 0;
        proof {
            assert(tried_names(template@).take(4) =~= tried_names(template@));
            assert(list@ =~= join_with(tried_names(template@).take(0), ", "@));
        }
        while j < tried.len()
            invariant
                tried.deep_view() == tried_names(template@),
                tried@.len() == 4,
                j <= 4,
                list@ == join_with(tried_names(template@).take(j as int), ", "@),
            decreases 4 - j,
        {
            proof {
                reveal_strlit(", ");
            }
            if j > 0 {
                list.append(", ");
            }
            list.append(tried[j].as_str());
            proof {
                let t = tried_names(template@).take(j + 1);
                assert(t.drop_last() =~= tried_names(template@).take(j as int));
                assert(tried.deep_view()[j as int] == tried[j as int]@);
                if j == 0 {
                    assert(list@ =~= t[0]);
                } else {
                    assert(list@ =~= join_with(t.drop_last(), ", "@) + ", "@ + t.last());
                }
            }
            j = j + 1;
        }
        let head = concat_str("Template '", template);
        let mid = concat_str(head.as_str(), "' not found. Tried: ");
        proof {
            reveal_strlit("Template '");
            reveal_strlit("' not found. Tried: ");
        }
        return Err(concat_str(mid.as_str(), list.as_str()));
    }
    let name = found[0].clone();
    Ok(ResolvedTemplate { name, found })
}

/// Where a page's HTML goes: its relative path with the extension `html`, under the
/// output directory.
pub fn output_file(output_dir: &str, rel_path: &str) -> (r: String)
    ensures
        r@ == spec_join(output_dir@, spec_with_extension(rel_path@, ext_html())),
{
    proof {
        reveal_strlit("html");
        assert("html"@ =~= ext_html());
        assert(!ext_html().contains('/')) by {
            assert forall|i: int| 0 <= i < ext_html().len() implies ext_html()[i] != '/' by {}
        }
    }
    let p = path_with_extension(rel_path, "html");
    join_path(output_dir, p.as_str())
}

/// What a template passes as the `id` argument of a function.
pub enum TemplateArg {
    /// No `id` argument.
    Missing,
    /// An `id` that is not a string.
    NotString,
    /// A string `id`.
    Text(String),
}

/// The message for a template function called without `id`.
pub open spec fn missing_id_message() -> Seq<char> {
    "Missing argument 'id'"@
}

/// The message for a template function called with an `id` that is not a string.
pub open spec fn bad_id_message() -> Seq<char> {
    "Invalid argument type for 'id'"@
}

/// The template function `url_for(id=...)`: the URL of the page `id` names.
pub fn url_for(urls: &SortedMap<PageId, String>, id: &TemplateArg) -> (r: Result<String, String>)
    requires
        urls.wf(),
    ensures
        match id {
            TemplateArg::Missing => r matches Err(m) && m@ == missing_id_message(),
            TemplateArg::NotString => r matches Err(m) && m@ == bad_id_message(),
            TemplateArg::Text(v) => {
                let pid = spec_without_extension(v@);
                if urls@.contains_key(pid) {
                    r matches Ok(u) && u@ == urls@[pid]
                } else {
                    r matches Err(m) && m@ == "Page not found: "@ + page_id_debug(pid)
                }
            },
        },
{
    match id {
        TemplateArg::Missing => {
            proof {
                reveal_strlit("Missing argument 'id'");
            }
            Err("Missing argument 'id'".to_owned())
        },
        TemplateArg::NotString => {
            proof {
                reveal_strlit("Invalid argument type for 'id'");
            }
            Err("Invalid argument type for 'id'".to_owned())
        },
        TemplateArg::Text(v) => {
            let page_id = PageId::new(v.as_str());
            match urls.get(&page_id) {
                Some(url) => Ok(url.clone()),
                None => {
                    let q = page_id.debug_string();
                    proof {
                        reveal_strlit("Page not found: ");
                    }
                    Err(concat_str("Page not found: ", q.as_str()))
                },
            }
        },
    }
}

/// The template function `breadcrumbs(id=...)`: the breadcrumbs of the page `id` names,
/// none when it has none.
pub fn breadcrumbs_for(crumbs: &SortedMap<PageId, Vec<NavNode>>, id: &TemplateArg) -> (r: Result<Vec<NavNode>, String>)
    requires
        crumbs.wf(),
    ensures
        match id {
            TemplateArg::Missing => r matches Err(m) && m@ == missing_id_message(),
            TemplateArg::NotString => r matches Err(m) && m@ == bad_id_message(),
            TemplateArg::Text(v) => {
                let pid = spec_without_extension(v@);
                r matches Ok(c) && nav_models(c@) == if crumbs@.contains_key(pid) {
                    crumbs_view(*crumbs)[pid]
                } else {
                    Seq::<NavModel>::empty()
                }
            },
        },
{
    match id {
        TemplateArg::Missing => {
            proof {
                reveal_strlit("Missing argument 'id'");
            }
            Err("Missing argument 'id'".to_owned())
        },
        TemplateArg::NotString => {
            proof {
                reveal_strlit("Invalid argument type for 'id'");
            }
            Err("Invalid argument type for 'id'".to_owned())
        },
        TemplateArg::Text(v) => {
            let page_id = PageId::new(v.as_str());
            proof {
                crumbs.lemma_exec_map();
            }
            match crumbs.get(&page_id) {
                Some(list) => {
                    let mut out: Vec<NavNode> = Vec::new();
                    let mut i: usize = 0;
                    while i < list.len()
                        invariant
                            i <= list@.len(),
                            nav_models(out@) == nav_models(list@).take(i as int),
                        decreases list@.len() - i,
                    {
                        let ghost o0 = nav_models(out@);
                        out.push(list[i].clone_node());
                        proof {
                            assert(nav_models(out@) =~= o0.push(list@[i as int]@));
                            assert(nav_models(list@).take(i + 1) =~= nav_models(list@).take(i as int).push(list@[i as int]@));
                        }
                        i = i + 1;
                    }
                    assert(nav_models(list@).take(i as int) =~= nav_models(list@));
                    Ok(out)
                },
                None => {
                    let out: Vec<NavNode> = Vec::new();
                    assert(nav_models(out@) =~= Seq::<NavModel>::empty());
                    Ok(out)
                },
            }
        },
    }
}

/// Whether a page has been processed and is published.
pub open spec fn is_rendered(site: SiteBuilder) -> spec_fn(Seq<char>) -> bool {
    |x: Seq<char>| site.page_map()[x].page_meta matches Some(m) && m.publish
}

/// The pages to render, in identifier order: those processed and published.
pub fn pages_to_render(builder: &SiteBuilder) -> (r: Vec<PageId>)
    requires
        builder.wf(),
    ensures
        ids_of(r@) == builder.id_seq().filter(is_rendered(*builder)),
{
    let pages = builder.get_pages();
    let mut out: Vec<PageId> = Vec::new();
    let mut i: usize = 0;
    while i < pages.len()
        invariant
            builder.wf(),
            *pages == builder.page_registry.pages,
            i <= builder.id_seq().len(),
            ids_of(out@) == builder.id_seq().take(i as int).filter(is_rendered(*builder)),
        decreases builder.id_seq().len() - i,
    {
        let page = pages.value_at(i);
        proof {
            pages.lemma_at(i as int);
            let t = builder.id_seq().take(i + 1);
            assert(t.drop_last() =~= builder.id_seq().take(i as int));
            reveal(Seq::filter);
        }
        let publish = match &page.page_meta {
            Some(m) => m.publish,
            None => false,
        };
        if publish {
            out.push(pages.key_at(i).clone_key());
        }
        proof {
            let t = builder.id_seq().take(i + 1);
            assert(ids_of(out@) =~= t.filter(is_rendered(*builder)));
        }
        i = i + 1;
    }
    assert(builder.id_seq().take(i as int) =~= builder.id_seq());
    out
}

/// The URLs of the processed pages, by identifier.
pub fn collect_urls(builder: &SiteBuilder) -> (r: SortedMap<PageId, String>)
    requires
        builder.wf(),
    ensures
        r.wf(),
        forall|x: Seq<char>| #[trigger] r@.contains_key(x) <==> (builder.page_map().contains_key(x) && builder.page_map()[x].page_meta is Some),
        forall|x: Seq<char>| #[trigger] r@.contains_key(x) ==> r@[x] == builder.page_map()[x].page_meta->0.url@,
{
    let pages = builder.get_pages();
    proof {
        pages.lemma_dom();
        pages.lemma_exec_map();
    }
    let mut urls: SortedMap<PageId, String> = SortedMap::new();
    let mut i: usize = 0;
    while i < pages.len()
        invariant
            builder.wf(),
            *pages == builder.page_registry.pages,
            i <= builder.id_seq().len(),
            urls.wf(),
            forall|x: Seq<char>| #[trigger] urls@.contains_key(x) <==> (builder.id_seq().take(i as int).contains(x)
                && builder.page_map()[x].page_meta is Some),
            forall|x: Seq<char>| #[trigger] urls@.contains_key(x) ==> urls@[x] == builder.page_map()[x].page_meta->0.url@,
        decreases builder.id_seq().len() - i,
    {
        let page = pages.value_at(i);
        proof {
            pages.lemma_at(i as int);
        }
        let ghost t = builder.id_seq().take(i + 1);
        assert(t =~= builder.id_seq().take(i as int).push(builder.id_seq()[i as int]));
        match &page.page_meta {
            Some(meta) => {
                urls.insert(pages.key_at(i).clone_key(), meta.url.clone());
            },
            None => {},
        }
        proof {
            assert forall|x: Seq<char>| #[trigger] urls@.contains_key(x) <==> (t.contains(x)
                && builder.page_map()[x].page_meta is Some) by {
                if t.contains(x) && x != builder.id_seq()[i as int] {
                    let n = choose|n: int| 0 <= n < t.len() && t[n] == x;
                    assert(builder.id_seq().take(i as int)[n] == x);
                }
                if builder.id_seq().take(i as int).contains(x) {
                    let n = choose|n: int| 0 <= n < i && builder.id_seq().take(i as int)[n] == x;
                    assert(t[n] == x);
                }
                if x == builder.id_seq()[i as int] {
                    assert(t[i as int] == x);
                }
            }
        }
        i = i + 1;
    }
    proof {
        assert(builder.id_seq().take(i as int) =~= builder.id_seq());
        assert forall|x: Seq<char>| builder.id_seq().contains(x) <==> builder.page_map().contains_key(x) by {
            assert(builder.id_seq().to_set().contains(x) == builder.id_seq().contains(x));
        }
    }
    urls
}

} // verus!
