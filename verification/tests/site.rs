use garage_sale_gen::error::ErrorCollector;
use garage_sale_gen::error::ParserError;
use garage_sale_gen::graph::Graph;
use garage_sale_gen::models::{Attrs, FileMeta, NavNode, PageSource, SiteMeta};
use garage_sale_gen::page_id::PageId;
use garage_sale_gen::processor::Processor;
use garage_sale_gen::renderer::{
    breadcrumbs_for, collect_urls, output_file, pages_to_render, resolve_template_name, template_key, url_for,
    TemplateArg,
};
use garage_sale_gen::site_builder::{build_site, SiteBuilder};
use garage_sale_gen::sorted_map::SortedMap;
use garage_sale_gen::yaml::YamlValue;

const BASE: &str = "/site/content";

fn s(x: &str) -> YamlValue {
    YamlValue::String(x.to_string())
}

fn add_page(
    b: &mut SiteBuilder,
    rel: &str,
    title: &str,
    children: &[(&str, bool)],
    children_attrs: Attrs,
    publish: Option<bool>,
    body: &str,
) {
    let abs = format!("{}/{}", BASE, rel);
    let loc = match PageSource::locate(&abs, BASE) {
        Ok(l) => l,
        Err(e) => panic!("{}", e.message()),
    };
    let fm = FileMeta {
        title: title.to_string(),
        template: None,
        publish,
        children: children.iter().map(|(c, _)| c.to_string()).collect(),
        children_attrs,
        extra: SortedMap::new(),
    };
    let raw = format!("---\ntitle: {}\n---\n{}", title, body);
    let page = match PageSource::from_parts(loc, abs.clone(), raw, Ok((fm, body.to_string()))) {
        Ok(p) => p,
        Err(e) => panic!("{}", e.message()),
    };
    let dirs: Vec<bool> = children.iter().map(|(_, d)| *d).collect();
    b.push_page(page, &dirs);
}

/// index.md lists the `posts` directory and hands down a template and a layout;
/// posts/index.md gathers the posts of its directory; a draft is not published.
fn blog() -> SiteBuilder {
    let mut b = SiteBuilder::new(BASE);
    let mut attrs: Attrs = SortedMap::new();
    attrs.insert("template".to_string(), s("post"));
    attrs.insert("layout".to_string(), s("wide"));
    add_page(&mut b, "index.md", "Home", &[("posts", true)], attrs, None, "# Hello");
    add_page(&mut b, "posts/index.md", "Posts", &[], SortedMap::new(), None, "All posts");
    add_page(&mut b, "posts/a.md", "A", &[], SortedMap::new(), None, "*a*");
    add_page(&mut b, "posts/b.md", "B", &[], SortedMap::new(), Some(false), "b");
    b
}

fn id(x: &str) -> PageId {
    PageId::new(x)
}

fn ids(v: &[PageId]) -> Vec<String> {
    v.iter().map(|p| p.to_string()).collect()
}

fn site_meta() -> SiteMeta {
    SiteMeta { default_template: Some("base".to_string()), navigation: Vec::new(), extra: SortedMap::new() }
}

#[test]
fn graph_edges_and_segments() {
    let b = blog();
    let mut errors = ErrorCollector::new();
    let g = match Graph::build(&b, &mut errors) {
        Ok(g) => g,
        Err(e) => panic!("{}", e),
    };
    assert_eq!(errors.warning_count(), 0);
    let parents = g.get_parents(&id("posts/a")).expect("parents");
    assert_eq!(parents.len(), 2);
    assert_eq!(parents.key_at(0).as_str(), "index");
    assert_eq!(parents.key_at(1).as_str(), "posts/index");
    assert_eq!(g.get_parents(&id("index")).expect("parents").len(), 0);
    assert_eq!(g.get_parents(&id("posts/index")).expect("parents").len(), 0);
    assert_eq!(g.get_path_segments(&id("posts/a")), Some(&vec!["posts".to_string()]));
    assert_eq!(g.get_path_segments(&id("index")), Some(&Vec::new()));
    assert!(g.get_parents(&id("nope")).is_none());
}

#[test]
fn order_puts_children_first() {
    let b = blog();
    let mut errors = ErrorCollector::new();
    let mut g = match Graph::build(&b, &mut errors) {
        Ok(g) => g,
        Err(e) => panic!("{}", e),
    };
    let order = g.order(&b);
    assert_eq!(ids(&order), vec!["posts/a", "posts/b", "index", "posts/index"]);
    // the order can be asked for again
    let again = g.order(&b);
    assert_eq!(ids(&again), ids(&order));
}

#[test]
fn build_site_processes_every_page() {
    let mut b = blog();
    let mut errors = ErrorCollector::new();
    let plan = match build_site(&mut b, site_meta(), &mut errors) {
        Ok(p) => p,
        Err(e) => panic!("{}", e),
    };
    // URLs
    assert_eq!(plan.urls.len(), 4);
    assert_eq!(plan.urls.get(&id("index")), Some(&"/".to_string()));
    // no page gathers posts/index (an index is left out of its own directory), so it has
    // no segments and its URL is the root one
    assert_eq!(plan.urls.get(&id("posts/index")), Some(&"/".to_string()));
    assert_eq!(plan.urls.get(&id("posts/a")), Some(&"/posts/a.html".to_string()));
    // metadata of a post: inherited template and layout, HTML, segments
    let a = b.pages().get(&id("posts/a")).expect("page");
    let m = a.page_meta.as_ref().expect("processed");
    assert_eq!(m.title, "A");
    assert_eq!(m.stem, "a");
    assert_eq!(m.id, "posts/a");
    assert_eq!(m.url, "/posts/a.html");
    assert_eq!(m.template, Some("post".to_string()));
    assert_eq!(m.path_segments, vec!["posts".to_string()]);
    assert_eq!(m.html_content, "<p><em>a</em></p>\n");
    assert!(m.publish);
    assert!(matches!(m.extra.get(&"layout".to_string()), Some(YamlValue::String(v)) if v == "wide"));
    // the draft keeps its own flag
    let bm = b.pages().get(&id("posts/b")).expect("page").page_meta.as_ref().expect("processed");
    assert!(!bm.publish);
    // children are gathered in processing order
    let home = b.pages().get(&id("index")).expect("page").page_meta.as_ref().expect("processed");
    assert_eq!(home.html_content, "<h1>Hello</h1>\n");
    assert_eq!(home.template, None);
    let kids: Vec<&str> = home.children.iter().map(|c| c.id.as_str()).collect();
    assert_eq!(kids, vec!["posts/a", "posts/b"]);
    // site metadata
    assert_eq!(plan.site_meta.default_template, Some("base".to_string()));
}

fn titles(v: &[NavNode]) -> Vec<String> {
    v.iter().map(|n| n.title.clone()).collect()
}

#[test]
fn navigation_and_breadcrumbs() {
    let mut b = blog();
    let mut errors = ErrorCollector::new();
    let plan = match build_site(&mut b, site_meta(), &mut errors) {
        Ok(p) => p,
        Err(e) => panic!("{}", e),
    };
    let nav = &plan.site_meta.navigation;
    assert_eq!(titles(nav), vec!["Home", "Posts"]);
    assert_eq!(titles(&nav[0].children), vec!["Posts"]);
    assert_eq!(nav[0].url, "/");
    assert!(nav[1].children.is_empty());
    assert_eq!(nav[0].order, None);
    let crumbs = plan.breadcrumbs.get(&id("posts/a")).expect("crumbs");
    assert_eq!(titles(crumbs), vec!["Home"]);
    assert_eq!(crumbs[0].url, "/");
    assert!(plan.breadcrumbs.get(&id("index")).expect("crumbs").is_empty());
    assert!(plan.breadcrumbs.get(&id("posts/index")).expect("crumbs").is_empty());
    // the template functions
    match breadcrumbs_for(&plan.breadcrumbs, &TemplateArg::Text("posts/a".to_string())) {
        Ok(c) => assert_eq!(titles(&c), vec!["Home"]),
        Err(e) => panic!("{}", e),
    }
    match breadcrumbs_for(&plan.breadcrumbs, &TemplateArg::Text("nope".to_string())) {
        Ok(c) => assert!(c.is_empty()),
        Err(e) => panic!("{}", e),
    }
    assert!(matches!(breadcrumbs_for(&plan.breadcrumbs, &TemplateArg::Missing), Err(e) if e == "Missing argument 'id'"));
    assert_eq!(url_for(&plan.urls, &TemplateArg::Text("posts/a.md".to_string())), Ok("/posts/a.html".to_string()));
    assert_eq!(url_for(&plan.urls, &TemplateArg::Text("nope".to_string())), Err("Page not found: PageId(\"nope\")".to_string()));
    assert_eq!(url_for(&plan.urls, &TemplateArg::Missing), Err("Missing argument 'id'".to_string()));
    assert_eq!(url_for(&plan.urls, &TemplateArg::NotString), Err("Invalid argument type for 'id'".to_string()));
}

#[test]
fn render_list_skips_unpublished_pages() {
    let mut b = blog();
    let mut errors = ErrorCollector::new();
    if let Err(e) = build_site(&mut b, site_meta(), &mut errors) {
        panic!("{}", e);
    }
    assert_eq!(ids(&pages_to_render(&b)), vec!["index", "posts/a", "posts/index"]);
    let urls = collect_urls(&b);
    assert_eq!(urls.len(), 4);
}

#[test]
fn unprocessed_pages_have_no_url() {
    let b = blog();
    assert_eq!(collect_urls(&b).len(), 0);
    assert!(pages_to_render(&b).is_empty());
}

#[test]
fn build_site_stops_on_gathered_errors() {
    let mut b = blog();
    let mut errors = ErrorCollector::new();
    errors.add_error(ParserError::new("unreadable".to_string()));
    match build_site(&mut b, site_meta(), &mut errors) {
        Ok(_) => panic!("expected an error"),
        Err(e) => assert_eq!(e, "1 error(s) occurred"),
    }
    assert!(b.pages().get(&id("index")).expect("page").page_meta.is_none());
}

#[test]
fn missing_child_reference_is_a_warning() {
    let mut b = SiteBuilder::new(BASE);
    add_page(&mut b, "c.md", "C", &[("missing", false), ("d", false)], SortedMap::new(), None, "c");
    add_page(&mut b, "d.md", "D", &[], SortedMap::new(), None, "d");
    let mut errors = ErrorCollector::new();
    let plan = match build_site(&mut b, site_meta(), &mut errors) {
        Ok(p) => p,
        Err(e) => panic!("{}", e),
    };
    assert_eq!(errors.error_count(), 0);
    assert_eq!(errors.warning_count(), 1);
    assert_eq!(errors.warning_at(0).message(), "Missing child reference 'missing' in page PageId(\"c\")");
    // a file reference has no segments
    assert_eq!(plan.urls.get(&id("d")), Some(&"/d.html".to_string()));
    assert_eq!(titles(&plan.site_meta.navigation), vec!["C"]);
    assert_eq!(titles(&plan.site_meta.navigation[0].children), vec!["D"]);
}

#[test]
fn rebuild_reprocesses_a_page_and_its_ancestors() {
    let mut b = blog();
    let mut errors = ErrorCollector::new();
    let mut p = match Processor::new(&b, &mut errors) {
        Ok(p) => p,
        Err(e) => panic!("{}", e),
    };
    assert_eq!(p.process(&mut b), Ok(()));
    match p.rebuild(&mut b, &id("posts/a")) {
        Ok(order) => assert_eq!(ids(&order), vec!["posts/a", "index", "posts/index"]),
        Err(e) => panic!("{}", e),
    }
    let m = b.pages().get(&id("posts/a")).expect("page").page_meta.as_ref().expect("processed");
    assert_eq!(m.url, "/posts/a.html");
    match p.rebuild(&mut b, &id("nope")) {
        Ok(_) => panic!("expected an error"),
        Err(e) => assert_eq!(e, "Node with ID PageId(\"nope\") not found in registry during rebuild"),
    }
}

#[test]
fn pages_on_a_cycle_are_never_ordered() {
    let mut b = SiteBuilder::new(BASE);
    add_page(&mut b, "a.md", "A", &[("b", false)], SortedMap::new(), None, "a");
    add_page(&mut b, "b.md", "B", &[("a", false)], SortedMap::new(), None, "b");
    let mut errors = ErrorCollector::new();
    let mut g = match Graph::build(&b, &mut errors) {
        Ok(g) => g,
        Err(e) => panic!("{}", e),
    };
    assert!(g.order(&b).is_empty());
    // a rebuild keeps the file reference "b" (it names no directory), so the cycle stays
    match g.rebuild(&b, &id("a")) {
        Ok(_) => panic!("expected an error"),
        Err(e) => assert_eq!(e, "cycle detected in affected subgraph starting at PageId(\"a\")"),
    }
    assert_eq!(g.get_parents(&id("b")).expect("parents").len(), 1);
}

#[test]
fn rebuilding_an_unchanged_page_keeps_every_edge() {
    let mut b = blog();
    add_page(&mut b, "about.md", "About", &[("posts/a", false), ("posts", true)], SortedMap::new(), None, "about");
    let mut errors = ErrorCollector::new();
    let built = match Graph::build(&b, &mut errors) {
        Ok(g) => g,
        Err(e) => panic!("{}", e),
    };
    let mut g = match Graph::build(&b, &mut errors) {
        Ok(g) => g,
        Err(e) => panic!("{}", e),
    };
    for page in ["about", "index", "posts/index", "posts/a", "posts/b"] {
        if let Err(e) = g.rebuild(&b, &id(page)) {
            panic!("{}", e);
        }
        for c in ["about", "index", "posts/index", "posts/a", "posts/b"] {
            let before = built.get_parents(&id(c)).expect("parents");
            let after = g.get_parents(&id(c)).expect("parents");
            assert_eq!(before.len(), after.len());
            for i in 0..before.len() {
                assert_eq!(before.key_at(i).as_str(), after.key_at(i).as_str());
            }
        }
    }
    // the file reference keeps its edge
    let parents = g.get_parents(&id("posts/a")).expect("parents");
    assert_eq!(parents.len(), 3);
    assert_eq!(parents.key_at(0).as_str(), "about");
}

#[test]
fn rebuild_reports_a_cycle() {
    // x/y gathers its own directory, itself included
    let mut b = SiteBuilder::new(BASE);
    add_page(&mut b, "x/index.md", "X", &[], SortedMap::new(), None, "x");
    add_page(&mut b, "x/y.md", "Y", &[("x", true)], SortedMap::new(), None, "y");
    let mut errors = ErrorCollector::new();
    let mut g = match Graph::build(&b, &mut errors) {
        Ok(g) => g,
        Err(e) => panic!("{}", e),
    };
    assert!(g.order(&b).is_empty());
    match g.rebuild(&b, &id("x/y")) {
        Ok(_) => panic!("expected an error"),
        Err(e) => assert_eq!(e, "cycle detected in affected subgraph starting at PageId(\"x/y\")"),
    }
}

#[test]
fn template_choice() {
    assert_eq!(template_key(&Some("page".to_string()), &Some("site".to_string())), "page");
    assert_eq!(template_key(&None, &Some("site".to_string())), "site");
    assert_eq!(template_key(&None, &None), "base");
}

#[test]
fn template_resolution() {
    let known = vec!["base.html".to_string(), "base.j2".to_string(), "post.jinja2".to_string(), "x.y".to_string()];
    match resolve_template_name("base", &known) {
        Ok(t) => {
            assert_eq!(t.name, "base.html");
            assert_eq!(t.found, vec!["base.html".to_string(), "base.j2".to_string()]);
        },
        Err(e) => panic!("{}", e),
    }
    match resolve_template_name("post", &known) {
        Ok(t) => assert_eq!(t.name, "post.jinja2"),
        Err(e) => panic!("{}", e),
    }
    match resolve_template_name("x.y", &known) {
        Ok(t) => assert_eq!(t.name, "x.y"),
        Err(e) => panic!("{}", e),
    }
    match resolve_template_name("page.html", &known) {
        Ok(_) => panic!("expected an error"),
        Err(e) => assert_eq!(e, "Template 'page.html' not found (explicit extension provided)"),
    }
    match resolve_template_name("missing", &known) {
        Ok(_) => panic!("expected an error"),
        Err(e) => assert_eq!(
            e,
            "Template 'missing' not found. Tried: missing.html, missing.html.j2, missing.jinja2, missing.j2"
        ),
    }
}

#[test]
fn output_files_end_in_html() {
    assert_eq!(output_file("public", "posts/a.md"), "public/posts/a.html");
    assert_eq!(output_file("out/", "index.md"), "out/index.html");
    assert_eq!(output_file("out", "notes"), "out/notes.html");
}

#[test]
fn static_files_are_registered_under_their_base() {
    let mut b = SiteBuilder::new(BASE);
    assert_eq!(b.push_static("/site/static/css/main.css", "/site/static", b"body{}"), Ok(()));
    assert!(b.push_static("/elsewhere/x.css", "/site/static", b"").is_err());
    let plan = b.copy_all("public");
    assert_eq!(plan, vec![("/site/static/css/main.css".to_string(), "public/css/main.css".to_string())]);
    assert_eq!(b.copy_static("/site/static/css/main.css", "out"), Ok("out/css/main.css".to_string()));
    assert!(b.copy_static("/site/static/nope.css", "out").is_err());
}

#[test]
fn bad_inherited_attributes_stop_processing() {
    let mut b = SiteBuilder::new(BASE);
    let mut attrs: Attrs = SortedMap::new();
    attrs.insert("publish".to_string(), s("yes"));
    add_page(&mut b, "index.md", "Home", &[("posts", true)], attrs, None, "home");
    add_page(&mut b, "posts/a.md", "A", &[], SortedMap::new(), None, "a");
    let mut errors = ErrorCollector::new();
    match build_site(&mut b, site_meta(), &mut errors) {
        Ok(_) => panic!("expected an error"),
        Err(e) => assert_eq!(e, "invalid type for `publish`: expected a boolean"),
    }
    // the failing page was not processed
    assert!(b.pages().get(&id("posts/a")).expect("page").page_meta.is_none());
}

fn graph_keys(g: &Graph) -> [Vec<String>; 4] {
    [
        (0..g.parents_of.len()).map(|i| g.parents_of.key_at(i).as_str().to_string()).collect(),
        (0..g.children_of.len()).map(|i| g.children_of.key_at(i).as_str().to_string()).collect(),
        (0..g.incoming_edges.len()).map(|i| g.incoming_edges.key_at(i).as_str().to_string()).collect(),
        (0..g.path_segments.len()).map(|i| g.path_segments.key_at(i).as_str().to_string()).collect(),
    ]
}

#[test]
fn rebuilds_keep_the_graph_maps_on_the_same_keys() {
    let mut b = blog();
    add_page(&mut b, "about.md", "About", &[("posts/a", false), ("posts", true)], SortedMap::new(), None, "about");
    let mut errors = ErrorCollector::new();
    let mut g = match Graph::build(&b, &mut errors) {
        Ok(g) => g,
        Err(e) => panic!("{}", e),
    };
    let pages = vec!["about", "index", "posts/a", "posts/b", "posts/index"];
    let check = |g: &Graph, want: &Vec<&str>| {
        let want: Vec<String> = want.iter().map(|s| s.to_string()).collect();
        for keys in graph_keys(g) {
            assert_eq!(keys, want);
        }
    };
    check(&g, &pages);
    for page in ["posts/index", "about", "posts/a"] {
        let _ = g.rebuild(&b, &id(page));
        check(&g, &pages);
    }
    // an identifier that is no page joins every map
    assert!(g.rebuild(&b, &id("nowhere")).is_err());
    check(&g, &vec!["about", "index", "nowhere", "posts/a", "posts/b", "posts/index"]);
}
