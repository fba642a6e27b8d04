use garage_sale_gen::file_collector::{CollectAction, FileCollector};
use garage_sale_gen::models::{Attrs, FileMeta, PageSource};
use garage_sale_gen::page_id::PageId;
use garage_sale_gen::path::{join_path, name_extension, name_stem, path_without_extension, PathKey};
use garage_sale_gen::error::ErrorKind;
use garage_sale_gen::site_builder::{FileAction, SiteBuilder};
use garage_sale_gen::sorted_map::SortedMap;
use garage_sale_gen::yaml::{YamlNumber, YamlValue};

fn s(x: &str) -> YamlValue {
    YamlValue::String(x.to_string())
}

fn meta() -> FileMeta {
    FileMeta {
        title: "T".to_string(),
        template: None,
        publish: None,
        children: Vec::new(),
        children_attrs: SortedMap::new(),
        extra: SortedMap::new(),
    }
}

#[test]
fn page_ids_drop_the_extension() {
    assert_eq!(PageId::new("posts/a.md").as_str(), "posts/a");
    assert_eq!(PageId::new("index.md").to_string(), "index");
    assert_eq!(PageId::new("notes/readme").as_str(), "notes/readme");
    assert_eq!(PageId::new("a/b.tar.gz").as_str(), "a/b.tar");
    assert_eq!(PageId::new("posts/a.md").debug_string(), "PageId(\"posts/a\")");
    assert_eq!(PageId::new("q\"uote.md").debug_string(), "PageId(\"q\\\"uote\")");
}

#[test]
fn root_of_a_page_id() {
    assert_eq!(PageId::root_of(&PageId::new("posts/2024/a.md")).as_str(), "posts");
    assert_eq!(PageId::root_of(&PageId::new("about.md")).as_str(), "about");
}

#[test]
fn path_helpers() {
    assert_eq!(path_without_extension("dir/file.txt"), "dir/file");
    assert_eq!(join_path("a", "b"), "a/b");
    assert_eq!(join_path("a/", "b"), "a/b");
    assert_eq!(join_path("", "b"), "b");
    assert_eq!(join_path("a", "/b"), "/b");
    assert_eq!(name_stem("c.md"), "c");
    assert_eq!(name_stem(".hidden"), ".hidden");
    assert_eq!(name_stem("archive.tar.gz"), "archive.tar");
    assert_eq!(name_extension("archive.tar.gz"), Some("gz".to_string()));
    assert_eq!(name_extension(".hidden"), None);
    assert_eq!(name_extension("noext"), None);
}

#[test]
fn path_keys() {
    let k = PathKey::from_str("a/b/c.md");
    assert_eq!(k.comps, vec!["a".to_string(), "b".to_string(), "c.md".to_string()]);
    assert_eq!(k.to_text(), "a/b/c.md");
    let parent = k.parent().expect("a parent");
    assert_eq!(parent.to_text(), "a/b");
    assert_eq!(k.file_name(), Some("c.md".to_string()));
    assert!(k.starts_with(&PathKey::from_str("a/b")));
    assert!(!k.starts_with(&PathKey::from_str("a/c")));
    assert!(k.starts_with(&PathKey::empty()));
    assert!(PathKey::from_str("a//b/").same_as(&PathKey::from_str("a/b")));
    assert!(PathKey::from_str("/").parent().is_none());
    assert!(PathKey::from_str("").parent().is_none());
    assert_eq!(PathKey::from_str("x").parent().map(|p| p.comps.len()), Some(0));
    assert_eq!(PathKey::from_str("a/..").file_name(), None);
}

#[test]
fn classify_content_files() {
    assert_eq!(SiteBuilder::classify("/c/posts/a.md"), FileAction::Page);
    assert_eq!(SiteBuilder::classify("/c/img/cat.png"), FileAction::Static);
    assert_eq!(SiteBuilder::classify("/c/.draft.md"), FileAction::Skip);
    assert_eq!(SiteBuilder::classify("/c/notes.MD"), FileAction::Static);
    assert!(SiteBuilder::is_hidden("x/.git"));
    assert!(!SiteBuilder::is_hidden("x/.git/config"));
    assert!(SiteBuilder::is_markdown("a.md"));
    assert!(!SiteBuilder::is_markdown(".md"));
}

#[test]
fn locate_a_page() {
    let loc = match PageSource::locate("/site/content/posts/a.md", "/site/content") {
        Ok(l) => l,
        Err(e) => panic!("{}", e.message()),
    };
    assert_eq!(loc.rel_path, "posts/a.md");
    assert_eq!(loc.parent_dir.to_text(), "posts");
    assert_eq!(loc.stem, "a");
    let top = match PageSource::locate("/site/content/index.md", "/site/content") {
        Ok(l) => l,
        Err(e) => panic!("{}", e.message()),
    };
    assert_eq!(top.parent_dir.comps.len(), 0);
    assert_eq!(top.stem, "index");
}

#[test]
fn locate_outside_the_base_fails() {
    match PageSource::locate("/elsewhere/a.md", "/site/content") {
        Ok(_) => panic!("expected an error"),
        Err(e) => {
            assert!(matches!(e.kind, ErrorKind::PathNotUnderBase { .. }));
            assert!(e.file.is_none() && e.span.is_none() && e.source_content.is_none());
            assert_eq!(e.message(), "Path \"/elsewhere/a.md\" is not under base directory \"/site/content\"");
        },
    }
    match PageSource::locate("/site/content", "/site/content") {
        Ok(_) => panic!("expected an error"),
        Err(e) => assert!(matches!(e.kind, ErrorKind::NoParentDir { .. })),
    }
}

#[test]
fn from_parts_hashes_the_raw_text() {
    let loc = match PageSource::locate("/c/abc.md", "/c") {
        Ok(l) => l,
        Err(e) => panic!("{}", e.message()),
    };
    let page = match PageSource::from_parts(loc, "/c/abc.md".to_string(), "abc".to_string(), Ok((meta(), "body".to_string()))) {
        Ok(p) => p,
        Err(e) => panic!("{}", e.message()),
    };
    assert_eq!(page.hash, "ba7816bf8f01cfea414140de5dae2223b00361a396177a9cb410ff61f20015ad");
    assert_eq!(page.content, "body");
    assert_eq!(page.stem, "abc");
    assert!(page.page_meta.is_none());
    assert!(!page.is_index());
}

#[test]
fn from_parts_points_at_bad_front_matter() {
    let raw = "---\ntitle: [oops\n---\nbody";
    let loc = match PageSource::locate("/c/bad.md", "/c") {
        Ok(l) => l,
        Err(e) => panic!("{}", e.message()),
    };
    match PageSource::from_parts(loc, "/c/bad.md".to_string(), raw.to_string(), Err("did not parse".to_string())) {
        Ok(_) => panic!("expected an error"),
        Err(e) => {
            assert_eq!(e.message(), "Invalid front matter: did not parse");
            assert_eq!(e.file, Some("/c/bad.md".to_string()));
            assert_eq!(e.span, Some((0, 20)));
            assert_eq!(e.source_content, Some(raw.to_string()));
        },
    }
    let loc = match PageSource::locate("/c/short.md", "/c") {
        Ok(l) => l,
        Err(e) => panic!("{}", e.message()),
    };
    match PageSource::from_parts(loc, "/c/short.md".to_string(), "no dashes".to_string(), Err("x".to_string())) {
        Ok(_) => panic!("expected an error"),
        Err(e) => assert_eq!(e.span, Some((0, 9))),
    }
}

#[test]
fn append_keeps_what_the_page_sets() {
    let mut fm = meta();
    fm.extra.insert("a".to_string(), s("mine"));
    let mut other: Attrs = SortedMap::new();
    other.insert("Template".to_string(), s("post"));
    other.insert("A".to_string(), s("theirs"));
    other.insert("Title".to_string(), s("ignored"));
    other.insert("publish".to_string(), YamlValue::Bool(false));
    other.insert("B".to_string(), YamlValue::Number(YamlNumber::PosInt(2)));
    assert_eq!(fm.append(&other), Ok(()));
    assert_eq!(fm.template, Some("post".to_string()));
    assert_eq!(fm.publish, Some(false));
    assert_eq!(fm.title, "T");
    assert_eq!(fm.extra.len(), 2);
    assert!(matches!(fm.extra.get(&"a".to_string()), Some(YamlValue::String(v)) if v == "mine"));
    assert!(matches!(fm.extra.get(&"b".to_string()), Some(YamlValue::Number(YamlNumber::PosInt(2)))));
    assert!(fm.extra.get(&"title".to_string()).is_none());
}

#[test]
fn append_does_not_override_template_or_publish() {
    let mut fm = meta();
    fm.template = Some("own".to_string());
    fm.publish = Some(true);
    let mut other: Attrs = SortedMap::new();
    other.insert("template".to_string(), s("post"));
    other.insert("publish".to_string(), YamlValue::Bool(false));
    assert_eq!(fm.append(&other), Ok(()));
    assert_eq!(fm.template, Some("own".to_string()));
    assert_eq!(fm.publish, Some(true));
}

#[test]
fn append_rejects_fields_of_the_wrong_type() {
    let mut fm = meta();
    let mut other: Attrs = SortedMap::new();
    other.insert("publish".to_string(), s("yes"));
    other.insert("extra".to_string(), s("v"));
    assert_eq!(fm.append(&other), Err("invalid type for `publish`: expected a boolean".to_string()));
    assert!(fm.publish.is_none());
    assert_eq!(fm.extra.len(), 0);
    // the first entry, in the order of the names as given, that does not fit is reported
    other.insert("a".to_string(), YamlValue::Tagged("!t".to_string(), Box::new(s("x"))));
    assert_eq!(fm.append(&other), Err("tagged values are not supported in inherited attributes".to_string()));
    let mut other: Attrs = SortedMap::new();
    other.insert("children".to_string(), s("not a list"));
    assert_eq!(fm.append(&other), Err("invalid type for `children`: expected a sequence of strings".to_string()));
    let mut other: Attrs = SortedMap::new();
    other.insert("Template".to_string(), YamlValue::Bool(true));
    assert_eq!(fm.append(&other), Err("invalid type for `template`: expected a string".to_string()));
}

#[test]
fn append_reports_the_first_bad_field_in_the_order_of_the_given_names() {
    let mut fm = meta();
    // "Template" comes before "publish" among the names as given (capitals first),
    // though "publish" comes first once the names are lowercased
    let mut other: Attrs = SortedMap::new();
    other.insert("publish".to_string(), s("yes"));
    other.insert("Template".to_string(), YamlValue::Bool(true));
    assert_eq!(fm.append(&other), Err("invalid type for `template`: expected a string".to_string()));
    // a name given twice in different case sits where it first comes, with the last value
    let mut other: Attrs = SortedMap::new();
    other.insert("Publish".to_string(), YamlValue::Bool(true));
    other.insert("publish".to_string(), s("no"));
    other.insert("children".to_string(), s("x"));
    assert_eq!(fm.append(&other), Err("invalid type for `publish`: expected a boolean".to_string()));
}

#[test]
fn file_collector_hands_out_root_files_first() {
    // base has a.txt and dir sub; sub has b.txt
    let mut c = FileCollector::new("/base".to_string(), true);
    let mut out = Vec::new();
    let mut reads = Vec::new();
    loop {
        match c.next_action() {
            CollectAction::ReadDir(d) => {
                reads.push(d.clone());
                if d == "/base" {
                    c.add_entry("/base/a.txt".to_string(), true, false);
                    c.add_entry("/base/sub".to_string(), false, true);
                } else if d == "/base/sub" {
                    c.add_entry("/base/sub/b.txt".to_string(), true, false);
                    c.add_entry("/base/sub/c.txt".to_string(), true, false);
                }
            },
            CollectAction::Yield(p) => out.push(p),
            CollectAction::Done => break,
        }
    }
    assert_eq!(reads, vec!["/base".to_string(), "/base/sub".to_string()]);
    // the files of the base directory first, then those of the subdirectory, each in listing order
    assert_eq!(out, vec!["/base/a.txt".to_string(), "/base/sub/b.txt".to_string(), "/base/sub/c.txt".to_string()]);
    // ready to collect again
    assert_eq!(c.dirs_to_visit.len(), 1);
}

#[test]
fn file_collector_without_recursion_skips_subdirectories() {
    let mut c = FileCollector::new("/base".to_string(), false);
    let mut out = Vec::new();
    loop {
        match c.next_action() {
            CollectAction::ReadDir(d) => {
                assert_eq!(d, "/base");
                c.add_entry("/base/a.txt".to_string(), true, false);
                c.add_entry("/base/sub".to_string(), false, true);
            },
            CollectAction::Yield(p) => out.push(p),
            CollectAction::Done => break,
        }
    }
    assert_eq!(out, vec!["/base/a.txt".to_string()]);
}

#[test]
fn appending_the_same_attributes_twice_changes_nothing_more() {
    let mut other: Attrs = SortedMap::new();
    other.insert("template".to_string(), s("post"));
    other.insert("layout".to_string(), s("wide"));
    other.insert("publish".to_string(), YamlValue::Bool(true));
    let mut fm = meta();
    assert_eq!(fm.append(&other), Ok(()));
    let once = (fm.template.clone(), fm.publish, fm.extra.len());
    assert_eq!(fm.append(&other), Ok(()));
    assert_eq!((fm.template.clone(), fm.publish, fm.extra.len()), once);
    assert!(matches!(fm.extra.get(&"layout".to_string()), Some(YamlValue::String(v)) if v == "wide"));
}

#[test]
fn file_collector_visits_nested_directories_before_the_next_one() {
    // base: r.txt, d1/, d2/; d1: x.txt, d1/inner/; d1/inner: y.txt; d2: z.txt
    let mut c = FileCollector::new("/b".to_string(), true);
    let mut out = Vec::new();
    loop {
        match c.next_action() {
            CollectAction::ReadDir(d) => {
                if d == "/b" {
                    c.add_entry("/b/r.txt".to_string(), true, false);
                    c.add_entry("/b/d1".to_string(), false, true);
                    c.add_entry("/b/d2".to_string(), false, true);
                } else if d == "/b/d1" {
                    c.add_entry("/b/d1/x.txt".to_string(), true, false);
                    c.add_entry("/b/d1/inner".to_string(), false, true);
                } else if d == "/b/d1/inner" {
                    c.add_entry("/b/d1/inner/y.txt".to_string(), true, false);
                } else if d == "/b/d2" {
                    c.add_entry("/b/d2/z.txt".to_string(), true, false);
                }
            },
            CollectAction::Yield(p) => out.push(p),
            CollectAction::Done => break,
        }
    }
    assert_eq!(out[0], "/b/r.txt");
    assert_eq!(out.len(), 4);
    // whatever directory comes next, the ones inside it come before its siblings
    let pos = |p: &str| out.iter().position(|x| x == p).expect("collected");
    assert!(pos("/b/d1/x.txt") < pos("/b/d1/inner/y.txt"));
    assert!((pos("/b/d1/inner/y.txt") < pos("/b/d2/z.txt")) == (pos("/b/d1/x.txt") < pos("/b/d2/z.txt")));
    // and it is ready to collect again
    assert!(matches!(c.next_action(), CollectAction::ReadDir(d) if d == "/b"));
}

fn walk_once(c: &mut FileCollector) -> Vec<String> {
    let mut out = Vec::new();
    loop {
        match c.next_action() {
            CollectAction::ReadDir(d) => {
                if d == "/w" {
                    c.add_entry("/w/one.txt".to_string(), true, false);
                    c.add_entry("/w/sub".to_string(), false, true);
                    c.add_entry("/w/two.txt".to_string(), true, false);
                } else if d == "/w/sub" {
                    c.add_entry("/w/sub/three.txt".to_string(), true, false);
                }
            },
            CollectAction::Yield(p) => out.push(p),
            CollectAction::Done => return out,
        }
    }
}

#[test]
fn file_collector_walks_again_after_done() {
    let mut c = FileCollector::new("/w".to_string(), true);
    let first = walk_once(&mut c);
    assert_eq!(first, vec!["/w/one.txt".to_string(), "/w/two.txt".to_string(), "/w/sub/three.txt".to_string()]);
    let second = walk_once(&mut c);
    assert_eq!(second, first);
}
