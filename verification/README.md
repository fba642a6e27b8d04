# garage_sale_gen

A small static site builder: Markdown pages with YAML front matter are gathered from a
content directory, linked into a dependency graph (a page lists child pages or whole
directories), processed children first (parents hand attributes down to their children,
children's metadata is gathered by their parents), and rendered with Tera templates.

## Layout

- `src/` is the verified library (Verus). Every public function there has a contract, and
  every function there is verified (but for the few marked trusted, which call std or an
  outside crate):
  - `graph.rs`: the dependency graph, its construction, ordering (children before
    parents) and incremental rebuild.
  - `processor.rs`: processing in dependency order, attribute inheritance, page
    metadata and URLs, navigation and breadcrumbs.
  - `site_builder.rs`: the page and static-file registries and `build_site`.
  - `models.rs`, `yaml.rs`, `page_id.rs`, `path.rs`: the data model.
  - `config.rs`, `cli.rs`: configuration from files, environment and command line.
  - `renderer.rs`: template choice, template functions, output paths.
  - `colors.rs`: the word-to-color helpers used by the template filters.
  - `file_collector.rs`: the order in which files are collected.
  - `order_laws.rs`, `nav_laws.rs`, `walk_laws.rs`: laws over the graph, processing,
    navigation and a whole walk of the file collector.
  - `error.rs`: errors, their messages and the lines of source an error shows.
  - `sorted_map.rs`, `order.rs`, `text.rs`: ordered maps, orders on keys, text helpers.
- `app/` is the command-line program around it: argument parsing, file system access,
  YAML and front matter reading, Tera rendering and terminal output.
- `tests/` exercises the library on concrete sites.
