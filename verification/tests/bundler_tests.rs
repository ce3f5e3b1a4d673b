use bundler_core::{
    ext_by_module_uri, resolve_source_type_by_uri, Chunk, ChunkGraph, ChunkIdAlgo,
    ChunkIdGenerator, ChunkKind, Compilation, ComplierOptions, Dependency, EntryItem, JobContext,
    Module, ModuleDependency, ModuleGraph, ModuleGraphModule, ModuleIdAlgo, Msg, ParseModuleArgs,
    Plugin, PluginDriver, ResolveKind, SourceType,
};

#[derive(Debug)]
struct FakeModule {
    deps: Vec<ModuleDependency>,
}

impl Module for FakeModule {
    fn render(&self) -> String {
        String::new()
    }

    fn dependencies(&mut self) -> Vec<ModuleDependency> {
        self.deps.clone()
    }
}

fn fake(deps: Vec<ModuleDependency>) -> Box<dyn Module> {
    Box::new(FakeModule { deps })
}

fn dep(importer: Option<&str>, specifier: &str, kind: ResolveKind) -> Dependency {
    Dependency {
        importer: importer.map(|s| s.to_string()),
        specifier: specifier.to_string(),
        kind,
    }
}

fn add_module(g: &mut ModuleGraph, uri: &str, deps: Vec<Dependency>) {
    let m = ModuleGraphModule::new(fake(vec![]), uri.to_string(), SourceType::Js, deps);
    g.add_module(m);
}

/// Builds the two-entry scenario: `main.js` imports `./shared.js`;
/// `admin.js` imports `/src/main.js` and `./shared.js`; `shared.js`
/// imports nothing.
fn two_entry_compilation() -> Compilation {
    let mut g = ModuleGraph::new();
    let main_uri = "/src/main.js";
    let admin_uri = "/src/admin.js";
    let shared_uri = "/src/shared.js";

    let e_main = dep(None, "/src/main.js", ResolveKind::Import);
    let e_admin = dep(None, "/src/admin.js", ResolveKind::Import);
    let d_main_shared = dep(Some(main_uri), "./shared.js", ResolveKind::Import);
    let d_admin_main = dep(Some(admin_uri), "/src/main.js", ResolveKind::Import);
    let d_admin_shared = dep(Some(admin_uri), "./shared.js", ResolveKind::Import);

    g.add_dependency(e_main.clone(), main_uri.to_string());
    g.add_dependency(e_admin.clone(), admin_uri.to_string());
    g.add_dependency(d_main_shared.clone(), shared_uri.to_string());
    g.add_dependency(d_admin_main.clone(), main_uri.to_string());
    g.add_dependency(d_admin_shared.clone(), shared_uri.to_string());

    add_module(&mut g, main_uri, vec![d_main_shared]);
    add_module(&mut g, admin_uri, vec![d_admin_main, d_admin_shared]);
    add_module(&mut g, shared_uri, vec![]);

    let entries = vec![
        (
            "main".to_string(),
            EntryItem { path: "/src/main.js".to_string() },
        ),
        (
            "admin".to_string(),
            EntryItem { path: "/src/admin.js".to_string() },
        ),
    ];
    let options = ComplierOptions { entries: entries.clone(), root: "/src".to_string() };
    Compilation::new(options, entries, Vec::new(), g)
}

fn chunk_members(c: &Chunk) -> Vec<String> {
    let mut v = c.module_uris.clone();
    v.sort();
    v
}

#[test]
fn two_entries_dominance_pruning() {
    let mut c = two_entry_compilation();
    let _ = c.calc_exec_order();
    c.seal();

    let main_chunk = c.chunk_graph.chunk_by_id("main_js").expect("main chunk");
    let admin_chunk = c.chunk_graph.chunk_by_id("admin_js").expect("admin chunk");
    assert_eq!(
        chunk_members(main_chunk),
        vec!["/src/main.js".to_string(), "/src/shared.js".to_string()]
    );
    assert_eq!(chunk_members(admin_chunk), vec!["/src/admin.js".to_string()]);
    assert!(main_chunk.kind.is_entry());
    assert!(admin_chunk.kind.is_entry());
}

#[test]
fn cycle_is_absorbed() {
    let mut g = ModuleGraph::new();
    let a = "/p/a.js";
    let b = "/p/b.js";
    let e_a = dep(None, "/p/a.js", ResolveKind::Import);
    let d_ab = dep(Some(a), "./b.js", ResolveKind::Import);
    let d_ba = dep(Some(b), "./a.js", ResolveKind::Import);
    g.add_dependency(e_a.clone(), a.to_string());
    g.add_dependency(d_ab.clone(), b.to_string());
    g.add_dependency(d_ba.clone(), a.to_string());
    add_module(&mut g, a, vec![d_ab]);
    add_module(&mut g, b, vec![d_ba]);

    let entries = vec![("a".to_string(), EntryItem { path: "/p/a.js".to_string() })];
    let options = ComplierOptions { entries: entries.clone(), root: "/p".to_string() };
    let mut c = Compilation::new(options, entries, Vec::new(), g);

    let _ = c.calc_exec_order();
    let oa = c.module_graph.module_by_uri(a).unwrap().exec_order;
    let ob = c.module_graph.module_by_uri(b).unwrap().exec_order;
    assert!(oa != ob);
    assert!(oa < 2 && ob < 2);

    c.seal();
    let chunk = c.chunk_graph.chunk_by_id("a_js").expect("entry chunk");
    assert_eq!(
        chunk_members(chunk),
        vec!["/p/a.js".to_string(), "/p/b.js".to_string()]
    );
}

#[test]
fn exec_order_is_a_permutation() {
    // diamond: e -> x, y; x -> z; y -> z
    let mut g = ModuleGraph::new();
    let e = "/d/e.js";
    let x = "/d/x.js";
    let y = "/d/y.js";
    let z = "/d/z.js";
    let e_dep = dep(None, "/d/e.js", ResolveKind::Import);
    let d_ex = dep(Some(e), "./x.js", ResolveKind::Import);
    let d_ey = dep(Some(e), "./y.js", ResolveKind::Import);
    let d_xz = dep(Some(x), "./z.js", ResolveKind::Import);
    let d_yz = dep(Some(y), "./z.js", ResolveKind::Import);
    g.add_dependency(e_dep, e.to_string());
    g.add_dependency(d_ex.clone(), x.to_string());
    g.add_dependency(d_ey.clone(), y.to_string());
    g.add_dependency(d_xz.clone(), z.to_string());
    g.add_dependency(d_yz.clone(), z.to_string());
    add_module(&mut g, e, vec![d_ex, d_ey]);
    add_module(&mut g, x, vec![d_xz]);
    add_module(&mut g, y, vec![d_yz]);
    add_module(&mut g, z, vec![]);

    let entries = vec![("e".to_string(), EntryItem { path: "/d/e.js".to_string() })];
    let options = ComplierOptions { entries: entries.clone(), root: "/d".to_string() };
    let mut c = Compilation::new(options, entries, Vec::new(), g);
    let _ = c.calc_exec_order();

    let mut orders: Vec<usize> = [e, x, y, z]
        .iter()
        .map(|u| c.module_graph.module_by_uri(u).unwrap().exec_order)
        .collect();
    orders.sort();
    assert_eq!(orders, vec![0, 1, 2, 3]);
    // depth-first from the entry, first-declared dependency next
    assert_eq!(c.module_graph.module_by_uri(e).unwrap().exec_order, 0);
    assert_eq!(c.module_graph.module_by_uri(x).unwrap().exec_order, 1);
    assert_eq!(c.module_graph.module_by_uri(z).unwrap().exec_order, 2);
    assert_eq!(c.module_graph.module_by_uri(y).unwrap().exec_order, 3);
}

#[test]
fn dynamic_import_stays_out() {
    let mut g = ModuleGraph::new();
    let a = "/p/a.js";
    let b = "/p/b.js";
    let e_a = dep(None, "/p/a.js", ResolveKind::Import);
    let d_ab = dep(Some(a), "./b.js", ResolveKind::DynamicImport);
    g.add_dependency(e_a, a.to_string());
    g.add_dependency(d_ab.clone(), b.to_string());
    add_module(&mut g, a, vec![d_ab]);
    add_module(&mut g, b, vec![]);

    let entries = vec![("a".to_string(), EntryItem { path: "/p/a.js".to_string() })];
    let options = ComplierOptions { entries: entries.clone(), root: "/p".to_string() };
    let mut c = Compilation::new(options, entries, Vec::new(), g);
    let _ = c.calc_exec_order();
    assert_eq!(c.module_graph.module_by_uri(a).unwrap().exec_order, 0);
    // the dynamically imported module is a separate lazy unit: never numbered
    assert_eq!(
        c.module_graph.module_by_uri(b).unwrap().exec_order,
        usize::MAX
    );
    c.seal();
    let chunk = c.chunk_graph.chunk_by_id("a_js").expect("entry chunk");
    assert_eq!(chunk_members(chunk), vec!["/p/a.js".to_string()]);
}

#[test]
fn mutual_entry_cycle_prunes_both_chunks() {
    // both entry anchors dominate each other: placement suppresses every
    // copy, and the empty chunks disappear
    let mut g = ModuleGraph::new();
    let x = "/p/x.js";
    let y = "/p/y.js";
    let e_x = dep(None, "/p/x.js", ResolveKind::Import);
    let e_y = dep(None, "/p/y.js", ResolveKind::Import);
    let d_xy = dep(Some(x), "./y.js", ResolveKind::Import);
    let d_yx = dep(Some(y), "./x.js", ResolveKind::Import);
    g.add_dependency(e_x, x.to_string());
    g.add_dependency(e_y, y.to_string());
    g.add_dependency(d_xy.clone(), y.to_string());
    g.add_dependency(d_yx.clone(), x.to_string());
    add_module(&mut g, x, vec![d_xy]);
    add_module(&mut g, y, vec![d_yx]);

    let entries = vec![
        ("x".to_string(), EntryItem { path: "/p/x.js".to_string() }),
        ("y".to_string(), EntryItem { path: "/p/y.js".to_string() }),
    ];
    let options = ComplierOptions { entries: entries.clone(), root: "/p".to_string() };
    let mut c = Compilation::new(options, entries, Vec::new(), g);
    let _ = c.calc_exec_order();
    c.seal();
    assert_eq!(c.chunk_graph.chunks().len(), 0);
}

#[test]
fn one_record_per_uri() {
    let mut g = ModuleGraph::new();
    add_module(&mut g, "/p/a.js", vec![]);
    add_module(&mut g, "/p/a.js", vec![]);
    assert_eq!(g.modules().len(), 1);
}

#[test]
fn dependency_lookup() {
    let mut g = ModuleGraph::new();
    let d = dep(Some("/p/a.js"), "./b.js", ResolveKind::Require);
    g.add_dependency(d.clone(), "/p/b.js".to_string());
    add_module(&mut g, "/p/b.js", vec![]);
    assert_eq!(g.uri_by_dependency(&d), Some("/p/b.js"));
    assert_eq!(g.module_by_dependency(&d).unwrap().id(), "/p/b.js");
    let other = dep(Some("/p/a.js"), "./c.js", ResolveKind::Require);
    assert!(g.uri_by_dependency(&other).is_none());
    assert!(g.module_by_uri("/p/b.js").is_some());
    assert!(g.module_by_uri("/p/c.js").is_none());
}

#[test]
fn visited_set_dedup() {
    let mut c = two_entry_compilation();
    assert!(c.try_visit("/src/main.js"));
    assert!(!c.try_visit("/src/main.js"));
    assert!(c.try_visit("/src/admin.js"));
}

#[test]
fn process_msg_counts_jobs() {
    let mut c = two_entry_compilation();
    let d = dep(Some("/src/main.js"), "./extra.js", ResolveKind::Import);
    let n = c.process_msg(Msg::DependencyReference(d.clone(), "/src/extra.js".to_string()), 2);
    assert_eq!(n, 2);
    assert_eq!(c.module_graph.uri_by_dependency(&d), Some("/src/extra.js"));
    let m = ModuleGraphModule::new(
        fake(vec![]),
        "/src/extra.js".to_string(),
        SourceType::Js,
        vec![],
    );
    let n = c.process_msg(Msg::TaskFinished(Box::new(m)), 2);
    assert_eq!(n, 1);
    assert!(c.module_graph.module_by_uri("/src/extra.js").is_some());
    let n = c.process_msg(Msg::TaskErrorEncountered(()), 1);
    assert_eq!(n, 0);
}

#[test]
fn ordered_module_sorts_by_exec_order() {
    let mut c = two_entry_compilation();
    let _ = c.calc_exec_order();
    c.seal();
    let main_chunk = c.chunk_graph.chunk_by_id("main_js").expect("main chunk");
    let ordered = main_chunk.ordered_module(&c.module_graph);
    assert_eq!(ordered.len(), 2);
    assert!(ordered[0].exec_order <= ordered[1].exec_order);
    assert_eq!(ordered[0].id(), "/src/main.js");
    assert_eq!(ordered[1].id(), "/src/shared.js");
}
