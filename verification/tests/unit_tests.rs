use bundler_core::utils::{dirname_of, extension_of, path_join, usize_to_string};
use bundler_core::{Dependency, ResolveKind};
use bundler_core::{
    ext_by_module_uri, resolve_source_type_by_uri, ChunkGraph, ChunkIdAlgo, ChunkIdGenerator,
    Chunk, ChunkKind, JobContext, ModuleIdAlgo, ParseModuleArgs, PluginDriver, ComplierOptions,
    SourceType,
};
use std::str::FromStr;

#[test]
fn source_type_from_extension() {
    assert_eq!(SourceType::from_ext("json"), Some(SourceType::Json));
    assert_eq!(SourceType::from_ext("css"), Some(SourceType::Css));
    assert_eq!(SourceType::from_ext("js"), Some(SourceType::Js));
    assert_eq!(SourceType::from_ext("jsx"), Some(SourceType::Jsx));
    assert_eq!(SourceType::from_ext("tsx"), Some(SourceType::Tsx));
    assert_eq!(SourceType::from_ext("ts"), Some(SourceType::Ts));
    assert_eq!(SourceType::from_ext("rs"), None);
    assert_eq!(SourceType::from_ext(""), None);
}

#[test]
fn source_type_by_uri() {
    assert_eq!(resolve_source_type_by_uri("/src/a/b.ts"), Some(SourceType::Ts));
    assert_eq!(resolve_source_type_by_uri("/src/a.config.json"), Some(SourceType::Json));
    assert_eq!(resolve_source_type_by_uri("/src/readme"), None);
    assert_eq!(resolve_source_type_by_uri("/src/v1.2/x.css"), Some(SourceType::Css));
}

#[test]
fn named_chunk_ids_flatten_paths() {
    assert_eq!(ext_by_module_uri("/src", "/src/main.js"), "main_js");
    assert_eq!(ext_by_module_uri("/src", "/src/a/b.js"), "a_b_js");
    assert_eq!(ext_by_module_uri("/root", "/root/pages/admin.tsx"), "pages_admin_tsx");
}

#[test]
fn chunk_id_generator_numeric() {
    let mut gen = ChunkIdGenerator {
        id: 0,
        chunk_id_algo: ChunkIdAlgo::Numeric,
        root: "/src".to_string(),
    };
    assert_eq!(gen.gen_id("/src/a.js"), "0");
    assert_eq!(gen.gen_id("/src/b.js"), "1");
    assert_eq!(gen.gen_id("/src/c.js"), "2");
}

#[test]
fn chunk_id_generator_named() {
    let mut gen = ChunkIdGenerator {
        id: 0,
        chunk_id_algo: ChunkIdAlgo::Named,
        root: "/src".to_string(),
    };
    assert_eq!(gen.gen_id("/src/pages/app.js"), "pages_app_js");
}

#[test]
fn decimal_rendering() {
    assert_eq!(usize_to_string(0), "0");
    assert_eq!(usize_to_string(7), "7");
    assert_eq!(usize_to_string(10), "10");
    assert_eq!(usize_to_string(90210), "90210");
}

#[test]
fn path_helpers() {
    assert_eq!(path_join("/root", "src/a.js"), "/root/src/a.js");
    assert_eq!(path_join("/root/", "src/a.js"), "/root/src/a.js");
    assert_eq!(path_join("/root", "/abs/a.js"), "/abs/a.js");
    assert_eq!(path_join("", "a.js"), "a.js");
    assert_eq!(dirname_of("/src/main.js"), "/src");
    assert_eq!(dirname_of("main.js"), "");
    assert_eq!(extension_of("/src/a.tar.gz"), "gz");
    assert_eq!(extension_of("/src/.gitignore"), "");
    assert_eq!(extension_of("/src/noext"), "");
}

#[test]
fn id_algo_flags() {
    assert!(ChunkIdAlgo::Named.is_named());
    assert!(!ChunkIdAlgo::Named.is_numeric());
    assert!(ChunkIdAlgo::Numeric.is_numeric());
    assert!(ModuleIdAlgo::Named.is_named());
    assert!(ModuleIdAlgo::Numeric.is_numeric());
    assert!(matches!(ChunkIdAlgo::from_str("named"), Ok(ChunkIdAlgo::Named)));
    assert!(ChunkIdAlgo::from_str("other").is_err());
    assert!(matches!(ModuleIdAlgo::from_str("named"), Ok(ModuleIdAlgo::Named)));
    assert!(ModuleIdAlgo::from_str("numeric").is_err());
}

#[test]
fn chunk_graph_indexes_move_together() {
    let mut cg = ChunkGraph::new();
    let c = Chunk::new(
        "main_js".to_string(),
        "/src/main.js".to_string(),
        ChunkKind::Entry { name: "main".to_string() },
    );
    cg.add_chunk(c);
    assert!(cg.chunk_by_id("main_js").is_some());
    assert!(cg.chunk_by_spit_module_point("/src/main.js").is_some());
    assert_eq!(
        cg.chunk_by_spit_module_point("/src/main.js").unwrap().id,
        "main_js"
    );
    let removed = cg.remove_by_id("main_js").expect("chunk present");
    assert_eq!(removed.id, "main_js");
    assert!(cg.chunk_by_id("main_js").is_none());
    assert!(cg.chunk_by_spit_module_point("/src/main.js").is_none());
    assert_eq!(cg.chunks().len(), 0);
}

#[test]
fn chunk_kind_flags() {
    let e = ChunkKind::Entry { name: "main".to_string() };
    let n = ChunkKind::Normal;
    assert!(e.is_entry() && !e.is_normal());
    assert!(n.is_normal() && !n.is_entry());
}

#[test]
fn parse_module_without_source_type_fails() {
    let driver = PluginDriver::new(ComplierOptions::default(), Vec::new());
    let mut ctx = JobContext { importer: None, source_type: None };
    let r = driver.parse_module(
        ParseModuleArgs { uri: "/src/a.js".to_string(), source: String::new() },
        &mut ctx,
    );
    assert!(r.is_err());
    let mut ctx2 = JobContext { importer: None, source_type: Some(SourceType::Js) };
    let r2 = driver.parse_module(
        ParseModuleArgs { uri: "/src/a.js".to_string(), source: String::new() },
        &mut ctx2,
    );
    assert!(r2.is_err());
}

#[test]
fn job_context_source_type() {
    let mut ctx = JobContext { importer: Some("/src/a.js".to_string()), source_type: None };
    ctx.set_source_type(SourceType::Tsx);
    assert_eq!(ctx.source_type, Some(SourceType::Tsx));
    assert_eq!(ctx.importer.as_deref(), Some("/src/a.js"));
}

#[test]
fn resolution_helpers() {
    assert_eq!(
        bundler_core::resolve_module_job::resolve_entry_uri("/root", "src/main.js"),
        "/root/src/main.js"
    );
    assert_eq!(
        bundler_core::resolve_module_job::base_dir_of("/root/src/main.js"),
        "/root/src"
    );
    assert_eq!(
        bundler_core::resolve_module_job::resolved_uri_from(
            "./a.js",
            Some("/root/a.js".to_string())
        ),
        "/root/a.js"
    );
    assert_eq!(
        bundler_core::resolve_module_job::resolved_uri_from("pkg-name", None),
        "pkg-name"
    );
}

#[test]
fn named_chunk_id_for_unresolved_specifier() {
    // a specifier that never resolved to a path is flattened as it stands
    assert_eq!(ext_by_module_uri("/src", "pkg"), "pkg_");
}

#[test]
fn dependency_identity_is_the_triple() {
    let a = Dependency {
        importer: Some("/src/a.js".to_string()),
        specifier: "./b.js".to_string(),
        kind: ResolveKind::Import,
    };
    let b = a.clone();
    assert!(a.key_eq(&b));
    let c = Dependency {
        importer: Some("/src/a.js".to_string()),
        specifier: "./b.js".to_string(),
        kind: ResolveKind::DynamicImport,
    };
    assert!(!a.key_eq(&c));
    let d = Dependency {
        importer: None,
        specifier: "./b.js".to_string(),
        kind: ResolveKind::Import,
    };
    assert!(!a.key_eq(&d));
}

#[test]
fn entry_join_keeps_single_separator() {
    assert_eq!(
        bundler_core::resolve_module_job::resolve_entry_uri("/root/", "a.js"),
        "/root/a.js"
    );
}

struct TaggedModule {
    tag: &'static str,
}

impl bundler_core::Module for TaggedModule {
    fn render(&self) -> String {
        self.tag.to_string()
    }
}

struct TaggedPlugin {
    tag: &'static str,
    types: Vec<SourceType>,
}

impl bundler_core::Plugin for TaggedPlugin {
    fn register_parse_module(&self) -> Option<Vec<SourceType>> {
        Some(self.types.clone())
    }

    fn parse_module(
        &self,
        _job_ctx: &mut JobContext,
        _args: ParseModuleArgs,
    ) -> Option<bundler_core::BoxModule> {
        Some(Box::new(TaggedModule { tag: self.tag }))
    }
}

#[test]
fn parse_dispatch_last_registration_wins() {
    let plugins: Vec<Box<dyn bundler_core::Plugin>> = vec![
        Box::new(TaggedPlugin { tag: "first", types: vec![SourceType::Js, SourceType::Css] }),
        Box::new(TaggedPlugin { tag: "second", types: vec![SourceType::Js] }),
    ];
    let driver = PluginDriver::new(ComplierOptions::default(), plugins);

    let mut ctx_js = JobContext { importer: None, source_type: Some(SourceType::Js) };
    let parsed_js = driver
        .parse_module(
            ParseModuleArgs { uri: "/src/a.js".to_string(), source: String::new() },
            &mut ctx_js,
        )
        .expect("js is registered");
    assert_eq!(parsed_js.render(), "second");

    let mut ctx_css = JobContext { importer: None, source_type: Some(SourceType::Css) };
    let parsed_css = driver
        .parse_module(
            ParseModuleArgs { uri: "/src/a.css".to_string(), source: String::new() },
            &mut ctx_css,
        )
        .expect("css is registered");
    assert_eq!(parsed_css.render(), "first");

    let mut ctx_ts = JobContext { importer: None, source_type: Some(SourceType::Ts) };
    let unregistered = driver.parse_module(
        ParseModuleArgs { uri: "/src/a.ts".to_string(), source: String::new() },
        &mut ctx_ts,
    );
    assert!(matches!(
        unregistered,
        Err(bundler_core::BuildError::UnsupportedSourceType)
    ));
}
