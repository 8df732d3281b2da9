use bundler::builder::build;
use bundler::error::ErrorKind;
use bundler::graph::{copy_module, Module, ModuleGraph};
use bundler::linker::{add_runtime, bundle, collect_modules, to_module_map};
use bundler::paths::{canonical_path, resolve_specifier};
use bundler::resolver::{create_dependency_graph, new_module, resolve_imports, Resolver, SourceFile};
use bundler::syntax::{NodeKind, SyntaxItem};
use bundler::text::shadow_text;
use rslint_parser::SyntaxKind;

fn tree(src: &str) -> Vec<SyntaxItem> {
    let text = shadow_text(src);
    rslint_parser::parse_module(&text, 0)
        .syntax()
        .descendants()
        .map(|node| SyntaxItem {
            kind: match node.kind() {
                SyntaxKind::IMPORT_DECL => NodeKind::ImportDecl,
                SyntaxKind::EXPORT_DECL => NodeKind::ExportDecl,
                SyntaxKind::EXPORT_DEFAULT_EXPR => NodeKind::ExportDefaultExpr,
                SyntaxKind::LITERAL | SyntaxKind::IMPORT_STRING_SPECIFIER => NodeKind::Literal,
                SyntaxKind::NAMED_IMPORTS => NodeKind::NamedImports,
                SyntaxKind::EXPORT_NAMED => NodeKind::ExportNamed,
                SyntaxKind::VAR_DECL => NodeKind::VarDecl,
                SyntaxKind::SPECIFIER => NodeKind::Specifier,
                _ => NodeKind::Other,
            },
            start: node.text_range().start().into(),
            end: node.text_range().end().into(),
            depth: node.ancestors().count(),
        })
        .collect()
}


fn s(text: &str) -> String {
    text.to_string()
}

fn file(path: &str, content: &str) -> SourceFile {
    SourceFile { path: s(path), content: s(content), syntax: tree(content) }
}

fn module(path: &str, content: &str, deps: &[&str]) -> Module {
    Module {
        file_path: s(path),
        module_content: s(content),
        syntax: tree(content),
        dependencies: deps.iter().map(|d| s(d)).collect(),
    }
}

fn graph_of(modules: Vec<Module>) -> ModuleGraph {
    let mut graph = ModuleGraph::new();
    for m in modules {
        graph = graph.insert(m).0;
    }
    graph
}

fn paths(modules: &[Module]) -> Vec<String> {
    modules.iter().map(|m| m.file_path.clone()).collect()
}

fn count(text: &str, part: &str) -> usize {
    text.matches(part).count()
}

#[test]
fn specifier_resolves_against_the_directory_of_the_importer() {
    assert_eq!(resolve_specifier("/p/a.js", "./m", "/cwd"), Some(s("/p/m")));
    assert_eq!(resolve_specifier("/p/a.js", "./m.js", "/cwd"), Some(s("/p/m.js")));
    assert_eq!(resolve_specifier("/p/q/a.js", "../lib/./m.js", "/cwd"), Some(s("/p/lib/m.js")));
    assert_eq!(resolve_specifier("/p/a.js", "/abs/m.js", "/cwd"), Some(s("/abs/m.js")));
}

#[test]
fn specifier_of_a_file_without_directory_does_not_resolve() {
    assert_eq!(resolve_specifier("/", "./m", "/cwd"), None);
    assert_eq!(resolve_specifier("", "./m", "/cwd"), None);
}

#[test]
fn canonical_path_starts_relative_paths_at_the_working_directory() {
    assert_eq!(canonical_path("src/main.js", "/work/dir"), Some(s("/work/dir/src/main.js")));
    assert_eq!(canonical_path("./src/../main.js", "/work/dir"), Some(s("/work/dir/main.js")));
    assert_eq!(canonical_path("../main.js", "/work/dir"), Some(s("/work/main.js")));
    assert_eq!(canonical_path("/abs/./x/../main.js", "/work/dir"), Some(s("/abs/main.js")));
}

#[test]
fn imports_resolve_in_order() {
    let src = "import b from './b';\nimport c from '../c';\nlet x;\nimport {d} from './b';";
    let found = resolve_imports(&s("/p/a.js"), src, &tree(src), &s("/cwd")).unwrap();
    assert_eq!(found, vec![s("/p/b"), s("/c"), s("/p/b")]);
}

#[test]
fn import_that_does_not_resolve_is_a_path_resolution_error() {
    let src = "let x;\nimport b from './b';";
    let e = resolve_imports(&s("/"), src, &tree(src), &s("/cwd")).unwrap_err();
    assert_eq!(e.kind, ErrorKind::PathResolutionError);
    assert_eq!(e.path, "/");
    assert_eq!(e.statement, b"import b from './b';".to_vec());
}

#[test]
fn first_import_that_fails_is_reported() {
    let src = "import a from './a';\nimport b from;\nimport c from './c';";
    let e = resolve_imports(&s("/p/m.js"), src, &tree(src), &s("/cwd")).unwrap_err();
    assert_eq!(e.kind, ErrorKind::MalformedImport);
    assert_eq!(e.path, "/p/m.js");
    assert_eq!(e.statement, b"import b from;".to_vec());
}

#[test]
fn module_record_holds_path_text_and_dependencies() {
    let src = "import x from './x.js';\nimport {y} from './lib/y.js';";
    let m = new_module(s("/p/a.js"), s(src), tree(src), &s("/cwd")).unwrap();
    assert_eq!(m.syntax.len(), tree(src).len());
    assert_eq!(m.file_path, "/p/a.js");
    assert_eq!(m.module_content, "import x from './x.js';\nimport {y} from './lib/y.js';");
    assert_eq!(m.dependencies, vec![s("/p/x.js"), s("/p/lib/y.js")]);
}

#[test]
fn module_record_of_a_malformed_import_names_the_module() {
    let e = new_module(s("/p/a.js"), s("import x from;"), tree("import x from;"), &s("/cwd")).unwrap_err();
    assert_eq!(e.kind, ErrorKind::MalformedImport);
    assert_eq!(e.path, "/p/a.js");
    assert_eq!(e.statement, b"import x from;".to_vec());
}

#[test]
fn resolver_asks_for_the_entry_first_and_then_for_each_import() {
    let r = Resolver::new(&s("a.js"), &s("/p")).unwrap();
    let (r, ask) = r.next_request();
    assert_eq!(ask, Some(s("/p/a.js")));
    let r = r.supply(s("/p/a.js"), Some(s("import b from './b.js';\nimport c from './c.js';")), tree("import b from './b.js';\nimport c from './c.js';")).unwrap();
    let (r, ask) = r.next_request();
    assert_eq!(ask, Some(s("/p/b.js")));
    let r = r.supply(s("/p/b.js"), Some(s("import a from './a.js';")), tree("import a from './a.js';")).unwrap();
    let (r, ask) = r.next_request();
    assert_eq!(ask, Some(s("/p/c.js")));
    let r = r.supply(s("/p/c.js"), Some(s("export default 1;")), tree("export default 1;")).unwrap();
    let (r, ask) = r.next_request();
    assert_eq!(ask, None);
    assert_eq!(paths(r.modules()), vec![s("/p/a.js"), s("/p/b.js"), s("/p/c.js")]);
}

#[test]
fn resolver_repeats_its_request_until_it_is_answered() {
    let r = Resolver::new(&s("/p/a.js"), &s("/")).unwrap();
    let (r, first) = r.next_request();
    let (r, second) = r.next_request();
    assert_eq!(first, second);
    assert!(r.modules().is_empty());
}

#[test]
fn resolver_ignores_a_second_text_for_a_known_path() {
    let r = Resolver::new(&s("/p/a.js"), &s("/")).unwrap();
    let r = r.supply(s("/p/a.js"), Some(s("let x;")), tree("let x;")).unwrap();
    let r = r.supply(s("/p/a.js"), Some(s("import y from './y';")), tree("import y from './y';")).unwrap();
    assert_eq!(r.modules().len(), 1);
    assert_eq!(r.modules()[0].module_content, "let x;");
    let (_, ask) = r.next_request();
    assert_eq!(ask, None);
}

#[test]
fn resolver_fails_on_an_unreadable_file() {
    let r = Resolver::new(&s("/p/a.js"), &s("/")).unwrap();
    let e = r.supply(s("/p/a.js"), None, Vec::new()).unwrap_err();
    assert_eq!(e.kind, ErrorKind::SourceReadError);
    assert_eq!(e.path, "/p/a.js");
}

#[test]
fn cycle_terminates_with_one_module_each() {
    let sources = vec![
        file("/p/a.js", "import b from './b.js';\nexport default 1;"),
        file("/p/b.js", "import a from './a.js';\nexport default 2;"),
    ];
    let graph = create_dependency_graph(&s("/p/a.js"), &s("/"), sources).unwrap();
    assert_eq!(paths(graph.modules()), vec![s("/p/a.js"), s("/p/b.js")]);
    assert_eq!(graph.modules()[0].dependencies, vec![s("/p/b.js")]);
    assert_eq!(graph.modules()[1].dependencies, vec![s("/p/a.js")]);
    let table = collect_modules(graph, &s("/p/a.js")).unwrap();
    assert_eq!(paths(&table), vec![s("/p/a.js"), s("/p/b.js")]);
}

#[test]
fn module_that_imports_itself_terminates() {
    let sources = vec![file("/p/a.js", "import a from './a.js';")];
    let graph = create_dependency_graph(&s("/p/a.js"), &s("/"), sources).unwrap();
    assert_eq!(paths(graph.modules()), vec![s("/p/a.js")]);
}

#[test]
fn shared_dependency_has_one_entry_and_one_path() {
    let sources = vec![
        file("/p/main.js", "import a from './a.js';\nimport b from './lib/b.js';"),
        file("/p/a.js", "import c from './lib/c.js';\nexport default c;"),
        file("/p/lib/b.js", "import {c} from './c.js';\nexport default c;"),
        file("/p/lib/c.js", "export default 3;"),
    ];
    let (_, code) = build(&s("main.js"), &s("/p"), sources).unwrap();
    let code = String::from_utf8(code).unwrap();
    assert_eq!(count(&code, "\"/p/lib/c.js\": function(exports, require) {"), 1);
    assert_eq!(count(&code, "\"/p/a.js\": function(exports, require) {"), 1);
    assert_eq!(count(&code, "\"/p/lib/b.js\": function(exports, require) {"), 1);
    assert_eq!(count(&code, "\"/p/main.js\": function(exports, require) {"), 1);
    assert!(code.contains("const {default: c} = require(\"/p/lib/c.js\");"));
    assert!(code.contains("const {c} = require(\"/p/lib/c.js\");"));
}

#[test]
fn modules_come_in_first_discovery_order() {
    let sources = vec![
        file("/p/lib/c.js", "export default 3;"),
        file("/p/lib/b.js", "import {c} from './c.js';"),
        file("/p/a.js", "import c from './lib/c.js';\nimport d from './d.js';"),
        file("/p/d.js", ""),
        file("/p/main.js", "import a from './a.js';\nimport b from './lib/b.js';"),
        file("/p/unused.js", "import nothing from './nothing.js';"),
    ];
    let graph = create_dependency_graph(&s("/p/main.js"), &s("/"), sources).unwrap();
    let expected = vec![s("/p/main.js"), s("/p/a.js"), s("/p/lib/c.js"), s("/p/d.js"), s("/p/lib/b.js")];
    assert_eq!(paths(graph.modules()), expected);
    assert_eq!(paths(&collect_modules(graph, &s("/p/main.js")).unwrap()), expected);
}

#[test]
fn same_build_twice_gives_the_same_bundle() {
    let sources = || {
        vec![
            file("/p/main.js", "import a from './a.js';\nimport b from './b.js';\nconsole.log(a + b);"),
            file("/p/a.js", "import b from './b.js';\nexport default b + 1;"),
            file("/p/b.js", "export default 1;"),
        ]
    };
    let first = build(&s("/p/main.js"), &s("/"), sources()).unwrap();
    let second = build(&s("/p/main.js"), &s("/"), sources()).unwrap();
    assert_eq!(first, second);
    let g1 = create_dependency_graph(&s("/p/main.js"), &s("/"), sources()).unwrap();
    let g2 = create_dependency_graph(&s("/p/main.js"), &s("/"), sources()).unwrap();
    assert_eq!(paths(g1.modules()), paths(g2.modules()));
    assert_eq!(to_module_map(g1.modules(), &s("/")).unwrap(), to_module_map(g2.modules(), &s("/")).unwrap());
}

#[test]
fn unreadable_entry_fails_with_source_read_error() {
    let e = build(&s("/p/missing.js"), &s("/"), Vec::new()).unwrap_err();
    assert_eq!(e.kind, ErrorKind::SourceReadError);
    assert_eq!(e.path, "/p/missing.js");
    assert_eq!(e.kind_name(), "SourceReadError");
}

#[test]
fn unreadable_dependency_fails_with_source_read_error() {
    let e = build(&s("/p/a.js"), &s("/"), vec![file("/p/a.js", "import b from './b.js';")]).unwrap_err();
    assert_eq!(e.kind, ErrorKind::SourceReadError);
    assert_eq!(e.path, "/p/b.js");
}

#[test]
fn import_without_source_fails_the_build() {
    let sources = vec![file("/p/a.js", "import b from './b.js';"), file("/p/b.js", "let x;\nimport y from;")];
    let e = build(&s("/p/a.js"), &s("/"), sources).unwrap_err();
    assert_eq!(e.kind, ErrorKind::MalformedImport);
    assert_eq!(e.path, "/p/b.js");
    assert_eq!(e.statement, b"import y from;".to_vec());
    assert_eq!(e.kind_name(), "MalformedImport");
}

#[test]
fn graph_without_its_entry_fails_with_entry_not_in_table() {
    let graph = graph_of(vec![module("/p/a.js", "let x;", &[])]);
    let e = bundle(graph, &s("/p/main.js"), &s("/")).unwrap_err();
    assert_eq!(e.kind, ErrorKind::EntryNotInTableError);
    assert_eq!(e.path, "/p/main.js");
    assert_eq!(e.kind_name(), "EntryNotInTableError");
    let e = collect_modules(ModuleGraph::new(), &s("/p/main.js")).unwrap_err();
    assert_eq!(e.kind, ErrorKind::EntryNotInTableError);
}

#[test]
fn collecting_skips_what_the_entry_does_not_reach_and_what_is_missing() {
    let graph = graph_of(vec![
        module("/x.js", "", &[]),
        module("/b.js", "", &["/gone.js", "/a.js", "/c.js"]),
        module("/a.js", "first", &["/b.js", "/b.js", "/c.js"]),
        module("/c.js", "", &[]),
    ]);
    let table = collect_modules(graph, &s("/a.js")).unwrap();
    assert_eq!(paths(&table), vec![s("/a.js"), s("/b.js"), s("/c.js")]);
}

#[test]
fn graph_keeps_the_first_module_of_a_path() {
    let graph = ModuleGraph::new();
    let (graph, added) = graph.insert(module("/a.js", "first", &[]));
    assert!(added);
    let (graph, added) = graph.insert(module("/b.js", "", &[]));
    assert!(added);
    let (graph, added) = graph.insert(module("/a.js", "second", &[]));
    assert!(!added);
    assert_eq!(paths(graph.modules()), vec![s("/a.js"), s("/b.js")]);
    let modules = graph.into_modules();
    assert_eq!(modules[0].module_content, "first");
}

#[test]
fn copy_of_a_module_holds_the_same() {
    let m = module("/a.js", "import b from './b';", &["/b"]);
    let c = copy_module(&m);
    assert_eq!(c.file_path, m.file_path);
    assert_eq!(c.module_content, m.module_content);
    assert_eq!(c.dependencies, m.dependencies);
    assert_eq!(c.syntax.len(), m.syntax.len());
    assert!(c.syntax.iter().zip(m.syntax.iter()).all(|(a, b)| {
        a.kind == b.kind && a.start == b.start && a.end == b.end && a.depth == b.depth
    }));
}

#[test]
fn module_map_wraps_each_module_in_a_factory() {
    let modules = vec![module("/p/a.js", "import b from './b.js';\nb();", &["/p/b.js"]), module("/p/b.js", "export default f;", &[])];
    assert_eq!(
        String::from_utf8(to_module_map(&modules, &s("/")).unwrap()).unwrap(),
        "{\"/p/a.js\": function(exports, require) {  const {default: b} = require(\"/p/b.js\");\nb(); },\"/p/b.js\": function(exports, require) {  exports.default = f;\n },}"
    );
    assert_eq!(to_module_map(&Vec::new(), &s("/")).unwrap(), b"{}".to_vec());
}

#[test]
fn module_map_fails_with_the_first_module_that_fails() {
    let modules = vec![module("/p/a.js", "let a;", &[]), module("/p/b.js", "import './x';", &[]), module("/p/c.js", "import y from;", &[])];
    let e = to_module_map(&modules, &s("/")).unwrap_err();
    assert_eq!(e.kind, ErrorKind::UnresolvableBindingError);
    assert_eq!(e.path, "/p/b.js");
}

#[test]
fn module_map_is_the_same_for_the_same_paths_and_texts() {
    let first = vec![module("/p/a.js", "import b from './b.js';", &["/p/b.js"]), module("/p/b.js", "export default 1;", &[])];
    let second = vec![module("/p/a.js", "import b from './b.js';", &[]), module("/p/b.js", "export default 1;", &["/other.js"])];
    let table = to_module_map(&first, &s("/")).unwrap();
    assert_eq!(table, to_module_map(&second, &s("/")).unwrap());
    assert_eq!(table, to_module_map(&first, &s("/")).unwrap());
    assert!(String::from_utf8(table).unwrap().contains("require(\"/p/b.js\")"));
}

#[test]
fn runtime_holds_table_entry_and_loader() {
    let code = String::from_utf8(add_runtime(&b"{}".to_vec(), &s("/p/main.js"))).unwrap();
    let expected = "
    const modules = {};
    const entry = \"/p/main.js\";
    function webpackStart({ modules, entry }) {
      const moduleCache = {};
      const require = moduleName => {
        // if in cache, return the cached version
        if (moduleCache[moduleName]) {
          return moduleCache[moduleName];
        }
        const exports = {};
        // this will prevent infinite \"require\" loop
        // from circular dependencies
        moduleCache[moduleName] = exports;
    
        // \"require\"-ing the module,
        // exported stuff will assigned to \"exports\"
        modules[moduleName](exports, require);
        return moduleCache[moduleName];
      };
    
      // start the program
      require(entry);
    }

    webpackStart({ modules, entry });
    ";
    assert_eq!(code, expected);
}

#[test]
fn bundle_of_a_single_call_loads_the_entry_once() {
    let (name, code) = build(&s("/p/main.js"), &s("/"), vec![file("/p/main.js", "globalThis.sentinel = 1;")]).unwrap();
    let code = String::from_utf8(code).unwrap();
    assert_eq!(name, "bundle.js");
    assert!(code.starts_with("\n    const modules = {\"/p/main.js\": function(exports, require) {  globalThis.sentinel = 1; },};\n    const entry = \"/p/main.js\";\n"));
    assert_eq!(count(&code, "globalThis.sentinel = 1;"), 1);
    assert_eq!(count(&code, "require(entry);"), 1);
    assert_eq!(count(&code, "webpackStart({ modules, entry });"), 1);
    let cache = code.find("moduleCache[moduleName] = exports;").unwrap();
    let call = code.find("modules[moduleName](exports, require);").unwrap();
    assert!(cache < call);
}

#[test]
fn entry_path_that_has_no_canonical_form_is_not_reachable_with_text_paths() {
    assert!(Resolver::new(&s(""), &s("/cwd")).is_ok());
    assert_eq!(canonical_path("", "/cwd"), Some(s("/cwd")));
}
