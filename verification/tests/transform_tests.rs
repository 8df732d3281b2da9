use bundler::error::ErrorKind;
use bundler::graph::Module;
use bundler::syntax::{NodeKind, SyntaxItem};
use bundler::text::shadow_text;
use bundler::transform::{transform, transform_module_interface};
use rslint_parser::SyntaxKind;

fn tree(src: &str) -> Vec<SyntaxItem> {
    let text = shadow_text(src);
    rslint_parser::parse_module(&text, 0)
        .syntax()
        .descendants()
        .map(|node| SyntaxItem {
            kind: match node.kind() {
                SyntaxKind::IMPORT_DECL => NodeKind::ImportDecl,
                SyntaxKind::EXPORT_DECL => NodeKind::ExportDecl,
                SyntaxKind::EXPORT_DEFAULT_EXPR => NodeKind::ExportDefaultExpr,
                SyntaxKind::LITERAL | SyntaxKind::IMPORT_STRING_SPECIFIER => NodeKind::Literal,
                SyntaxKind::NAMED_IMPORTS => NodeKind::NamedImports,
                SyntaxKind::EXPORT_NAMED => NodeKind::ExportNamed,
                SyntaxKind::VAR_DECL => NodeKind::VarDecl,
                SyntaxKind::SPECIFIER => NodeKind::Specifier,
                _ => NodeKind::Other,
            },
            start: node.text_range().start().into(),
            end: node.text_range().end().into(),
            depth: node.ancestors().count(),
        })
        .collect()
}

fn item(kind: NodeKind, start: usize, end: usize, depth: usize) -> SyntaxItem {
    SyntaxItem { kind, start, end, depth }
}

fn targets(list: &[&str]) -> Vec<String> {
    list.iter().map(|t| t.to_string()).collect()
}

fn module(path: &str, content: &str, deps: &[&str]) -> Module {
    Module {
        file_path: path.to_string(),
        module_content: content.to_string(),
        syntax: tree(content),
        dependencies: deps.iter().map(|d| d.to_string()).collect(),
    }
}

fn rewrite(path: &str, content: &str, deps: &[&str]) -> Result<Vec<u8>, bundler::error::BundleError> {
    transform_module_interface(&module(path, content, deps), &"/cwd".to_string())
}

fn rewritten(path: &str, content: &str, deps: &[&str]) -> String {
    String::from_utf8(rewrite(path, content, deps).unwrap()).unwrap()
}

#[test]
fn default_import_binds_default_field_of_load() {
    assert_eq!(
        rewritten("/p/a.js", "import X from \"./m\"", &["/p/m"]),
        "const {default: X} = require(\"/p/m\");"
    );
}

#[test]
fn named_import_destructures_exactly_the_names() {
    let out = rewritten("/p/a.js", "import {A, B} from \"./m\"", &["/p/m"]);
    assert_eq!(out, "const {A, B} = require(\"/p/m\");");
    assert!(!out.contains("default"));
}

#[test]
fn mixed_import_renames_default_and_keeps_names() {
    assert_eq!(
        rewritten("/p/a.js", "import X, {A, B} from './m';", &["/p/m"]),
        "const {default: X,A, B} = require(\"/p/m\");"
    );
}

#[test]
fn export_default_assigns_default_field() {
    assert_eq!(rewritten("/p/a.js", "export default 42", &[]), "exports.default = 42;\n");
}

#[test]
fn export_declaration_assigns_each_name() {
    assert_eq!(
        rewritten("/p/a.js", "export const x = 1, y = 2", &[]),
        "exports.x = 1;\nexports.y = 2;\n"
    );
}

#[test]
fn export_declaration_keeps_value_verbatim() {
    assert_eq!(
        rewritten("/p/a.js", "export var w = f(a, b) == \"x y\";", &[]),
        "exports.w = f(a, b) == \"x y\";\n"
    );
}

#[test]
fn export_list_assigns_each_name_in_order() {
    assert_eq!(
        rewritten("/p/a.js", "const A = 1, B = 2;\nexport {A, B};", &[]),
        "const A = 1, B = 2;\nexports.A = A;\nexports.B = B;\n"
    );
}

#[test]
fn other_statements_pass_through() {
    let src = "const a = 1;\nfunction f() { return a; }\nexport function g() {}\nconsole.log(f());\n";
    assert_eq!(rewritten("/p/a.js", src, &[]), src);
}

#[test]
fn declaration_without_value_passes_through() {
    let src = "export let z;";
    assert_eq!(rewritten("/p/a.js", src, &[]), src);
}

#[test]
fn text_between_statements_is_kept() {
    let src = "// head\nimport X from './m';  // why\n\nlet y = X;\nexport default y;\n// tail\n";
    assert_eq!(
        rewritten("/p/a.js", src, &["/p/m"]),
        "// head\nconst {default: X} = require(\"/p/m\");  // why\n\nlet y = X;\nexports.default = y;\n\n// tail\n"
    );
}

#[test]
fn imports_take_their_targets_in_order() {
    let src = "import a from './a';\nimport {b} from './b';\n";
    assert_eq!(
        rewritten("/p/main.js", src, &["/p/a", "/p/b"]),
        "const {default: a} = require(\"/p/a\");\nconst {b} = require(\"/p/b\");\n"
    );
}

#[test]
fn same_statement_twice_is_replaced_twice_by_span() {
    let src = "import a from './a';\nimport a from './a';";
    assert_eq!(
        rewritten("/p/main.js", src, &["/p/a", "/p/a"]),
        "const {default: a} = require(\"/p/a\");\nconst {default: a} = require(\"/p/a\");"
    );
}

#[test]
fn transforming_transformed_text_changes_nothing() {
    let once = rewritten("/p/a.js", "import X from './m';\nexport default X;\nexport const k = X + 1;", &["/p/m"]);
    let twice = rewritten("/p/a.js", &once, &[]);
    assert_eq!(once, twice);
}

#[test]
fn import_with_a_source_and_no_name_binds_nothing() {
    let e = rewrite("/p/a.js", "import \"./m.js\"", &[]).unwrap_err();
    assert_eq!(e.kind, ErrorKind::UnresolvableBindingError);
    assert_eq!(e.path, "/p/a.js");
    assert_eq!(e.statement, b"import \"./m.js\"".to_vec());
    let e = rewrite("/p/a.js", "let x;\nimport \"./side\";", &["/p/side"]).unwrap_err();
    assert_eq!(e.kind, ErrorKind::UnresolvableBindingError);
    assert_eq!(e.statement, b"import \"./side\";".to_vec());
}

#[test]
fn import_without_a_source_is_malformed() {
    let e = rewrite("/p/a.js", "let x;\nimport X from;", &[]).unwrap_err();
    assert_eq!(e.kind, ErrorKind::MalformedImport);
    assert_eq!(e.path, "/p/a.js");
    assert_eq!(e.statement, b"import X from;".to_vec());
}

#[test]
fn load_path_comes_from_the_specifier_and_the_path_of_the_module() {
    for deps in [&[][..], &["/elsewhere.js"][..], &["/p/c.js", "/more.js"][..]] {
        assert_eq!(
            rewritten("/p/a.js", "import c from \"./c.js\";", deps),
            "const {default: c} = require(\"/p/c.js\");"
        );
    }
}

#[test]
fn two_modules_name_a_shared_module_by_one_path() {
    let a = rewritten("/p/a.js", "import c from \"./c.js\";", &[]);
    let b = rewritten("/p/lib/b.js", "import c from \"../c.js\";", &[]);
    assert!(a.contains("require(\"/p/c.js\")"));
    assert!(b.contains("require(\"/p/c.js\")"));
}

#[test]
fn mixed_import_is_one_binding_from_one_load() {
    let out = rewritten("/p/a.js", "import X, {A, B} from \"./m.js\"", &[]);
    assert_eq!(out, "const {default: X,A, B} = require(\"/p/m.js\");");
    assert_eq!(out.matches("require(").count(), 1);
    assert_eq!(out.matches('{').count(), 1);
}

#[test]
fn specifier_that_does_not_resolve_is_a_path_resolution_error() {
    let e = rewrite("/", "let x;\nimport X from './m';", &["/m"]).unwrap_err();
    assert_eq!(e.kind, ErrorKind::PathResolutionError);
    assert_eq!(e.path, "/");
    assert_eq!(e.statement, b"import X from './m';".to_vec());
    assert_eq!(e.kind_name(), "PathResolutionError");
}

#[test]
fn import_without_target_is_a_path_resolution_error() {
    let src = "import X from './m'";
    let e = transform(src, &tree(src), &Vec::new()).unwrap_err();
    assert_eq!(e.kind, ErrorKind::PathResolutionError);
    assert_eq!(e.statement, src.as_bytes().to_vec());
}

#[test]
fn non_ascii_text_survives() {
    let src = "import {é} from './ü';\nconst s = \"日本語\";\nexport default s;";
    assert_eq!(
        rewritten("/p/a.js", src, &["/p/ü"]),
        "const {é} = require(\"/p/ü\");\nconst s = \"日本語\";\nexports.default = s;\n"
    );
}

#[test]
fn literal_without_a_name_before_it_binds_nothing() {
    let src = "import './side';";
    let nodes = vec![
        item(NodeKind::Other, 0, 16, 1),
        item(NodeKind::ImportDecl, 0, 16, 2),
        item(NodeKind::Literal, 7, 15, 3),
    ];
    let e = transform(src, &nodes, &targets(&["/p/side"])).unwrap_err();
    assert_eq!(e.kind, ErrorKind::UnresolvableBindingError);
    assert_eq!(e.statement, src.as_bytes().to_vec());
    assert_eq!(e.path, "");
    assert_eq!(e.kind_name(), "UnresolvableBindingError");
}

#[test]
fn name_outside_the_text_binds_nothing() {
    let src = "import a from 'x';";
    let nodes = vec![
        item(NodeKind::Other, 0, 18, 1),
        item(NodeKind::ImportDecl, 0, 18, 2),
        item(NodeKind::Other, 8, 7, 3),
        item(NodeKind::Literal, 14, 17, 3),
    ];
    assert_eq!(transform(src, &nodes, &targets(&["/x"])).unwrap_err().kind, ErrorKind::UnresolvableBindingError);
}

#[test]
fn hand_built_tree_is_rewritten_by_span() {
    let src = "  import a from 'x';export default a ;tail";
    let nodes = vec![
        item(NodeKind::Other, 0, 42, 1),
        item(NodeKind::ImportDecl, 0, 20, 2),
        item(NodeKind::Other, 9, 10, 3),
        item(NodeKind::Literal, 16, 19, 3),
        item(NodeKind::ExportDefaultExpr, 20, 38, 2),
        item(NodeKind::Other, 35, 36, 3),
        item(NodeKind::Other, 38, 42, 2),
    ];
    assert_eq!(
        String::from_utf8(transform(src, &nodes, &targets(&["/x"])).unwrap()).unwrap(),
        "  const {default: a} = require(\"/x\");exports.default = a;\ntail"
    );
}

#[test]
fn import_that_overlaps_what_was_replaced_is_malformed() {
    let src = "import a from 'x';import b from 'y';";
    let nodes = vec![
        item(NodeKind::Other, 0, 36, 1),
        item(NodeKind::ImportDecl, 0, 18, 2),
        item(NodeKind::Other, 7, 8, 3),
        item(NodeKind::Literal, 14, 17, 3),
        item(NodeKind::ImportDecl, 17, 36, 2),
        item(NodeKind::Other, 25, 26, 3),
        item(NodeKind::Literal, 32, 35, 3),
    ];
    let e = transform(src, &nodes, &targets(&["/x", "/y"])).unwrap_err();
    assert_eq!(e.kind, ErrorKind::MalformedImport);
    assert_eq!(e.statement, b";import b from 'y';".to_vec());
}

#[test]
fn export_outside_the_text_passes_through() {
    let src = "export default a;";
    let nodes = vec![
        item(NodeKind::Other, 0, 17, 1),
        item(NodeKind::ExportDefaultExpr, 0, 99, 2),
        item(NodeKind::Other, 15, 16, 3),
    ];
    assert_eq!(transform(src, &nodes, &Vec::new()).unwrap(), src.as_bytes().to_vec());
}

#[test]
fn export_list_with_a_source_passes_through() {
    let src = "export {A} from './q';";
    assert_eq!(rewritten("/p/a.js", src, &[]), src);
}

#[test]
fn empty_export_list_is_replaced_by_nothing() {
    assert_eq!(rewritten("/p/a.js", "let a;\nexport {};\nlet b;", &[]), "let a;\n\nlet b;");
}

#[test]
fn tree_without_statements_leaves_the_text() {
    let src = "import a from 'x';";
    assert_eq!(transform(src, &Vec::new(), &Vec::new()).unwrap(), src.as_bytes().to_vec());
    assert_eq!(transform(src, &vec![item(NodeKind::ImportDecl, 0, 18, 1)], &Vec::new()).unwrap(), src.as_bytes().to_vec());
}

#[test]
fn namespace_import_binds_no_default_name() {
    let e = rewrite("/p/a.js", "let x;\nimport * as ns from './w';", &["/p/w"]).unwrap_err();
    assert_eq!(e.kind, ErrorKind::UnresolvableBindingError);
    assert_eq!(e.path, "/p/a.js");
    assert_eq!(e.statement, b"import * as ns from './w';".to_vec());
}

#[test]
fn default_name_must_be_a_leaf() {
    let src = "import a from 'x';";
    let nodes = vec![
        item(NodeKind::Other, 0, 18, 1),
        item(NodeKind::ImportDecl, 0, 18, 2),
        item(NodeKind::Other, 7, 8, 3),
        item(NodeKind::Other, 7, 8, 4),
        item(NodeKind::NamedImports, 9, 9, 3),
        item(NodeKind::Literal, 14, 17, 3),
    ];
    assert_eq!(transform(src, &nodes, &targets(&["/x"])).unwrap_err().kind, ErrorKind::UnresolvableBindingError);
}

#[test]
fn named_imports_alone_need_no_name() {
    let src = "import {a} from 'x';";
    let nodes = vec![
        item(NodeKind::Other, 0, 20, 1),
        item(NodeKind::ImportDecl, 0, 20, 2),
        item(NodeKind::NamedImports, 7, 10, 3),
        item(NodeKind::Specifier, 8, 9, 4),
        item(NodeKind::Literal, 16, 19, 3),
    ];
    assert_eq!(transform(src, &nodes, &targets(&["/x"])).unwrap(), b"const {a} = require(\"/x\");".to_vec());
}
