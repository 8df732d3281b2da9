use bundler::error::ErrorKind;
use bundler::error::BundleError;
use bundler::parser::parse_module_imports;
use bundler::syntax::{NodeKind, SyntaxItem};
use bundler::text::shadow_text;
use rslint_parser::SyntaxKind;

fn tree(src: &str) -> Vec<SyntaxItem> {
    let text = shadow_text(src);
    rslint_parser::parse_module(&text, 0)
        .syntax()
        .descendants()
        .map(|node| SyntaxItem {
            kind: match node.kind() {
                SyntaxKind::IMPORT_DECL => NodeKind::ImportDecl,
                SyntaxKind::EXPORT_DECL => NodeKind::ExportDecl,
                SyntaxKind::EXPORT_DEFAULT_EXPR => NodeKind::ExportDefaultExpr,
                SyntaxKind::LITERAL | SyntaxKind::IMPORT_STRING_SPECIFIER => NodeKind::Literal,
                SyntaxKind::NAMED_IMPORTS => NodeKind::NamedImports,
                SyntaxKind::EXPORT_NAMED => NodeKind::ExportNamed,
                SyntaxKind::VAR_DECL => NodeKind::VarDecl,
                SyntaxKind::SPECIFIER => NodeKind::Specifier,
                _ => NodeKind::Other,
            },
            start: node.text_range().start().into(),
            end: node.text_range().end().into(),
            depth: node.ancestors().count(),
        })
        .collect()
}

fn imports(src: &str) -> Result<Vec<String>, BundleError> {
    parse_module_imports(src, &tree(src))
}

fn item(kind: NodeKind, start: usize, end: usize, depth: usize) -> SyntaxItem {
    SyntaxItem { kind, start, end, depth }
}

#[test]
fn imports_are_listed_in_source_order_with_repetitions() {
    let src = "import a from './a';\nimport {b, c} from \"../lib/b\";\nconst x = 1;\nimport d, {e} from './a';\n";
    assert_eq!(
        imports(src).unwrap(),
        vec!["./a".to_string(), "../lib/b".to_string(), "./a".to_string()]
    );
}

#[test]
fn module_without_imports_has_none() {
    assert_eq!(imports("const x = 1;\nexport default x;").unwrap(), Vec::<String>::new());
    assert_eq!(imports("").unwrap(), Vec::<String>::new());
}

#[test]
fn specifier_loses_quotes_spaces_and_tabs() {
    assert_eq!(imports("import a from './my dir/\ta'").unwrap(), vec!["./mydir/a".to_string()]);
}

#[test]
fn nested_import_calls_are_not_declarations() {
    assert_eq!(
        imports("function f() { return import('./lazy'); }").unwrap(),
        Vec::<String>::new()
    );
}

#[test]
fn import_without_source_is_malformed() {
    let e = imports("const k = 0;\nimport X from;").unwrap_err();
    assert_eq!(e.kind, ErrorKind::MalformedImport);
    assert_eq!(e.statement, b"import X from;".to_vec());
    assert_eq!(e.path, "");
}

#[test]
fn first_malformed_import_is_reported() {
    let e = imports("import a from './a';\nimport b from;\nimport c from;").unwrap_err();
    assert_eq!(e.kind, ErrorKind::MalformedImport);
    assert_eq!(e.statement, b"import b from;".to_vec());
}

#[test]
fn import_of_a_source_alone_is_listed() {
    assert_eq!(
        imports("import \"./one\";\nimport './two';").unwrap(),
        vec!["./one".to_string(), "./two".to_string()]
    );
}

#[test]
fn extraction_reads_a_hand_built_tree() {
    let src = "import a from 'x'; run();";
    let nodes = vec![
        item(NodeKind::Other, 0, 25, 1),
        item(NodeKind::ImportDecl, 0, 18, 2),
        item(NodeKind::Other, 7, 8, 3),
        item(NodeKind::Literal, 14, 17, 3),
        item(NodeKind::Other, 19, 25, 2),
        item(NodeKind::Literal, 0, 6, 3),
    ];
    assert_eq!(parse_module_imports(src, &nodes).unwrap(), vec!["x".to_string()]);
}

#[test]
fn literal_must_be_a_child_of_the_declaration() {
    let src = "import a from 'x';";
    let nodes = vec![
        item(NodeKind::Other, 0, 18, 1),
        item(NodeKind::ImportDecl, 0, 18, 2),
        item(NodeKind::Other, 7, 17, 3),
        item(NodeKind::Literal, 14, 17, 4),
    ];
    let e = parse_module_imports(src, &nodes).unwrap_err();
    assert_eq!(e.kind, ErrorKind::MalformedImport);
    assert_eq!(e.statement, src.as_bytes().to_vec());
}

#[test]
fn literal_outside_the_text_is_malformed() {
    let src = "import a from 'x';";
    let nodes = vec![
        item(NodeKind::Other, 0, 18, 1),
        item(NodeKind::ImportDecl, 0, 18, 2),
        item(NodeKind::Literal, 14, 40, 3),
    ];
    assert_eq!(parse_module_imports(src, &nodes).unwrap_err().kind, ErrorKind::MalformedImport);
}

#[test]
fn literal_that_splits_a_character_is_malformed() {
    let src = "import a from 'é';";
    let nodes = vec![
        item(NodeKind::Other, 0, 19, 1),
        item(NodeKind::ImportDecl, 0, 19, 2),
        item(NodeKind::Literal, 14, 16, 3),
    ];
    assert_eq!(parse_module_imports(src, &nodes).unwrap_err().kind, ErrorKind::MalformedImport);
}

#[test]
fn empty_tree_has_no_imports() {
    assert_eq!(parse_module_imports("import a from 'x'", &Vec::new()).unwrap(), Vec::<String>::new());
}
