//! The whole build, from the path of an entry file to the text of a bundle.

use crate::error::{BundleError, ErrorKind, ErrorView};
use crate::graph::{closed, has_module, unique_paths, views, ModuleView};
use crate::linker::{
    bundle, bundled, flattened, lemma_table_failure, lemma_table_is_sound, BUNDLE_NAME,
};
use crate::parser::import_specifier;
use crate::paths::{absolutized, resolved};
use crate::resolver::{
    create_dependency_graph, dependencies_of, dependency_graph, faithful,
    lemma_dependencies_in_order, lemma_resolution, lemma_resolution_failure, module_of, settled,
    source_views, started, SourceFile, SourceView,
};
use crate::syntax::{statements, NodeKind};
use crate::transform::{lemma_progress_counts_imports, module_text, progress, target_at};
use vstd::prelude::*;
use vstd::utf8::*;

verus! {

/// The bundle for the module in the file `entry_file`, with `sources` as the
/// files that can be read: the graph of the modules it reaches is resolved
/// and linked. Any failure on the way is the failure of the build.
pub open spec fn built(entry_file: Seq<char>, cwd: Seq<char>, sources: Seq<SourceView>) -> Result<
    Seq<u8>,
    ErrorView,
> {
    match dependency_graph(entry_file, cwd, sources) {
        Err(e) => Err(e),
        Ok(graph) => bundled(graph, absolutized(entry_file, cwd)->0, cwd),
    }
}

/// Builds the bundle for the module in the file `entry_file`. Relative paths
/// start at `cwd`; `sources` holds the files that can be read, each under its
/// canonical path and with its syntax tree. Returns the name of the file to write and its text. A
/// build that fails returns the failure and no text.
pub fn build(entry_file: &String, cwd: &String, sources: Vec<SourceFile>) -> (out: Result<
    (String, Vec<u8>),
    BundleError,
>)
    ensures
        match out {
            Ok((name, code)) => name@ == BUNDLE_NAME@ && built(
                entry_file@,
                cwd@,
                source_views(sources@),
            ) == Ok::<_, ErrorView>(code@),
            Err(e) => built(entry_file@, cwd@, source_views(sources@)) == Err::<Seq<u8>, _>(e@),
        },
{
    let graph = create_dependency_graph(entry_file, cwd, sources)?;
    let modules = graph.modules();
    let entry = modules[0].file_path.clone();
    assert(modules@[0]@ == views(modules@)[0]);
    bundle(graph, &entry, cwd)
}

/// The module table of a build holds the entry module first, holds no path
/// twice, however often and in whatever circle the modules import each
/// other, and holds for every module each module that it loads. Every module
/// in it is the record of its own text.
pub proof fn lemma_build_table(entry_file: Seq<char>, cwd: Seq<char>, sources: Seq<SourceView>)
    requires
        dependency_graph(entry_file, cwd, sources) is Ok,
    ensures
        ({
            let graph = dependency_graph(entry_file, cwd, sources)->Ok_0;
            let entry = absolutized(entry_file, cwd)->0;
            let table = flattened(graph, seq![entry]);
            &&& has_module(graph, entry)
            &&& table.len() > 0
            &&& table[0].file_path == entry
            &&& unique_paths(table)
            &&& faithful(table, cwd)
            &&& closed(table)
        }),
{
    let entry = absolutized(entry_file, cwd)->0;
    let begin = started(entry, cwd);
    let graph = dependency_graph(entry_file, cwd, sources)->Ok_0;
    assert(settled(begin.modules, begin.pending) == begin.pending);
    lemma_resolution(begin, sources);
    assert(graph[0].file_path == entry);
    lemma_table_is_sound(graph, entry);
    let table = flattened(graph, seq![entry]);
    assert forall|i: int| 0 <= i < table.len() implies module_of(
        (#[trigger] table[i]).file_path,
        table[i].module_content,
        table[i].syntax,
        cwd,
    ) == Ok::<_, ErrorView>(table[i]) by {
        assert(graph.contains(table[i]));
        let at = choose|at: int| 0 <= at < graph.len() && graph[at] == table[i];
        assert(module_of(
            graph[at].file_path,
            graph[at].module_content,
            graph[at].syntax,
            cwd,
        ) == Ok::<_, ErrorView>(graph[at]));
    }
}

/// Every import declaration of a module is replaced by a load of the module
/// that its specifier names: of the canonical path of the specifier, seen from
/// the directory of the importing module, whatever dependencies the module
/// records. So two modules that import the same file load it by the same
/// path.
pub proof fn lemma_imports_load_their_modules(module: ModuleView, cwd: Seq<char>, upto: int)
    requires
        dependencies_of(module.file_path, module.module_content, module.syntax, cwd) is Ok,
        0 <= upto < statements(module.syntax).len(),
        module.syntax[statements(module.syntax)[upto]].kind == NodeKind::ImportDecl,
        progress(
            encode_utf8(module.module_content),
            module.syntax,
            dependencies_of(module.file_path, module.module_content, module.syntax, cwd)->Ok_0,
            statements(module.syntax).subrange(0, upto),
        ) is Ok,
    ensures
        ({
            let content = encode_utf8(module.module_content);
            let stmts = statements(module.syntax);
            let targets = dependencies_of(
                module.file_path,
                module.module_content,
                module.syntax,
                cwd,
            )->Ok_0;
            let met = progress(content, module.syntax, targets, stmts.subrange(0, upto))->Ok_0;
            let specifier = import_specifier(content, module.syntax, stmts[upto]);
            &&& specifier is Some
            &&& target_at(targets, met.imports) is Some
            &&& target_at(targets, met.imports) == resolved(module.file_path, specifier->0, cwd)
        }),
{
    let content = encode_utf8(module.module_content);
    let stmts = statements(module.syntax);
    let targets = dependencies_of(module.file_path, module.module_content, module.syntax, cwd)->Ok_0;
    lemma_dependencies_in_order(content, module.syntax, stmts, module.file_path, cwd, upto);
    lemma_progress_counts_imports(content, module.syntax, targets, stmts.subrange(0, upto));
}

/// In the module table of a build, the module that an import declaration
/// loads has its entry: the path that the rewritten text asks the loader for
/// is the path under which the table holds the module. So two modules that
/// import the same file share its one entry.
pub proof fn lemma_imports_load_table_modules(
    entry_file: Seq<char>,
    cwd: Seq<char>,
    sources: Seq<SourceView>,
    module: ModuleView,
    upto: int,
)
    requires
        dependency_graph(entry_file, cwd, sources) is Ok,
        flattened(
            dependency_graph(entry_file, cwd, sources)->Ok_0,
            seq![absolutized(entry_file, cwd)->0],
        ).contains(module),
        0 <= upto < statements(module.syntax).len(),
        module.syntax[statements(module.syntax)[upto]].kind == NodeKind::ImportDecl,
        progress(
            encode_utf8(module.module_content),
            module.syntax,
            module.dependencies,
            statements(module.syntax).subrange(0, upto),
        ) is Ok,
    ensures
        ({
            let table = flattened(
                dependency_graph(entry_file, cwd, sources)->Ok_0,
                seq![absolutized(entry_file, cwd)->0],
            );
            let content = encode_utf8(module.module_content);
            let stmts = statements(module.syntax);
            let targets = dependencies_of(
                module.file_path,
                module.module_content,
                module.syntax,
                cwd,
            );
            let met = progress(
                content,
                module.syntax,
                module.dependencies,
                stmts.subrange(0, upto),
            )->Ok_0;
            let specifier = import_specifier(content, module.syntax, stmts[upto]);
            &&& targets == Ok::<_, ErrorView>(module.dependencies)
            &&& specifier is Some
            &&& target_at(module.dependencies, met.imports) is Some
            &&& target_at(module.dependencies, met.imports) == resolved(
                module.file_path,
                specifier->0,
                cwd,
            )
            &&& has_module(table, target_at(module.dependencies, met.imports)->0)
        }),
{
    lemma_build_table(entry_file, cwd, sources);
    let table = flattened(
        dependency_graph(entry_file, cwd, sources)->Ok_0,
        seq![absolutized(entry_file, cwd)->0],
    );
    let at = choose|at: int| 0 <= at < table.len() && table[at] == module;
    assert(module_of(table[at].file_path, table[at].module_content, table[at].syntax, cwd)
        == Ok::<_, ErrorView>(table[at]));
    lemma_imports_load_their_modules(module, cwd, upto);
    let met = progress(
        encode_utf8(module.module_content),
        module.syntax,
        module.dependencies,
        statements(module.syntax).subrange(0, upto),
    )->Ok_0;
    assert(module.dependencies[met.imports] == table[at].dependencies[met.imports]);
}

/// Two builds from the same entry file, working directory and sources agree:
/// their graphs hold the same paths, each module has the same rewritten
/// text, and the bundles are the same.
pub proof fn lemma_build_is_deterministic(
    entry_file: Seq<char>,
    cwd: Seq<char>,
    sources: Seq<SourceView>,
    first: Seq<ModuleView>,
    second: Seq<ModuleView>,
)
    requires
        dependency_graph(entry_file, cwd, sources) == Ok::<_, ErrorView>(first),
        dependency_graph(entry_file, cwd, sources) == Ok::<_, ErrorView>(second),
    ensures
        first.len() == second.len(),
        forall|i: int|
            0 <= i < first.len() ==> (#[trigger] first[i]).file_path == second[i].file_path
                && module_text(first[i], cwd) == module_text(second[i], cwd),
        forall|entry: Seq<char>|
            #[trigger] bundled(first, entry, cwd) == bundled(second, entry, cwd),
{
}

/// A build does not fail for want of its entry module: the graph that the
/// resolver hands over holds the entry, so that `EntryNotInTableError` is
/// left to graphs that come from elsewhere.
pub proof fn lemma_build_finds_its_entry(
    entry_file: Seq<char>,
    cwd: Seq<char>,
    sources: Seq<SourceView>,
)
    requires
        built(entry_file, cwd, sources) is Err,
    ensures
        built(entry_file, cwd, sources)->Err_0.kind != ErrorKind::EntryNotInTableError,
{
    match dependency_graph(entry_file, cwd, sources) {
        Err(e) => {
            if absolutized(entry_file, cwd) is Some {
                lemma_resolution_failure(started(absolutized(entry_file, cwd)->0, cwd), sources);
            }
        },
        Ok(graph) => {
            lemma_build_table(entry_file, cwd, sources);
            lemma_table_failure(flattened(graph, seq![absolutized(entry_file, cwd)->0]), cwd);
        },
    }
}

} // verus!
