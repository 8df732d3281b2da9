//! The dependency resolver: from an entry path to the graph of the modules it
//! reaches, one record for each canonical path. The resolver never reads or
//! parses a file: it says which path it needs next and is handed the text and
//! its syntax tree.

use crate::error::{BundleError, ErrorKind, ErrorView};
use crate::graph::{
    closed, find_module, has_module, lemma_position_found, push_reversed, unique_paths, views,
    Module, ModuleGraph, ModuleView,
};
use crate::parser::{fail_at, failure_at, import_specifier, imports_among, specifier_at};
use crate::paths::{absolutized, canonical_path, resolve_specifier, resolved};
use crate::syntax::{as_ints, children_of, statements, NodeKind, SyntaxItem};
use crate::text::{text_of, texts};
use vstd::prelude::*;
use vstd::utf8::*;

verus! {

/// A source file that is held in memory: its canonical path, its text, and
/// the syntax tree of the text.
#[derive(Debug)]
pub struct SourceFile {
    pub path: String,
    pub content: String,
    pub syntax: Vec<SyntaxItem>,
}

/// A source file as a mathematical value.
pub struct SourceView {
    pub path: Seq<char>,
    pub content: Seq<char>,
    pub syntax: Seq<SyntaxItem>,
}

impl View for SourceFile {
    type V = SourceView;

    open spec fn view(&self) -> SourceView {
        SourceView { path: self.path@, content: self.content@, syntax: self.syntax@ }
    }
}

/// A list of source files as a mathematical value.
pub open spec fn source_views(sources: Seq<SourceFile>) -> Seq<SourceView> {
    sources.map_values(|s: SourceFile| s@)
}

/// The index, from `from` on, of the first of `sources` at `path`; the length
/// of `sources` if there is none.
pub open spec fn source_from(sources: Seq<SourceView>, path: Seq<char>, from: int) -> int
    decreases sources.len() - from,
{
    if from < 0 || from >= sources.len() {
        sources.len() as int
    } else if sources[from].path == path {
        from
    } else {
        source_from(sources, path, from + 1)
    }
}

/// The canonical paths that the import declarations among the statements
/// `stmts` of the module at `importer` load, in order and with repetitions:
/// for each import declaration its specifier, resolved against the directory
/// of the module. The first import declaration that has no specifier fails
/// with `MalformedImport`, or whose specifier does not resolve, with
/// `PathResolutionError`; the failure names the module and the statement.
pub open spec fn dependencies_among(
    content: Seq<u8>,
    nodes: Seq<SyntaxItem>,
    stmts: Seq<int>,
    importer: Seq<char>,
    cwd: Seq<char>,
) -> Result<Seq<Seq<char>>, ErrorView>
    decreases stmts.len(),
{
    if stmts.len() == 0 {
        Ok(Seq::empty())
    } else {
        match dependencies_among(content, nodes, stmts.drop_last(), importer, cwd) {
            Err(e) => Err(e),
            Ok(found) => {
                let stmt = stmts.last();
                if nodes[stmt].kind != NodeKind::ImportDecl {
                    Ok(found)
                } else {
                    match import_specifier(content, nodes, stmt) {
                        None => Err(
                            failure_at(ErrorKind::MalformedImport, content, nodes, stmt).located(
                                importer,
                            ),
                        ),
                        Some(specifier) => match resolved(importer, specifier, cwd) {
                            None => Err(
                                failure_at(
                                    ErrorKind::PathResolutionError,
                                    content,
                                    nodes,
                                    stmt,
                                ).located(importer),
                            ),
                            Some(path) => Ok(found.push(path)),
                        },
                    }
                }
            },
        }
    }
}

/// The dependencies of the module at `path` with the text `content` and the
/// syntax tree `syntax`: the canonical path for each of its import
/// declarations, in source order.
pub open spec fn dependencies_of(
    path: Seq<char>,
    content: Seq<char>,
    syntax: Seq<SyntaxItem>,
    cwd: Seq<char>,
) -> Result<Seq<Seq<char>>, ErrorView> {
    dependencies_among(encode_utf8(content), syntax, statements(syntax), path, cwd)
}

/// The module at `path` with the text `content` and the syntax tree `syntax`.
pub open spec fn module_of(
    path: Seq<char>,
    content: Seq<char>,
    syntax: Seq<SyntaxItem>,
    cwd: Seq<char>,
) -> Result<ModuleView, ErrorView> {
    match dependencies_of(path, content, syntax, cwd) {
        Err(e) => Err(e),
        Ok(dependencies) => Ok(
            ModuleView { file_path: path, module_content: content, syntax, dependencies },
        ),
    }
}

/// Once the statements up to some point have failed, all of them fail alike.
proof fn lemma_dependencies_failure_stays(
    content: Seq<u8>,
    nodes: Seq<SyntaxItem>,
    stmts: Seq<int>,
    importer: Seq<char>,
    cwd: Seq<char>,
    upto: int,
)
    requires
        0 <= upto <= stmts.len(),
        dependencies_among(content, nodes, stmts.subrange(0, upto), importer, cwd) is Err,
    ensures
        dependencies_among(content, nodes, stmts, importer, cwd) == dependencies_among(
            content,
            nodes,
            stmts.subrange(0, upto),
            importer,
            cwd,
        ),
    decreases stmts.len() - upto,
{
    if upto == stmts.len() {
        assert(stmts.subrange(0, upto) =~= stmts);
    } else {
        assert(stmts.subrange(0, upto + 1).drop_last() =~= stmts.subrange(0, upto));
        lemma_dependencies_failure_stays(content, nodes, stmts, importer, cwd, upto + 1);
    }
}

/// The number of import declarations among the statements `stmts`.
pub open spec fn import_count(nodes: Seq<SyntaxItem>, stmts: Seq<int>) -> int
    decreases stmts.len(),
{
    if stmts.len() == 0 {
        0
    } else {
        import_count(nodes, stmts.drop_last()) + if nodes[stmts.last()].kind
            == NodeKind::ImportDecl {
            1int
        } else {
            0int
        }
    }
}

/// There is one dependency for each import declaration.
proof fn lemma_dependency_count(
    content: Seq<u8>,
    nodes: Seq<SyntaxItem>,
    stmts: Seq<int>,
    importer: Seq<char>,
    cwd: Seq<char>,
)
    requires
        dependencies_among(content, nodes, stmts, importer, cwd) is Ok,
    ensures
        dependencies_among(content, nodes, stmts, importer, cwd)->Ok_0.len() == import_count(
            nodes,
            stmts,
        ),
    decreases stmts.len(),
{
    if stmts.len() > 0 {
        lemma_dependency_count(content, nodes, stmts.drop_last(), importer, cwd);
    }
}

/// Where every import declaration among `stmts` has a dependency, those of
/// the first `upto` statements are the first of them, one for each import
/// declaration, and the import declaration behind them has the next: the
/// canonical path of its own specifier.
pub proof fn lemma_dependencies_in_order(
    content: Seq<u8>,
    nodes: Seq<SyntaxItem>,
    stmts: Seq<int>,
    importer: Seq<char>,
    cwd: Seq<char>,
    upto: int,
)
    requires
        dependencies_among(content, nodes, stmts, importer, cwd) is Ok,
        0 <= upto <= stmts.len(),
    ensures
        ({
            let all = dependencies_among(content, nodes, stmts, importer, cwd)->Ok_0;
            let met = import_count(nodes, stmts.subrange(0, upto));
            &&& 0 <= met <= all.len()
            &&& all.len() == import_count(nodes, stmts)
            &&& dependencies_among(content, nodes, stmts.subrange(0, upto), importer, cwd) == Ok::<
                _,
                ErrorView,
            >(all.subrange(0, met))
            &&& upto < stmts.len() && nodes[stmts[upto]].kind == NodeKind::ImportDecl ==> {
                &&& met < all.len()
                &&& import_specifier(content, nodes, stmts[upto]) is Some
                &&& resolved(importer, import_specifier(content, nodes, stmts[upto])->0, cwd)
                    == Some(all[met])
            }
        }),
    decreases stmts.len() - upto,
{
    let all = dependencies_among(content, nodes, stmts, importer, cwd)->Ok_0;
    if upto == stmts.len() {
        assert(stmts.subrange(0, upto) =~= stmts);
        lemma_dependency_count(content, nodes, stmts, importer, cwd);
        assert(all.subrange(0, all.len() as int) =~= all);
    } else {
        lemma_dependencies_in_order(content, nodes, stmts, importer, cwd, upto + 1);
        let more = stmts.subrange(0, upto + 1);
        assert(more.drop_last() =~= stmts.subrange(0, upto));
        assert(more.last() == stmts[upto]);
        let met = import_count(nodes, stmts.subrange(0, upto));
        let found = dependencies_among(
            content,
            nodes,
            stmts.subrange(0, upto),
            importer,
            cwd,
        )->Ok_0;
        lemma_dependency_count(content, nodes, stmts.subrange(0, upto), importer, cwd);
        if nodes[stmts[upto]].kind == NodeKind::ImportDecl {
            let specifier = import_specifier(content, nodes, stmts[upto])->0;
            let path = resolved(importer, specifier, cwd)->0;
            assert(found.push(path) == all.subrange(0, met + 1));
            assert(all.subrange(0, met + 1)[met] == path);
            assert(found =~= all.subrange(0, met + 1).drop_last());
            assert(all.subrange(0, met + 1).drop_last() =~= all.subrange(0, met));
        }
    }
}

/// The dependencies of a module are what the specifiers of its import
/// declarations resolve to: where the dependencies are found, so are the
/// specifiers, as many, and each dependency is the canonical path of the
/// specifier in its place.
pub proof fn lemma_dependencies_are_resolved_imports(
    content: Seq<u8>,
    nodes: Seq<SyntaxItem>,
    stmts: Seq<int>,
    importer: Seq<char>,
    cwd: Seq<char>,
)
    requires
        dependencies_among(content, nodes, stmts, importer, cwd) is Ok,
    ensures
        imports_among(content, nodes, stmts) is Ok,
        imports_among(content, nodes, stmts)->Ok_0.len() == dependencies_among(
            content,
            nodes,
            stmts,
            importer,
            cwd,
        )->Ok_0.len(),
        forall|k: int|
            0 <= k < imports_among(content, nodes, stmts)->Ok_0.len() ==> resolved(
                importer,
                #[trigger] imports_among(content, nodes, stmts)->Ok_0[k],
                cwd,
            ) == Some(dependencies_among(content, nodes, stmts, importer, cwd)->Ok_0[k]),
    decreases stmts.len(),
{
    if stmts.len() > 0 {
        lemma_dependencies_are_resolved_imports(content, nodes, stmts.drop_last(), importer, cwd);
        let before = imports_among(content, nodes, stmts.drop_last())->Ok_0;
        let all = imports_among(content, nodes, stmts)->Ok_0;
        assert forall|k: int| 0 <= k < all.len() implies resolved(
            importer,
            #[trigger] all[k],
            cwd,
        ) == Some(dependencies_among(content, nodes, stmts, importer, cwd)->Ok_0[k]) by {
            if k < before.len() {
                assert(before[k] == all[k]);
            }
        }
    }
}

/// A resolution of dependencies fails with `MalformedImport` or
/// `PathResolutionError` only, and names the module.
pub proof fn lemma_dependencies_failure(
    content: Seq<u8>,
    nodes: Seq<SyntaxItem>,
    stmts: Seq<int>,
    importer: Seq<char>,
    cwd: Seq<char>,
)
    requires
        dependencies_among(content, nodes, stmts, importer, cwd) is Err,
    ensures
        ({
            let e = dependencies_among(content, nodes, stmts, importer, cwd)->Err_0;
            &&& e.kind == ErrorKind::MalformedImport || e.kind == ErrorKind::PathResolutionError
            &&& e.path == importer
        }),
    decreases stmts.len(),
{
    if stmts.len() > 0 && dependencies_among(content, nodes, stmts.drop_last(), importer, cwd)
        is Err {
        lemma_dependencies_failure(content, nodes, stmts.drop_last(), importer, cwd);
    }
}

/// Resolves the import declarations of the module at `importer`, given its
/// text and its syntax tree: the canonical path that each of them loads, in
/// source order.
pub fn resolve_imports(
    importer: &String,
    content: &str,
    nodes: &Vec<SyntaxItem>,
    cwd: &String,
) -> (paths: Result<Vec<String>, BundleError>)
    ensures
        match paths {
            Ok(list) => dependencies_of(importer@, content@, nodes@, cwd@) == Ok::<_, ErrorView>(
                texts(list@),
            ),
            Err(e) => dependencies_of(importer@, content@, nodes@, cwd@) == Err::<
                Seq<Seq<char>>,
                _,
            >(e@),
        },
{
    let bytes = content.as_bytes();
    let stmts = children_of(nodes, 0);
    let mut list: Vec<String> = Vec::new();
    let mut k: usize = 0;
    assert(as_ints(stmts@).subrange(0, 0) =~= Seq::<int>::empty());
    assert(texts(list@) =~= Seq::<Seq<char>>::empty());
    while k < stmts.len()
        invariant
            k <= stmts@.len(),
            bytes@ == encode_utf8(content@),
            as_ints(stmts@) == statements(nodes@),
            forall|j: int| 0 <= j < stmts@.len() ==> #[trigger] stmts@[j] < nodes@.len(),
            dependencies_among(
                bytes@,
                nodes@,
                as_ints(stmts@).subrange(0, k as int),
                importer@,
                cwd@,
            ) == Ok::<_, ErrorView>(texts(list@)),
        decreases stmts@.len() - k,
    {
        let stmt = stmts[k];
        proof {
            let upto = as_ints(stmts@).subrange(0, k + 1);
            assert(upto.drop_last() =~= as_ints(stmts@).subrange(0, k as int));
            assert(upto.last() == stmt as int);
        }
        if nodes[stmt].kind == NodeKind::ImportDecl {
            let resolved = match specifier_at(bytes, nodes, stmt) {
                None => Err(ErrorKind::MalformedImport),
                Some(specifier) => match resolve_specifier(
                    importer.as_str(),
                    specifier.as_str(),
                    cwd.as_str(),
                ) {
                    None => Err(ErrorKind::PathResolutionError),
                    Some(path) => Ok(path),
                },
            };
            match resolved {
                Ok(path) => {
                    let ghost before = list@;
                    list.push(path);
                    assert(texts(list@) =~= texts(before).push(path@));
                },
                Err(kind) => {
                    let e = fail_at(kind, bytes, nodes, stmt).located(importer.as_str());
                    proof {
                        lemma_dependencies_failure_stays(
                            bytes@,
                            nodes@,
                            as_ints(stmts@),
                            importer@,
                            cwd@,
                            k + 1,
                        );
                    }
                    return Err(e);
                },
            }
        }
        k += 1;
    }
    assert(as_ints(stmts@).subrange(0, k as int) =~= as_ints(stmts@));
    Ok(list)
}

/// Makes the record of the module at the canonical path `file_path` from its
/// text and its syntax tree: its import specifiers are extracted and resolved
/// against the directory of the module.
pub fn new_module(file_path: String, content: String, syntax: Vec<SyntaxItem>, cwd: &String) -> (module:
    Result<Module, BundleError>)
    ensures
        match module {
            Ok(m) => module_of(file_path@, content@, syntax@, cwd@) == Ok::<_, ErrorView>(m@),
            Err(e) => module_of(file_path@, content@, syntax@, cwd@) == Err::<ModuleView, _>(e@),
        },
{
    let dependencies = resolve_imports(&file_path, content.as_str(), &syntax, cwd)?;
    Ok(Module { file_path, module_content: content, syntax, dependencies })
}

/// The state of a resolution: the working directory, the modules found so
/// far, and the canonical paths still to be looked at, the last of them next.
#[derive(Debug)]
pub struct Resolver {
    cwd: String,
    modules: Vec<Module>,
    pending: Vec<String>,
}

/// The state of a resolution as a mathematical value.
pub struct ResolverView {
    pub cwd: Seq<char>,
    pub modules: Seq<ModuleView>,
    pub pending: Seq<Seq<char>>,
}

impl View for Resolver {
    type V = ResolverView;

    closed spec fn view(&self) -> ResolverView {
        ResolverView {
            cwd: self.cwd@,
            modules: views(self.modules@),
            pending: texts(self.pending@),
        }
    }
}

/// `pending` without the paths at its end that `modules` already hold.
pub open spec fn settled(modules: Seq<ModuleView>, pending: Seq<Seq<char>>) -> Seq<Seq<char>>
    decreases pending.len(),
{
    if pending.len() > 0 && has_module(modules, pending.last()) {
        settled(modules, pending.drop_last())
    } else {
        pending
    }
}

/// The state in which a resolution of the module at `entry` starts.
pub open spec fn started(entry: Seq<char>, cwd: Seq<char>) -> ResolverView {
    ResolverView { cwd, modules: Seq::empty(), pending: seq![entry] }
}

/// The failure to read the file at `path`.
pub open spec fn unreadable(path: Seq<char>) -> ErrorView {
    ErrorView { kind: ErrorKind::SourceReadError, path, statement: Seq::empty() }
}

/// The state after the file at `path` was read, with `content` as what the
/// read gave and `syntax` as the syntax tree of the text. Without a text the
/// resolution fails with `SourceReadError`. A path that has its module
/// changes nothing. Else the module is recorded, and its dependencies are to
/// be looked at, the first of them next.
pub open spec fn supplied(
    state: ResolverView,
    path: Seq<char>,
    content: Option<Seq<char>>,
    syntax: Seq<SyntaxItem>,
) -> Result<ResolverView, ErrorView> {
    match content {
        None => Err(unreadable(path)),
        Some(text) => if has_module(state.modules, path) {
            Ok(state)
        } else {
            match module_of(path, text, syntax, state.cwd) {
                Err(e) => Err(e),
                Ok(module) => Ok(
                    ResolverView {
                        cwd: state.cwd,
                        modules: state.modules.push(module),
                        pending: state.pending + module.dependencies.reverse(),
                    },
                ),
            }
        },
    }
}

/// Whether every one of `modules` is the record of its own text: its
/// dependencies are what its import declarations resolve to, in order.
pub open spec fn faithful(modules: Seq<ModuleView>, cwd: Seq<char>) -> bool {
    forall|i: int|
        0 <= i < modules.len() ==> module_of(
            (#[trigger] modules[i]).file_path,
            modules[i].module_content,
            modules[i].syntax,
            cwd,
        ) == Ok::<_, ErrorView>(modules[i])
}

/// Whether a state keeps what a resolution relies on: no two modules have
/// the same path, every module is the record of its own text, and every
/// dependency of a module is the path of a module or still to be looked at.
pub open spec fn well_formed(state: ResolverView) -> bool {
    &&& unique_paths(state.modules)
    &&& faithful(state.modules, state.cwd)
    &&& forall|i: int, d: int|
        0 <= i < state.modules.len() && 0 <= d < state.modules[i].dependencies.len()
            ==> has_module(state.modules, #[trigger] state.modules[i].dependencies[d])
            || state.pending.contains(state.modules[i].dependencies[d])
}

/// The state `state` with `pending` as the paths still to be looked at.
pub open spec fn with_pending(state: ResolverView, pending: Seq<Seq<char>>) -> ResolverView {
    ResolverView { cwd: state.cwd, modules: state.modules, pending }
}

/// Dropping the paths whose module is known keeps a state well formed. What
/// is left ends with a path whose module is not known; if nothing is left,
/// every dependency has its module.
proof fn lemma_settled(state: ResolverView)
    requires
        well_formed(state),
    ensures
        well_formed(with_pending(state, settled(state.modules, state.pending))),
        settled(state.modules, state.pending).len() == 0 ==> closed(state.modules),
        settled(state.modules, state.pending).len() > 0 ==> !has_module(
            state.modules,
            settled(state.modules, state.pending).last(),
        ),
        settled(state.modules, settled(state.modules, state.pending)) == settled(
            state.modules,
            state.pending,
        ),
    decreases state.pending.len(),
{
    let pending = state.pending;
    if pending.len() > 0 && has_module(state.modules, pending.last()) {
        let less = with_pending(state, pending.drop_last());
        assert forall|i: int, d: int|
            0 <= i < state.modules.len() && 0 <= d < state.modules[i].dependencies.len()
                && !has_module(
                state.modules,
                #[trigger] state.modules[i].dependencies[d],
            ) implies less.pending.contains(state.modules[i].dependencies[d]) by {
            let dep = state.modules[i].dependencies[d];
            let at = choose|at: int| 0 <= at < pending.len() && pending[at] == dep;
            assert(less.pending[at] == dep);
        }
        lemma_settled(less);
    } else if pending.len() == 0 {
        assert(forall|i: int, d: int|
            0 <= i < state.modules.len() && 0 <= d < state.modules[i].dependencies.len()
                ==> !pending.contains(#[trigger] state.modules[i].dependencies[d]));
    }
}

/// Taking the text of a file keeps a state well formed and the modules it
/// has; the module of a path that had none is added behind them.
proof fn lemma_supplied(
    state: ResolverView,
    path: Seq<char>,
    content: Option<Seq<char>>,
    syntax: Seq<SyntaxItem>,
)
    requires
        well_formed(state),
        supplied(state, path, content, syntax) is Ok,
    ensures
        well_formed(supplied(state, path, content, syntax)->Ok_0),
        supplied(state, path, content, syntax)->Ok_0.cwd == state.cwd,
        has_module(state.modules, path) ==> supplied(state, path, content, syntax)->Ok_0
            == state,
        !has_module(state.modules, path) ==> {
            let next = supplied(state, path, content, syntax)->Ok_0;
            &&& next.modules.len() == state.modules.len() + 1
            &&& next.modules.drop_last() == state.modules
            &&& next.modules.last().file_path == path
        },
{
    if !has_module(state.modules, path) {
        let next = supplied(state, path, content, syntax)->Ok_0;
        let m = module_of(path, content->0, syntax, state.cwd)->Ok_0;
        assert(next.modules.drop_last() =~= state.modules);
        assert forall|i: int, j: int| 0 <= i < j < next.modules.len() implies (
        #[trigger] next.modules[i]).file_path != (#[trigger] next.modules[j]).file_path by {
            if j == state.modules.len() {
                assert(state.modules[i].file_path != path);
            }
        }
        assert forall|i: int, d: int|
            0 <= i < next.modules.len() && 0 <= d < next.modules[i].dependencies.len()
                && !has_module(
                next.modules,
                #[trigger] next.modules[i].dependencies[d],
            ) implies next.pending.contains(next.modules[i].dependencies[d]) by {
            let dep = next.modules[i].dependencies[d];
            if i < state.modules.len() {
                assert(state.modules[i].dependencies[d] == dep);
                if has_module(state.modules, dep) {
                    let w = choose|w: int|
                        0 <= w < state.modules.len() && #[trigger] state.modules[w].file_path
                            == dep;
                    assert(next.modules[w].file_path == dep);
                }
                let at = choose|at: int| 0 <= at < state.pending.len() && state.pending[at] == dep;
                assert(next.pending[at] == dep);
            } else {
                let n = m.dependencies.len();
                assert(m.dependencies.reverse()[n - 1 - d] == dep);
                assert(next.pending[state.pending.len() + (n - 1 - d)] == dep);
            }
        }
    }
}

impl Resolver {
    /// Every resolver is in a well-formed state.
    #[verifier::type_invariant]
    spec fn wf(&self) -> bool {
        well_formed(self@)
    }

    /// Starts the resolution of the module in the file `entry_file`. Fails
    /// with `PathResolutionError` where the path has no canonical form.
    pub fn new(entry_file: &String, cwd: &String) -> (resolver: Result<Resolver, BundleError>)
        ensures
            match resolver {
                Ok(r) => well_formed(r@) && absolutized(entry_file@, cwd@) is Some && r@ == started(
                    absolutized(entry_file@, cwd@)->0,
                    cwd@,
                ),
                Err(e) => absolutized(entry_file@, cwd@) is None && e@ == (ErrorView {
                    kind: ErrorKind::PathResolutionError,
                    path: entry_file@,
                    statement: Seq::empty(),
                }),
            },
    {
        match canonical_path(entry_file.as_str(), cwd.as_str()) {
            None => Err(BundleError::new(ErrorKind::PathResolutionError, entry_file.as_str())),
            Some(entry) => {
                let mut pending: Vec<String> = Vec::new();
                pending.push(entry);
                let r = Resolver { cwd: cwd.clone(), modules: Vec::new(), pending };
                assert(r@.pending =~= seq![entry@]);
                assert(r@.modules =~= Seq::<ModuleView>::empty());
                Ok(r)
            },
        }
    }

    /// Drops the paths whose module is known and gives, with the state
    /// that is left, the canonical path of the file to read next; none when
    /// the resolution is complete, and then every dependency has its module.
    pub fn next_request(self) -> (next: (Resolver, Option<String>))
        ensures
            well_formed(self@),
            well_formed(next.0@),
            next.0@ == with_pending(self@, settled(self@.modules, self@.pending)),
            match next.1 {
                Some(p) => next.0@.pending.len() > 0 && p@ == next.0@.pending.last()
                    && !has_module(next.0@.modules, p@),
                None => next.0@.pending.len() == 0 && closed(next.0@.modules),
            },
    {
        proof {
            use_type_invariant(&self);
            lemma_settled(self@);
        }
        let Resolver { cwd, modules, mut pending } = self;
        let mut request: Option<String> = None;
        while request.is_none() && pending.len() > 0
            invariant
                settled(views(modules@), texts(pending@)) == settled(self@.modules, self@.pending),
                request matches Some(p) ==> pending@.len() > 0 && p@ == texts(pending@).last()
                    && !has_module(views(modules@), p@),
            decreases pending@.len() + if request.is_none() { 1nat } else { 0nat },
        {
            let top = &pending[pending.len() - 1];
            proof {
                lemma_position_found(views(modules@), top@);
                assert(texts(pending@).last() == top@);
            }
            if find_module(&modules, top) >= modules.len() {
                request = Some(top.clone());
            } else {
                let ghost before = texts(pending@);
                pending.pop();
                assert(texts(pending@) =~= before.drop_last());
            }
        }
        assert(request.is_none() ==> texts(pending@) =~= Seq::<Seq<char>>::empty());
        (Resolver { cwd, modules, pending }, request)
    }

    /// The modules found so far, in the order in which they were found.
    pub fn modules(&self) -> (modules: &Vec<Module>)
        ensures
            views(modules@) == self@.modules,
            unique_paths(self@.modules),
    {
        proof {
            use_type_invariant(self);
        }
        &self.modules
    }

    /// Gives up the resolver for the graph of the modules it has found.
    pub fn into_graph(self) -> (graph: ModuleGraph)
        ensures
            graph@ == self@.modules,
    {
        proof {
            use_type_invariant(&self);
        }
        ModuleGraph::from_modules(self.modules)
    }

    /// Takes what reading the file at `path` gave: its text with the syntax
    /// tree of the text, or no text where the file could not be read.
    pub fn supply(
        self,
        path: String,
        content: Option<String>,
        syntax: Vec<SyntaxItem>,
    ) -> (next: Result<Resolver, BundleError>)
        ensures
            well_formed(self@),
            match next {
                Ok(r) => well_formed(r@) && supplied(self@, path@, text_of(content), syntax@)
                    == Ok::<_, ErrorView>(r@),
                Err(e) => supplied(self@, path@, text_of(content), syntax@) == Err::<
                    ResolverView,
                    _,
                >(e@),
            },
    {
        proof {
            use_type_invariant(&self);
        }
        let text = match content {
            None => {
                return Err(BundleError::new(ErrorKind::SourceReadError, path.as_str()));
            },
            Some(text) => text,
        };
        proof {
            lemma_position_found(self@.modules, path@);
        }
        if find_module(&self.modules, &path) < self.modules.len() {
            return Ok(self);
        }
        let module = new_module(path, text, syntax, &self.cwd)?;
        proof {
            lemma_supplied(self@, path@, text_of(content), syntax@);
        }
        let Resolver { cwd, mut modules, mut pending } = self;
        push_reversed(&mut pending, &module.dependencies);
        modules.push(module);
        assert(views(modules@) =~= self@.modules.push(module@));
        Ok(Resolver { cwd, modules, pending })
    }
}

/// The graph that a resolution in the state `state` ends with when the files
/// it asks for are taken from `sources`, each file once, or the failure that
/// ends it: `SourceReadError` for a path that is not among the sources.
pub open spec fn resolution(state: ResolverView, sources: Seq<SourceView>) -> Result<
    Seq<ModuleView>,
    ErrorView,
>
    decreases sources.len(),
{
    let pending = settled(state.modules, state.pending);
    if pending.len() == 0 {
        Ok(state.modules)
    } else {
        let path = pending.last();
        let at = source_from(sources, path, 0);
        if 0 <= at < sources.len() {
            match supplied(
                ResolverView { cwd: state.cwd, modules: state.modules, pending },
                path,
                Some(sources[at].content),
                sources[at].syntax,
            ) {
                Err(e) => Err(e),
                Ok(next) => resolution(next, sources.remove(at)),
            }
        } else {
            Err(unreadable(path))
        }
    }
}

/// The graph of the modules that the module in the file `entry_file` reaches,
/// with `sources` as the files that can be read.
pub open spec fn dependency_graph(
    entry_file: Seq<char>,
    cwd: Seq<char>,
    sources: Seq<SourceView>,
) -> Result<Seq<ModuleView>, ErrorView> {
    match absolutized(entry_file, cwd) {
        None => Err(
            ErrorView {
                kind: ErrorKind::PathResolutionError,
                path: entry_file,
                statement: Seq::empty(),
            },
        ),
        Some(entry) => resolution(started(entry, cwd), sources),
    }
}

/// A resolution that succeeds gives a graph in which no two modules have the
/// same path, every module is the record of its own text, and every
/// dependency has its module. The modules known at the
/// start stay in front; where none is known, the module of the path looked at
/// first is the first.
pub proof fn lemma_resolution(state: ResolverView, sources: Seq<SourceView>)
    requires
        well_formed(state),
        resolution(state, sources) is Ok,
    ensures
        ({
            let graph = resolution(state, sources)->Ok_0;
            let pending = settled(state.modules, state.pending);
            &&& unique_paths(graph)
            &&& faithful(graph, state.cwd)
            &&& closed(graph)
            &&& graph.len() >= state.modules.len()
            &&& graph.subrange(0, state.modules.len() as int) == state.modules
            &&& state.modules.len() == 0 && pending.len() > 0 ==> graph.len() > 0
                && graph[0].file_path == pending.last()
        }),
    decreases sources.len(),
{
    lemma_settled(state);
    let graph = resolution(state, sources)->Ok_0;
    let pending = settled(state.modules, state.pending);
    if pending.len() == 0 {
        assert(graph.subrange(0, state.modules.len() as int) =~= state.modules);
    } else {
        let path = pending.last();
        let at = source_from(sources, path, 0);
        let asked = with_pending(state, pending);
        let content = Some(sources[at].content);
        let next = supplied(asked, path, content, sources[at].syntax)->Ok_0;
        lemma_supplied(asked, path, content, sources[at].syntax);
        lemma_resolution(next, sources.remove(at));
        assert(next.modules.drop_last() == state.modules);
        assert(graph.subrange(0, state.modules.len() as int) =~= graph.subrange(
            0,
            next.modules.len() as int,
        ).drop_last());
        if state.modules.len() == 0 {
            assert(graph.subrange(0, next.modules.len() as int)[0] == graph[0]);
        }
    }
}

/// Takes the first source file at `path` out of `sources`.
pub(crate) fn take_source(sources: &mut Vec<SourceFile>, path: &String) -> (file: Option<
    SourceFile,
>)
    ensures
        match file {
            Some(f) => {
                let at = source_from(source_views(old(sources)@), path@, 0);
                &&& 0 <= at < old(sources)@.len()
                &&& f@ == old(sources)@[at]@
                &&& source_views(final(sources)@) == source_views(old(sources)@).remove(at)
            },
            None => source_from(source_views(old(sources)@), path@, 0) == old(sources)@.len()
                && final(sources)@ == old(sources)@,
        },
{
    let mut at: usize = 0;
    while at < sources.len()
        invariant
            at <= sources@.len(),
            sources@ == old(sources)@,
            source_from(source_views(sources@), path@, 0) == source_from(
                source_views(sources@),
                path@,
                at as int,
            ),
        decreases sources@.len() - at,
    {
        if sources[at].path == *path {
            let ghost before = source_views(sources@);
            let file = sources.remove(at);
            assert(source_views(sources@) =~= before.remove(at as int));
            return Some(file);
        }
        at += 1;
    }
    None
}

/// Resolves the module in the file `entry_file` and all that it reaches,
/// reading from `sources`, which holds each file under its canonical path.
/// The graph has one module for each canonical path reached, the entry module
/// first, and with each module those it loads. The resolution ends on every
/// input, whether or not modules import each other in a circle.
pub fn create_dependency_graph(entry_file: &String, cwd: &String, sources: Vec<SourceFile>) -> (graph:
    Result<ModuleGraph, BundleError>)
    ensures
        match graph {
            Ok(g) => {
                &&& dependency_graph(entry_file@, cwd@, source_views(sources@)) == Ok::<
                    _,
                    ErrorView,
                >(g@)
                &&& unique_paths(g@)
                &&& faithful(g@, cwd@)
                &&& closed(g@)
                &&& g@.len() > 0
                &&& Some(g@[0].file_path) == absolutized(entry_file@, cwd@)
            },
            Err(e) => dependency_graph(entry_file@, cwd@, source_views(sources@)) == Err::<
                Seq<ModuleView>,
                _,
            >(e@),
        },
{
    let mut resolver = Resolver::new(entry_file, cwd)?;
    let mut rest = sources;
    proof {
        let begin = started(absolutized(entry_file@, cwd@)->0, cwd@);
        if resolution(begin, source_views(sources@)) is Ok {
            lemma_resolution(begin, source_views(sources@));
            assert(settled(begin.modules, begin.pending) == begin.pending);
        }
    }
    loop
        invariant
            dependency_graph(entry_file@, cwd@, source_views(sources@)) == resolution(
                resolver@,
                source_views(rest@),
            ),
            dependency_graph(entry_file@, cwd@, source_views(sources@)) matches Ok(graph) ==> {
                &&& unique_paths(graph)
                &&& faithful(graph, cwd@)
                &&& closed(graph)
                &&& graph.len() > 0
                &&& Some(graph[0].file_path) == absolutized(entry_file@, cwd@)
            },
        decreases rest@.len(),
    {
        let ghost before = resolver@;
        let (asked, request) = resolver.next_request();
        proof {
            lemma_settled(before);
        }
        match request {
            None => {
                return Ok(asked.into_graph());
            },
            Some(path) => {
                match take_source(&mut rest, &path) {
                    None => {
                        return Err(BundleError::new(ErrorKind::SourceReadError, path.as_str()));
                    },
                    Some(file) => {
                        resolver = asked.supply(path, Some(file.content), file.syntax)?;
                    },
                }
            },
        }
    }
}

/// A resolution fails with `SourceReadError`, `MalformedImport` or
/// `PathResolutionError` only.
pub proof fn lemma_resolution_failure(state: ResolverView, sources: Seq<SourceView>)
    requires
        resolution(state, sources) is Err,
    ensures
        ({
            let kind = resolution(state, sources)->Err_0.kind;
            kind == ErrorKind::SourceReadError || kind == ErrorKind::MalformedImport || kind
                == ErrorKind::PathResolutionError
        }),
    decreases sources.len(),
{
    let pending = settled(state.modules, state.pending);
    if pending.len() > 0 {
        let path = pending.last();
        let at = source_from(sources, path, 0);
        if 0 <= at < sources.len() {
            let source = sources[at];
            let asked = with_pending(state, pending);
            match supplied(asked, path, Some(source.content), source.syntax) {
                Ok(next) => {
                    lemma_resolution_failure(next, sources.remove(at));
                },
                Err(e) => {
                    lemma_dependencies_failure(
                        encode_utf8(source.content),
                        source.syntax,
                        statements(source.syntax),
                        path,
                        state.cwd,
                    );
                },
            }
        }
    }
}

} // verus!
