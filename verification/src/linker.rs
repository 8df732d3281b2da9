//! The bundle linker: the modules in first-discovery order, the module table,
//! and the loader around it.

use crate::error::{BundleError, ErrorKind, ErrorView};
use crate::graph::{
    closed, find_module, has_module, lemma_position, lemma_position_found, position,
    push_reversed, unique_paths, views, Module, ModuleGraph, ModuleView,
};
use crate::text::{push_all, texts};
use crate::resolver::{dependencies_of, lemma_dependencies_failure};
use crate::syntax::statements;
use crate::transform::{lemma_rewriting_failure, module_text, transform_module_interface};
use vstd::prelude::*;
use vstd::utf8::*;

verus! {

/// What the module table starts with.
pub const TABLE_OPEN: &'static str = "{";

/// What the module table ends with.
pub const TABLE_CLOSE: &'static str = "}";

/// What an entry of the module table starts with, before the path.
pub const ENTRY_KEY: &'static str = "\"";

/// What stands between the path and the text of a module: the head of its
/// factory, which takes the exported-values container and the loader.
pub const ENTRY_FACTORY: &'static str = "\": function(exports, require) {  ";

/// What an entry of the module table ends with.
pub const ENTRY_END: &'static str = " },";

/// What a bundle starts with, before the module table.
pub const RUNTIME_TABLE: &'static str = "
    const modules = ";

/// What stands between the module table and the path of the entry module.
pub const RUNTIME_ENTRY: &'static str = ";
    const entry = \"";

/// What a bundle ends with: the loader, which keeps the container of a
/// module from before it runs the factory of the module, and the call that
/// loads the entry module.
pub const RUNTIME_LOADER: &'static str = "\";
    function webpackStart({ modules, entry }) {
      const moduleCache = {};
      const require = moduleName => {
        // if in cache, return the cached version
        if (moduleCache[moduleName]) {
          return moduleCache[moduleName];
        }
        const exports = {};
        // this will prevent infinite \"require\" loop
        // from circular dependencies
        moduleCache[moduleName] = exports;
    
        // \"require\"-ing the module,
        // exported stuff will assigned to \"exports\"
        modules[moduleName](exports, require);
        return moduleCache[moduleName];
      };
    
      // start the program
      require(entry);
    }

    webpackStart({ modules, entry });
    ";

/// The name of the file that holds a bundle.
pub const BUNDLE_NAME: &'static str = "bundle.js";

/// The modules that are reached from the paths on `stack`, the last path
/// first, each module before the modules it loads and those in source order.
/// A module leaves `rest` when it is reached, so that it comes once.
pub open spec fn flattened(rest: Seq<ModuleView>, stack: Seq<Seq<char>>) -> Seq<ModuleView>
    decreases rest.len(), stack.len(),
{
    if stack.len() == 0 {
        Seq::empty()
    } else {
        let at = position(rest, stack.last());
        if 0 <= at < rest.len() {
            seq![rest[at]] + flattened(
                rest.remove(at),
                stack.drop_last() + rest[at].dependencies.reverse(),
            )
        } else {
            flattened(rest, stack.drop_last())
        }
    }
}

/// The entry of the module table for the module at `path` with the rewritten
/// text `body`: `"PATH": function(exports, require) {  BODY },`.
pub open spec fn table_entry(path: Seq<char>, body: Seq<u8>) -> Seq<u8> {
    encode_utf8(ENTRY_KEY@) + encode_utf8(path) + encode_utf8(ENTRY_FACTORY@) + body + encode_utf8(
        ENTRY_END@,
    )
}

/// The entries of the module table for `modules`, in order, or the failure
/// of the first module whose text cannot be rewritten.
pub open spec fn table_entries(modules: Seq<ModuleView>, cwd: Seq<char>) -> Result<
    Seq<u8>,
    ErrorView,
>
    decreases modules.len(),
{
    if modules.len() == 0 {
        Ok(Seq::empty())
    } else {
        match table_entries(modules.drop_last(), cwd) {
            Err(e) => Err(e),
            Ok(entries) => match module_text(modules.last(), cwd) {
                Err(e) => Err(e),
                Ok(body) => Ok(entries + table_entry(modules.last().file_path, body)),
            },
        }
    }
}

/// The module table for `modules`: their entries between braces.
pub open spec fn module_map(modules: Seq<ModuleView>, cwd: Seq<char>) -> Result<
    Seq<u8>,
    ErrorView,
> {
    match table_entries(modules, cwd) {
        Err(e) => Err(e),
        Ok(entries) => Ok(encode_utf8(TABLE_OPEN@) + entries + encode_utf8(TABLE_CLOSE@)),
    }
}

/// The bundle: the module table, the path of the entry module, and the
/// loader, which keeps the container of each module it has begun to load and
/// ends by loading the entry module.
pub open spec fn runtime(table: Seq<u8>, entry: Seq<char>) -> Seq<u8> {
    encode_utf8(RUNTIME_TABLE@) + table + encode_utf8(RUNTIME_ENTRY@) + encode_utf8(entry)
        + encode_utf8(RUNTIME_LOADER@)
}

/// The failure of a graph that lacks its entry module.
pub open spec fn entry_missing(entry: Seq<char>) -> ErrorView {
    ErrorView { kind: ErrorKind::EntryNotInTableError, path: entry, statement: Seq::empty() }
}

/// The bundle of the modules of `graph` that the module at `entry` reaches.
pub open spec fn bundled(graph: Seq<ModuleView>, entry: Seq<char>, cwd: Seq<char>) -> Result<
    Seq<u8>,
    ErrorView,
> {
    if !has_module(graph, entry) {
        Err(entry_missing(entry))
    } else {
        match module_map(flattened(graph, seq![entry]), cwd) {
            Err(e) => Err(e),
            Ok(table) => Ok(runtime(table, entry)),
        }
    }
}

/// Every module that is reached is one of `rest`, and where no two of `rest`
/// have the same path, no two of the modules reached have.
proof fn lemma_flattened_once(rest: Seq<ModuleView>, stack: Seq<Seq<char>>)
    ensures
        forall|k: int|
            0 <= k < flattened(rest, stack).len() ==> rest.contains(
                #[trigger] flattened(rest, stack)[k],
            ),
        unique_paths(rest) ==> unique_paths(flattened(rest, stack)),
    decreases rest.len(), stack.len(),
{
    if stack.len() > 0 {
        let at = position(rest, stack.last());
        if 0 <= at < rest.len() {
            let left = rest.remove(at);
            let tail = flattened(left, stack.drop_last() + rest[at].dependencies.reverse());
            lemma_flattened_once(left, stack.drop_last() + rest[at].dependencies.reverse());
            let all = flattened(rest, stack);
            assert(all =~= seq![rest[at]] + tail);
            assert forall|k: int| 0 <= k < all.len() implies rest.contains(#[trigger] all[k]) by {
                if k > 0 {
                    assert(left.contains(tail[k - 1]));
                    let i = choose|i: int| 0 <= i < left.len() && left[i] == tail[k - 1];
                    if i < at {
                        assert(rest[i] == left[i]);
                    } else {
                        assert(rest[i + 1] == left[i]);
                    }
                }
            }
            if unique_paths(rest) {
                assert(unique_paths(left)) by {
                    assert forall|i: int, j: int| 0 <= i < j < left.len() implies (
                    #[trigger] left[i]).file_path != (#[trigger] left[j]).file_path by {
                        let a = if i < at { i } else { i + 1 };
                        let b = if j < at { j } else { j + 1 };
                        assert(left[i] == rest[a] && left[j] == rest[b]);
                    }
                }
                assert forall|i: int, j: int| 0 <= i < j < all.len() implies (
                #[trigger] all[i]).file_path != (#[trigger] all[j]).file_path by {
                    if i == 0 {
                        assert(left.contains(tail[j - 1]));
                        let w = choose|w: int| 0 <= w < left.len() && left[w] == tail[j - 1];
                        let b = if w < at { w } else { w + 1 };
                        assert(left[w] == rest[b]);
                        if b < at {
                            assert(rest[b].file_path != rest[at].file_path);
                        } else {
                            assert(rest[at].file_path != rest[b].file_path);
                        }
                    } else {
                        assert(tail[i - 1].file_path != tail[j - 1].file_path);
                    }
                }
            }
        } else {
            lemma_flattened_once(rest, stack.drop_last());
            assert(flattened(rest, stack) == flattened(rest, stack.drop_last()));
        }
    } else {
        assert(flattened(rest, stack).len() == 0);
    }
}

/// A path on the stack that has its module among `rest` has its module
/// among the modules reached.
proof fn lemma_flattened_reaches(rest: Seq<ModuleView>, stack: Seq<Seq<char>>, path: Seq<char>)
    requires
        stack.contains(path),
        has_module(rest, path),
    ensures
        has_module(flattened(rest, stack), path),
    decreases rest.len(), stack.len(),
{
    let top = stack.last();
    let at = position(rest, top);
    let all = flattened(rest, stack);
    lemma_position(rest, top, 0);
    lemma_position_found(rest, top);
    let s = choose|s: int| 0 <= s < stack.len() && stack[s] == path;
    if 0 <= at < rest.len() {
        let left = rest.remove(at);
        let next = stack.drop_last() + rest[at].dependencies.reverse();
        let tail = flattened(left, next);
        assert(all =~= seq![rest[at]] + tail);
        if path == rest[at].file_path {
            assert(all[0].file_path == path);
        } else {
            let i = choose|i: int| 0 <= i < rest.len() && #[trigger] rest[i].file_path == path;
            let w = if i < at { i } else { i - 1 };
            assert(left[w].file_path == path);
            assert(s < stack.len() - 1);
            assert(next[s] == path);
            lemma_flattened_reaches(left, next, path);
            let k = choose|k: int| 0 <= k < tail.len() && #[trigger] tail[k].file_path == path;
            assert(all[k + 1].file_path == path);
        }
    } else {
        assert(s < stack.len() - 1);
        assert(stack.drop_last()[s] == path);
        lemma_flattened_reaches(rest, stack.drop_last(), path);
    }
}

/// Where every dependency of the modules of `rest` has its module among them
/// or is in `done`, every dependency of the modules reached has its module
/// among those reached or is in `done`.
proof fn lemma_flattened_keeps_dependencies(
    rest: Seq<ModuleView>,
    stack: Seq<Seq<char>>,
    done: Set<Seq<char>>,
)
    requires
        forall|i: int, d: int|
            0 <= i < rest.len() && 0 <= d < rest[i].dependencies.len() ==> has_module(
                rest,
                #[trigger] rest[i].dependencies[d],
            ) || done.contains(rest[i].dependencies[d]),
    ensures
        forall|k: int, d: int|
            0 <= k < flattened(rest, stack).len() && 0 <= d < flattened(
                rest,
                stack,
            )[k].dependencies.len() ==> has_module(
                flattened(rest, stack),
                #[trigger] flattened(rest, stack)[k].dependencies[d],
            ) || done.contains(flattened(rest, stack)[k].dependencies[d]),
    decreases rest.len(), stack.len(),
{
    if stack.len() > 0 {
        let at = position(rest, stack.last());
        let all = flattened(rest, stack);
        if 0 <= at < rest.len() {
            let module = rest[at];
            let left = rest.remove(at);
            let next = stack.drop_last() + module.dependencies.reverse();
            let tail = flattened(left, next);
            let seen = done.insert(module.file_path);
            assert(all =~= seq![module] + tail);
            // a path that has its module among `rest` has it among `left`, or is the path of `module`
            assert forall|path: Seq<char>| has_module(rest, path) implies has_module(left, path)
                || path == module.file_path by {
                let i = choose|i: int| 0 <= i < rest.len() && #[trigger] rest[i].file_path == path;
                if i != at {
                    let w = if i < at { i } else { i - 1 };
                    assert(left[w].file_path == path);
                }
            }
            assert forall|i: int, d: int|
                0 <= i < left.len() && 0 <= d < left[i].dependencies.len() implies has_module(
                left,
                #[trigger] left[i].dependencies[d],
            ) || seen.contains(left[i].dependencies[d]) by {
                let a = if i < at { i } else { i + 1 };
                assert(left[i] == rest[a]);
                assert(has_module(rest, rest[a].dependencies[d]) || done.contains(
                    rest[a].dependencies[d],
                ));
            }
            lemma_flattened_keeps_dependencies(left, next, seen);
            // a path that has its module among `tail` has it among `all`
            assert forall|path: Seq<char>| has_module(tail, path) implies has_module(
                all,
                path,
            ) by {
                let k = choose|k: int| 0 <= k < tail.len() && #[trigger] tail[k].file_path == path;
                assert(all[k + 1].file_path == path);
            }
            assert(all[0].file_path == module.file_path);
            assert forall|k: int, d: int|
                0 <= k < all.len() && 0 <= d < all[k].dependencies.len() implies has_module(
                all,
                #[trigger] all[k].dependencies[d],
            ) || done.contains(all[k].dependencies[d]) by {
                let dep = all[k].dependencies[d];
                if k > 0 {
                    assert(tail[k - 1].dependencies[d] == dep);
                    assert(has_module(tail, dep) || seen.contains(dep));
                } else {
                    assert(has_module(rest, rest[at].dependencies[d]) || done.contains(dep));
                    if !done.contains(dep) && dep != module.file_path {
                        let n = module.dependencies.len();
                        assert(module.dependencies.reverse()[n - 1 - d] == dep);
                        assert(next[stack.len() - 1 + (n - 1 - d)] == dep);
                        lemma_flattened_reaches(left, next, dep);
                    }
                }
            }
        } else {
            lemma_flattened_keeps_dependencies(rest, stack.drop_last(), done);
            assert(all == flattened(rest, stack.drop_last()));
        }
    } else {
        assert(flattened(rest, stack).len() == 0);
    }
}

/// The module table holds each module once, the entry module first, and
/// with each module the modules that it loads: the modules that the entry
/// module reaches are modules of the graph; in a graph without repeated paths
/// they come each once; and where the graph has a module for every
/// dependency, so has the table.
pub proof fn lemma_table_is_sound(graph: Seq<ModuleView>, entry: Seq<char>)
    requires
        has_module(graph, entry),
    ensures
        flattened(graph, seq![entry]).len() > 0,
        flattened(graph, seq![entry])[0].file_path == entry,
        forall|k: int|
            0 <= k < flattened(graph, seq![entry]).len() ==> graph.contains(
                #[trigger] flattened(graph, seq![entry])[k],
            ),
        unique_paths(graph) ==> unique_paths(flattened(graph, seq![entry])),
        closed(graph) ==> closed(flattened(graph, seq![entry])),
{
    lemma_position(graph, entry, 0);
    lemma_position_found(graph, entry);
    lemma_flattened_once(graph, seq![entry]);
    if closed(graph) {
        lemma_flattened_keeps_dependencies(graph, seq![entry], Set::empty());
    }
}

/// Lists the modules of `graph` that the module at `entry` reaches, each
/// once, in the order in which they are first met: a module, then what its
/// first import reaches, then what its second import reaches, and so on.
/// Fails with `EntryNotInTableError` where the graph has no module at `entry`.
pub fn collect_modules(graph: ModuleGraph, entry: &String) -> (found: Result<
    Vec<Module>,
    BundleError,
>)
    ensures
        match found {
            Ok(list) => {
                &&& has_module(graph@, entry@)
                &&& views(list@) == flattened(graph@, seq![entry@])
                &&& list@.len() > 0
                &&& list@[0].file_path@ == entry@
                &&& unique_paths(views(list@))
                &&& closed(graph@) ==> closed(views(list@))
            },
            Err(e) => !has_module(graph@, entry@) && e@ == entry_missing(entry@),
        },
{
    let mut rest = graph.into_modules();
    proof {
        lemma_position_found(graph@, entry@);
        if has_module(graph@, entry@) {
            lemma_table_is_sound(graph@, entry@);
        }
    }
    if find_module(&rest, entry) >= rest.len() {
        return Err(BundleError::new(ErrorKind::EntryNotInTableError, entry.as_str()));
    }
    let mut stack: Vec<String> = Vec::new();
    stack.push(entry.clone());
    let mut list: Vec<Module> = Vec::new();
    assert(texts(stack@) =~= seq![entry@]);
    assert(views(list@) + flattened(views(rest@), texts(stack@)) =~= flattened(
        graph@,
        seq![entry@],
    ));
    while stack.len() > 0
        invariant
            flattened(graph@, seq![entry@]) == views(list@) + flattened(
                views(rest@),
                texts(stack@),
            ),
        decreases rest@.len(), stack@.len(),
    {
        let ghost rest_before = views(rest@);
        let ghost stack_before = texts(stack@);
        let ghost list_before = views(list@);
        let path = stack.pop().unwrap();
        assert(texts(stack@) =~= stack_before.drop_last());
        assert(path@ == stack_before.last());
        let at = find_module(&rest, &path);
        if at < rest.len() {
            let module = rest.remove(at);
            assert(views(rest@) =~= rest_before.remove(at as int));
            assert(module@ == rest_before[at as int]);
            push_reversed(&mut stack, &module.dependencies);
            list.push(module);
            assert(views(list@) =~= list_before + seq![rest_before[at as int]]);
            assert(list_before + (seq![rest_before[at as int]] + flattened(
                views(rest@),
                texts(stack@),
            )) =~= views(list@) + flattened(views(rest@), texts(stack@)));
        }
    }
    assert(views(list@) + Seq::<ModuleView>::empty() =~= views(list@));
    assert(views(list@)[0] == list@[0]@);
    Ok(list)
}

/// Once the modules up to some point have failed, all of them fail alike.
proof fn lemma_entries_failure_stays(modules: Seq<ModuleView>, cwd: Seq<char>, upto: int)
    requires
        0 <= upto <= modules.len(),
        table_entries(modules.subrange(0, upto), cwd) is Err,
    ensures
        table_entries(modules, cwd) == table_entries(modules.subrange(0, upto), cwd),
    decreases modules.len() - upto,
{
    if upto == modules.len() {
        assert(modules.subrange(0, upto) =~= modules);
    } else {
        assert(modules.subrange(0, upto + 1).drop_last() =~= modules.subrange(0, upto));
        lemma_entries_failure_stays(modules, cwd, upto + 1);
    }
}

/// Writes the module table: for each module, in order, its path as the key
/// and its rewritten text as the body of a factory that takes the
/// exported-values container and the loader.
pub fn to_module_map(modules: &Vec<Module>, cwd: &String) -> (table: Result<
    Vec<u8>,
    BundleError,
>)
    ensures
        match table {
            Ok(t) => module_map(views(modules@), cwd@) == Ok::<_, ErrorView>(t@),
            Err(e) => module_map(views(modules@), cwd@) == Err::<Seq<u8>, _>(e@),
        },
{
    let mut out: Vec<u8> = Vec::new();
    push_all(&mut out, TABLE_OPEN.as_bytes());
    let ghost mut entries: Seq<u8> = Seq::empty();
    let mut k: usize = 0;
    assert(views(modules@).subrange(0, 0) =~= Seq::<ModuleView>::empty());
    assert(out@ =~= encode_utf8(TABLE_OPEN@) + entries);
    while k < modules.len()
        invariant
            k <= modules@.len(),
            out@ == encode_utf8(TABLE_OPEN@) + entries,
            table_entries(views(modules@).subrange(0, k as int), cwd@) == Ok::<_, ErrorView>(
                entries,
            ),
        decreases modules@.len() - k,
    {
        let module = &modules[k];
        proof {
            let upto = views(modules@).subrange(0, k + 1);
            assert(upto.drop_last() =~= views(modules@).subrange(0, k as int));
            assert(upto.last() == module@);
        }
        match transform_module_interface(module, cwd) {
            Err(e) => {
                proof {
                    lemma_entries_failure_stays(views(modules@), cwd@, k + 1);
                }
                return Err(e);
            },
            Ok(body) => {
                push_all(&mut out, ENTRY_KEY.as_bytes());
                push_all(&mut out, module.file_path.as_str().as_bytes());
                push_all(&mut out, ENTRY_FACTORY.as_bytes());
                push_all(&mut out, body.as_slice());
                push_all(&mut out, ENTRY_END.as_bytes());
                proof {
                    let entry = table_entry(module@.file_path, body@);
                    assert(out@ =~= encode_utf8(TABLE_OPEN@) + (entries + entry));
                    entries = entries + entry;
                }
            },
        }
        k += 1;
    }
    assert(views(modules@).subrange(0, k as int) =~= views(modules@));
    push_all(&mut out, TABLE_CLOSE.as_bytes());
    Ok(out)
}

/// Wraps the module table `table` into the bundle that loads the module at
/// `entry_point`.
pub fn add_runtime(table: &Vec<u8>, entry_point: &String) -> (code: Vec<u8>)
    ensures
        code@ == runtime(table@, entry_point@),
{
    let mut code: Vec<u8> = Vec::new();
    push_all(&mut code, RUNTIME_TABLE.as_bytes());
    push_all(&mut code, table.as_slice());
    push_all(&mut code, RUNTIME_ENTRY.as_bytes());
    push_all(&mut code, entry_point.as_str().as_bytes());
    push_all(&mut code, RUNTIME_LOADER.as_bytes());
    assert(code@ =~= runtime(table@, entry_point@));
    code
}

/// Links the modules of `graph` that the module at `entry` reaches into one
/// script, and names the file to write it to.
pub fn bundle(graph: ModuleGraph, entry: &String, cwd: &String) -> (out: Result<
    (String, Vec<u8>),
    BundleError,
>)
    ensures
        match out {
            Ok((name, code)) => name@ == BUNDLE_NAME@ && bundled(graph@, entry@, cwd@) == Ok::<
                _,
                ErrorView,
            >(code@),
            Err(e) => bundled(graph@, entry@, cwd@) == Err::<Seq<u8>, _>(e@),
        },
{
    let modules = collect_modules(graph, entry)?;
    let table = to_module_map(&modules, cwd)?;
    Ok((BUNDLE_NAME.to_owned(), add_runtime(&table, entry)))
}

/// The module table fails with `MalformedImport`, `UnresolvableBindingError`
/// or `PathResolutionError` only.
pub proof fn lemma_table_failure(modules: Seq<ModuleView>, cwd: Seq<char>)
    requires
        table_entries(modules, cwd) is Err,
    ensures
        ({
            let kind = table_entries(modules, cwd)->Err_0.kind;
            kind == ErrorKind::MalformedImport || kind == ErrorKind::UnresolvableBindingError
                || kind == ErrorKind::PathResolutionError
        }),
    decreases modules.len(),
{
    if modules.len() > 0 {
        if table_entries(modules.drop_last(), cwd) is Err {
            lemma_table_failure(modules.drop_last(), cwd);
        } else {
            let module = modules.last();
            let content = encode_utf8(module.module_content);
            match dependencies_of(module.file_path, module.module_content, module.syntax, cwd) {
                Err(e) => {
                    lemma_dependencies_failure(
                        content,
                        module.syntax,
                        statements(module.syntax),
                        module.file_path,
                        cwd,
                    );
                },
                Ok(targets) => {
                    lemma_rewriting_failure(
                        content,
                        module.syntax,
                        targets,
                        statements(module.syntax),
                    );
                },
            }
        }
    }
}

/// Whether two modules agree in path, text and syntax tree.
pub open spec fn same_source(a: ModuleView, b: ModuleView) -> bool {
    a.file_path == b.file_path && a.module_content == b.module_content && a.syntax == b.syntax
}

/// The module table is a function of the paths, the texts and the syntax
/// trees of the modules: the dependencies that the modules record make no
/// difference to it.
pub proof fn lemma_table_reads_no_dependencies(
    first: Seq<ModuleView>,
    second: Seq<ModuleView>,
    cwd: Seq<char>,
)
    requires
        first.len() == second.len(),
        forall|i: int| 0 <= i < first.len() ==> same_source(#[trigger] first[i], second[i]),
    ensures
        table_entries(first, cwd) == table_entries(second, cwd),
        module_map(first, cwd) == module_map(second, cwd),
    decreases first.len(),
{
    if first.len() > 0 {
        let a = first.drop_last();
        let b = second.drop_last();
        assert forall|i: int| 0 <= i < a.len() implies same_source(#[trigger] a[i], b[i]) by {
            assert(same_source(first[i], second[i]));
        }
        lemma_table_reads_no_dependencies(a, b, cwd);
        assert(same_source(first[first.len() - 1], second[first.len() - 1]));
        assert(module_text(first.last(), cwd) == module_text(second.last(), cwd));
    }
}

} // verus!
