//! Modules and the graph they form: one record for each canonical path.

use crate::syntax::SyntaxItem;
use crate::text::texts;
use vstd::prelude::*;

verus! {

/// A module: the canonical path that identifies it, its source text as read,
/// the syntax tree of that text, and the canonical paths of the modules that
/// its import declarations load, one for each declaration, in source order.
/// The dependencies are the edges of the module graph; the rewriting of a
/// module does not read them.
#[derive(Debug)]
pub struct Module {
    pub file_path: String,
    pub module_content: String,
    pub syntax: Vec<SyntaxItem>,
    pub dependencies: Vec<String>,
}

/// A module as a mathematical value.
pub struct ModuleView {
    pub file_path: Seq<char>,
    pub module_content: Seq<char>,
    pub syntax: Seq<SyntaxItem>,
    pub dependencies: Seq<Seq<char>>,
}

impl View for Module {
    type V = ModuleView;

    open spec fn view(&self) -> ModuleView {
        ModuleView {
            file_path: self.file_path@,
            module_content: self.module_content@,
            syntax: self.syntax@,
            dependencies: texts(self.dependencies@),
        }
    }
}

/// A list of modules as a mathematical value.
pub open spec fn views(modules: Seq<Module>) -> Seq<ModuleView> {
    modules.map_values(|m: Module| m@)
}

/// The index, from `from` on, of the first of `modules` whose path is `path`;
/// the length of `modules` if there is none.
pub open spec fn position_from(modules: Seq<ModuleView>, path: Seq<char>, from: int) -> int
    decreases modules.len() - from,
{
    if from < 0 || from >= modules.len() {
        modules.len() as int
    } else if modules[from].file_path == path {
        from
    } else {
        position_from(modules, path, from + 1)
    }
}

/// The index of the first of `modules` whose path is `path`; the length of
/// `modules` if there is none.
pub open spec fn position(modules: Seq<ModuleView>, path: Seq<char>) -> int {
    position_from(modules, path, 0)
}

/// Whether one of `modules` has the path `path`.
pub open spec fn has_module(modules: Seq<ModuleView>, path: Seq<char>) -> bool {
    exists|i: int| 0 <= i < modules.len() && #[trigger] modules[i].file_path == path
}

/// Whether no two of `modules` have the same path.
pub open spec fn unique_paths(modules: Seq<ModuleView>) -> bool {
    forall|i: int, j: int|
        0 <= i < j < modules.len() ==> #[trigger] modules[i].file_path
            != #[trigger] modules[j].file_path
}

/// Whether every dependency of every one of `modules` is the path of one of
/// them.
pub open spec fn closed(modules: Seq<ModuleView>) -> bool {
    forall|i: int, d: int|
        0 <= i < modules.len() && 0 <= d < modules[i].dependencies.len() ==> has_module(
            modules,
            #[trigger] modules[i].dependencies[d],
        )
}

/// The position of a path is that of the first module that has it.
pub(crate) proof fn lemma_position(modules: Seq<ModuleView>, path: Seq<char>, from: int)
    requires
        0 <= from <= modules.len(),
    ensures
        from <= position_from(modules, path, from) <= modules.len(),
        position_from(modules, path, from) < modules.len() ==> modules[position_from(
            modules,
            path,
            from,
        )].file_path == path,
        forall|i: int|
            from <= i < position_from(modules, path, from) ==> #[trigger] modules[i].file_path
                != path,
    decreases modules.len() - from,
{
    if from < modules.len() && modules[from].file_path != path {
        lemma_position(modules, path, from + 1);
    }
}

/// A path has a position among the modules exactly if one of them has it.
pub(crate) proof fn lemma_position_found(modules: Seq<ModuleView>, path: Seq<char>)
    ensures
        has_module(modules, path) <==> position(modules, path) < modules.len(),
{
    lemma_position(modules, path, 0);
}

/// Finds the first of `modules` whose path is `path`.
pub(crate) fn find_module(modules: &Vec<Module>, path: &String) -> (at: usize)
    ensures
        at == position(views(modules@), path@),
        at <= modules@.len(),
{
    let mut at: usize = 0;
    while at < modules.len()
        invariant
            at <= modules@.len(),
            position(views(modules@), path@) == position_from(
                views(modules@),
                path@,
                at as int,
            ),
        decreases modules@.len() - at,
    {
        if modules[at].file_path == *path {
            return at;
        }
        at += 1;
    }
    at
}

/// Copies a list of strings.
pub(crate) fn copy_texts(list: &Vec<String>) -> (copy: Vec<String>)
    ensures
        texts(copy@) == texts(list@),
{
    let mut copy: Vec<String> = Vec::new();
    let mut i: usize = 0;
    while i < list.len()
        invariant
            i <= list@.len(),
            texts(copy@) == texts(list@).subrange(0, i as int),
        decreases list@.len() - i,
    {
        let ghost before = copy@;
        copy.push(list[i].clone());
        assert(texts(copy@) =~= texts(before).push(list@[i as int]@));
        assert(texts(list@).subrange(0, i + 1) =~= texts(list@).subrange(0, i as int).push(
            list@[i as int]@,
        ));
        i += 1;
    }
    assert(texts(list@).subrange(0, i as int) =~= texts(list@));
    copy
}

/// Pushes copies of `list` onto `stack`, the last of them first, so that the
/// first of them comes off first.
pub(crate) fn push_reversed(stack: &mut Vec<String>, list: &Vec<String>)
    ensures
        texts(final(stack)@) == texts(old(stack)@) + texts(list@).reverse(),
{
    let n = list.len();
    let mut i: usize = n;
    while i > 0
        invariant
            i <= n,
            n == list@.len(),
            stack@.len() == old(stack)@.len() + (n - i),
            forall|j: int| 0 <= j < old(stack)@.len() ==> stack@[j]@ == old(stack)@[j]@,
            forall|j: int|
                0 <= j < n - i ==> (#[trigger] stack@[old(stack)@.len() + j])@ == list@[n - 1
                    - j]@,
        decreases i,
    {
        i -= 1;
        stack.push(list[i].clone());
    }
    proof {
        let pushed = texts(old(stack)@) + texts(list@).reverse();
        assert(texts(stack@).len() == pushed.len());
        assert forall|j: int| 0 <= j < pushed.len() implies texts(stack@)[j] == pushed[j] by {
            if j >= old(stack)@.len() {
                let d = j - old(stack)@.len();
                assert((stack@[old(stack)@.len() + d])@ == list@[n - 1 - d]@);
            }
        }
        assert(texts(stack@) =~= pushed);
    }
}

/// Copies a syntax tree.
pub(crate) fn copy_syntax(nodes: &Vec<SyntaxItem>) -> (copy: Vec<SyntaxItem>)
    ensures
        copy@ == nodes@,
{
    let mut copy: Vec<SyntaxItem> = Vec::new();
    let mut i: usize = 0;
    while i < nodes.len()
        invariant
            i <= nodes@.len(),
            copy@ == nodes@.subrange(0, i as int),
        decreases nodes@.len() - i,
    {
        copy.push(nodes[i]);
        assert(nodes@.subrange(0, i + 1) =~= nodes@.subrange(0, i as int).push(nodes@[i as int]));
        i += 1;
    }
    assert(nodes@.subrange(0, i as int) =~= nodes@);
    copy
}

/// Copies a module.
pub fn copy_module(module: &Module) -> (copy: Module)
    ensures
        copy@ == module@,
{
    Module {
        file_path: module.file_path.clone(),
        module_content: module.module_content.clone(),
        syntax: copy_syntax(&module.syntax),
        dependencies: copy_texts(&module.dependencies),
    }
}

/// The graph of the modules of a build: a record for each module, found by
/// its canonical path, with its dependencies as the edges. No two records
/// have the same path.
#[derive(Debug)]
pub struct ModuleGraph {
    modules: Vec<Module>,
}

impl View for ModuleGraph {
    type V = Seq<ModuleView>;

    closed spec fn view(&self) -> Seq<ModuleView> {
        views(self.modules@)
    }
}

impl ModuleGraph {
    /// No two modules of a graph have the same path.
    #[verifier::type_invariant]
    spec fn unique(&self) -> bool {
        unique_paths(self@)
    }

    /// The graph without modules.
    pub fn new() -> (graph: ModuleGraph)
        ensures
            graph@ == Seq::<ModuleView>::empty(),
    {
        let graph = ModuleGraph { modules: Vec::new() };
        assert(graph@ =~= Seq::<ModuleView>::empty());
        graph
    }

    /// The graph of `modules`, of which no two have the same path.
    pub(crate) fn from_modules(modules: Vec<Module>) -> (graph: ModuleGraph)
        requires
            unique_paths(views(modules@)),
        ensures
            graph@ == views(modules@),
    {
        ModuleGraph { modules }
    }

    /// Adds `module` behind the modules of the graph, unless the graph has a
    /// module with its path, and tells whether it was added.
    pub fn insert(self, module: Module) -> (next: (ModuleGraph, bool))
        ensures
            unique_paths(self@),
            next.1 == !has_module(self@, module@.file_path),
            next.0@ == if next.1 {
                self@.push(module@)
            } else {
                self@
            },
    {
        proof {
            use_type_invariant(&self);
            lemma_position_found(self@, module@.file_path);
        }
        if find_module(&self.modules, &module.file_path) < self.modules.len() {
            return (self, false);
        }
        let ModuleGraph { mut modules } = self;
        modules.push(module);
        proof {
            let all = views(modules@);
            assert(all =~= self@.push(module@));
            assert forall|i: int, j: int| 0 <= i < j < all.len() implies (
            #[trigger] all[i]).file_path != (#[trigger] all[j]).file_path by {
                if j == self@.len() {
                    assert(self@[i].file_path != module@.file_path);
                }
            }
        }
        (ModuleGraph { modules }, true)
    }

    /// The modules of the graph, in the order in which they were added.
    pub fn modules(&self) -> (modules: &Vec<Module>)
        ensures
            views(modules@) == self@,
            unique_paths(self@),
    {
        proof {
            use_type_invariant(self);
        }
        &self.modules
    }

    /// Gives up the graph for its modules.
    pub fn into_modules(self) -> (modules: Vec<Module>)
        ensures
            views(modules@) == self@,
            unique_paths(self@),
    {
        proof {
            use_type_invariant(&self);
        }
        self.modules
    }
}

} // verus!
