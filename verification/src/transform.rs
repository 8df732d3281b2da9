//! The interface transformer: import and export statements become calls of
//! the loader and assignments to the exported-values container.

use crate::error::{BundleError, ErrorKind, ErrorView};
use crate::graph::{Module, ModuleView};
use crate::parser::{fail_at, failure_at, import_specifier, specifier_at};
use crate::resolver::{dependencies_of, import_count, resolve_imports};
use crate::syntax::{
    as_ints, children, children_of, find_first, first_of, in_text, node_text, statements,
    NodeKind, SyntaxItem,
};
use crate::text::{
    push_all, push_range, push_without, skip_blank, skip_blank_bytes, texts, without,
};
use vstd::prelude::*;
use vstd::utf8::*;

verus! {

/// What a rewritten import starts with, before the binding.
pub const IMPORT_HEAD: &'static str = "const {";

/// What stands between the binding and the path of the module to load.
pub const IMPORT_LOAD: &'static str = "} = require(\"";

/// What a rewritten import ends with, behind the path.
pub const IMPORT_TAIL: &'static str = "\");";

/// What stands before the name of a default import.
pub const DEFAULT_BINDING: &'static str = "default: ";

/// What stands between a default import and the named imports.
pub const BINDING_SEPARATOR: &'static str = ",";

/// The bytes that are taken out of a list of named imports.
pub const BRACES: &'static str = "{}";

/// What a rewritten export starts with, before the name.
pub const EXPORT_HEAD: &'static str = "exports.";

/// What stands between the name and the value of an export.
pub const EXPORT_ASSIGN: &'static str = " = ";

/// What a rewritten export ends with.
pub const EXPORT_TAIL: &'static str = ";\n";

/// What a rewritten default export starts with, before the value.
pub const EXPORT_DEFAULT_HEAD: &'static str = "exports.default = ";

/// The statement that binds `binding` from a load of the module at `path`:
/// `const {BINDING} = require("PATH");`.
pub open spec fn import_statement(binding: Seq<u8>, path: Seq<char>) -> Seq<u8> {
    encode_utf8(IMPORT_HEAD@) + binding + encode_utf8(IMPORT_LOAD@) + encode_utf8(path)
        + encode_utf8(IMPORT_TAIL@)
}

/// The statement that exports `value` under `name`: `exports.NAME = VALUE;`
/// and a line feed.
pub open spec fn export_statement(name: Seq<u8>, value: Seq<u8>) -> Seq<u8> {
    encode_utf8(EXPORT_HEAD@) + name + encode_utf8(EXPORT_ASSIGN@) + value + encode_utf8(
        EXPORT_TAIL@,
    )
}

/// The statement that exports `value` as the default: `exports.default =
/// VALUE;` and a line feed.
pub open spec fn default_statement(value: Seq<u8>) -> Seq<u8> {
    encode_utf8(EXPORT_DEFAULT_HEAD@) + value + encode_utf8(EXPORT_TAIL@)
}

/// What the import declaration at `stmt` binds, as it stands between the
/// braces of the rewritten statement. The first child that is a literal or a
/// list of named imports decides. Before a literal stands the name of the
/// default import, which gives `default: NAME`. A list of named imports gives
/// its text without the braces, behind `default: NAME,` where a child stands
/// before it. The name is the text of the child before, which is to be a leaf
/// of the tree. There is no binding where neither child is found, or a name
/// that is needed is missing, is no leaf or has no text.
pub open spec fn import_binding(content: Seq<u8>, nodes: Seq<SyntaxItem>, stmt: int) -> Option<
    Seq<u8>,
> {
    let kids = children(nodes, stmt);
    let at = first_of(nodes, kids, NodeKind::Literal, NodeKind::NamedImports, 0);
    if at >= kids.len() {
        None
    } else {
        let default_name = if at > 0 && children(nodes, kids[at - 1]).len() == 0 {
            node_text(content, nodes, kids[at - 1])
        } else {
            None
        };
        if nodes[kids[at]].kind == NodeKind::Literal {
            match default_name {
                Some(name) => Some(encode_utf8(DEFAULT_BINDING@) + name),
                None => None,
            }
        } else {
            match node_text(content, nodes, kids[at]) {
                None => None,
                Some(list) => {
                    let names = without(list, encode_utf8(BRACES@));
                    if at == 0 {
                        Some(names)
                    } else {
                        match default_name {
                            Some(name) => Some(
                                encode_utf8(DEFAULT_BINDING@) + name + encode_utf8(
                                    BINDING_SEPARATOR@,
                                ) + names,
                            ),
                            None => None,
                        }
                    }
                },
            }
        }
    }
}

/// The statement that replaces the import declaration at `stmt`, which loads
/// the module at `target`, or the kind of failure: `MalformedImport` without
/// a specifier, else `UnresolvableBindingError` without a binding, else
/// `PathResolutionError` without a target.
pub open spec fn import_rewrite(
    content: Seq<u8>,
    nodes: Seq<SyntaxItem>,
    stmt: int,
    target: Option<Seq<char>>,
) -> Result<Seq<u8>, ErrorKind> {
    if import_specifier(content, nodes, stmt) is None {
        Err(ErrorKind::MalformedImport)
    } else {
        match import_binding(content, nodes, stmt) {
            None => Err(ErrorKind::UnresolvableBindingError),
            Some(binding) => match target {
                None => Err(ErrorKind::PathResolutionError),
                Some(path) => Ok(import_statement(binding, path)),
            },
        }
    }
}

/// The text of a node that is known to have one.
pub open spec fn text_at(content: Seq<u8>, nodes: Seq<SyntaxItem>, at: int) -> Seq<u8> {
    content.subrange(nodes[at].start as int, nodes[at].end as int)
}

/// Whether the node at `name` is one name of an export list, with a text.
pub open spec fn is_listed_name(content: Seq<u8>, nodes: Seq<SyntaxItem>, name: int) -> bool {
    node_text(content, nodes, name) is Some && nodes[name].kind == NodeKind::Specifier
}

/// One assignment `exports.NAME = NAME;` for each of `names`, in order.
pub open spec fn list_text(content: Seq<u8>, nodes: Seq<SyntaxItem>, names: Seq<int>) -> Seq<u8>
    decreases names.len(),
{
    if names.len() == 0 {
        Seq::empty()
    } else {
        let name = text_at(content, nodes, names.last());
        list_text(content, nodes, names.drop_last()) + export_statement(name, name)
    }
}

/// Whether the node at `decl` declares a name with a value: its first child
/// is the name and its second child the value, both with a text.
pub open spec fn is_declarator(content: Seq<u8>, nodes: Seq<SyntaxItem>, decl: int) -> bool {
    let parts = children(nodes, decl);
    parts.len() >= 2 && node_text(content, nodes, parts[0]) is Some && node_text(
        content,
        nodes,
        parts[1],
    ) is Some
}

/// One assignment `exports.NAME = VALUE;` for each of the declarators
/// `decls`, in order, the value as it is written.
pub open spec fn declared_text(content: Seq<u8>, nodes: Seq<SyntaxItem>, decls: Seq<int>) -> Seq<u8>
    decreases decls.len(),
{
    if decls.len() == 0 {
        Seq::empty()
    } else {
        let parts = children(nodes, decls.last());
        declared_text(content, nodes, decls.drop_last()) + export_statement(
            text_at(content, nodes, parts[0]),
            text_at(content, nodes, parts[1]),
        )
    }
}

/// The statements that replace the export declaration at `stmt`. Its first
/// child that is an export list or a variable declaration decides. An export
/// list whose children are all names gives one assignment for each name. A
/// variable declaration whose children all declare a name with a value gives
/// one assignment for each. Any other export declaration is not rewritten.
pub open spec fn export_rewrite(content: Seq<u8>, nodes: Seq<SyntaxItem>, stmt: int) -> Option<
    Seq<u8>,
> {
    let kids = children(nodes, stmt);
    let at = first_of(nodes, kids, NodeKind::ExportNamed, NodeKind::VarDecl, 0);
    if at >= kids.len() {
        None
    } else {
        let items = children(nodes, kids[at]);
        if nodes[kids[at]].kind == NodeKind::ExportNamed {
            if forall|k: int|
                0 <= k < items.len() ==> is_listed_name(content, nodes, #[trigger] items[k]) {
                Some(list_text(content, nodes, items))
            } else {
                None
            }
        } else {
            if forall|k: int|
                0 <= k < items.len() ==> is_declarator(content, nodes, #[trigger] items[k]) {
                Some(declared_text(content, nodes, items))
            } else {
                None
            }
        }
    }
}

/// The statement that replaces the default export at `stmt`: its first child
/// is the exported expression. Without one it is not rewritten.
pub open spec fn default_rewrite(content: Seq<u8>, nodes: Seq<SyntaxItem>, stmt: int) -> Option<
    Seq<u8>,
> {
    let kids = children(nodes, stmt);
    if kids.len() > 0 {
        match node_text(content, nodes, kids[0]) {
            Some(value) => Some(default_statement(value)),
            None => None,
        }
    } else {
        None
    }
}

/// How far a rewriting has come: the output so far, the index in the source
/// up to which it has been consumed, and the number of import declarations
/// met.
pub struct Progress {
    pub out: Seq<u8>,
    pub cursor: int,
    pub imports: int,
}

/// The progress after the text `text` has taken the place of the statement
/// `item`: the source from the cursor up to the statement is kept, with the
/// white space that the statement starts with.
pub open spec fn replaced(content: Seq<u8>, item: SyntaxItem, text: Seq<u8>, p: Progress) -> Progress {
    Progress {
        out: p.out + content.subrange(
            p.cursor,
            skip_blank(content, item.start as int, item.end as int),
        ) + text,
        cursor: item.end as int,
        imports: p.imports,
    }
}

/// Whether the statement `item` can be replaced: it lies in the source and
/// behind all that has been consumed.
pub open spec fn replaceable(content: Seq<u8>, item: SyntaxItem, p: Progress) -> bool {
    p.cursor <= item.start <= item.end <= content.len()
}

/// One more import declaration met.
pub open spec fn counted(p: Progress) -> Progress {
    Progress { out: p.out, cursor: p.cursor, imports: p.imports + 1 }
}

/// The target of the import declaration number `at`.
pub open spec fn target_at(targets: Seq<Seq<char>>, at: int) -> Option<Seq<char>> {
    if 0 <= at < targets.len() {
        Some(targets[at])
    } else {
        None
    }
}

/// The progress after the statement at `stmt`. An import declaration is
/// replaced or fails the rewriting; it fails with `MalformedImport` too where
/// it cannot be replaced. An export that is rewritten and can be replaced is
/// replaced. Every other statement is left as it is.
pub open spec fn step(
    content: Seq<u8>,
    nodes: Seq<SyntaxItem>,
    targets: Seq<Seq<char>>,
    stmt: int,
    p: Progress,
) -> Result<Progress, ErrorView> {
    let item = nodes[stmt];
    match item.kind {
        NodeKind::ImportDecl => {
            if !replaceable(content, item, p) {
                Err(failure_at(ErrorKind::MalformedImport, content, nodes, stmt))
            } else {
                match import_rewrite(content, nodes, stmt, target_at(targets, p.imports)) {
                    Err(kind) => Err(failure_at(kind, content, nodes, stmt)),
                    Ok(text) => Ok(counted(replaced(content, item, text, p))),
                }
            }
        },
        NodeKind::ExportDecl => {
            match export_rewrite(content, nodes, stmt) {
                Some(text) if replaceable(content, item, p) => Ok(replaced(content, item, text, p)),
                _ => Ok(p),
            }
        },
        NodeKind::ExportDefaultExpr => {
            match default_rewrite(content, nodes, stmt) {
                Some(text) if replaceable(content, item, p) => Ok(replaced(content, item, text, p)),
                _ => Ok(p),
            }
        },
        _ => Ok(p),
    }
}

/// The progress after the statements `stmts`, from the start of the source,
/// or the failure of the first statement that fails.
pub open spec fn progress(
    content: Seq<u8>,
    nodes: Seq<SyntaxItem>,
    targets: Seq<Seq<char>>,
    stmts: Seq<int>,
) -> Result<Progress, ErrorView>
    decreases stmts.len(),
{
    if stmts.len() == 0 {
        Ok(Progress { out: Seq::empty(), cursor: 0, imports: 0 })
    } else {
        match progress(content, nodes, targets, stmts.drop_last()) {
            Err(e) => Err(e),
            Ok(p) => step(content, nodes, targets, stmts.last(), p),
        }
    }
}

/// The text of a module after its interface has been rewritten: every import
/// declaration at the top level is replaced by a load of its target, the
/// targets taken in order from `targets`; the exports that are understood are
/// replaced by assignments; all other text stays byte for byte.
pub open spec fn transformed(
    content: Seq<u8>,
    nodes: Seq<SyntaxItem>,
    targets: Seq<Seq<char>>,
) -> Result<Seq<u8>, ErrorView> {
    match progress(content, nodes, targets, statements(nodes)) {
        Err(e) => Err(e),
        Ok(p) => Ok(p.out + content.subrange(p.cursor, content.len() as int)),
    }
}

/// Bytes that may be missing, as a mathematical value.
pub open spec fn bytes_of(bytes: Option<Vec<u8>>) -> Option<Seq<u8>> {
    match bytes {
        Some(b) => Some(b@),
        None => None,
    }
}

/// Appends the statement that binds `binding` from a load of `path`.
pub(crate) fn push_import_statement(out: &mut Vec<u8>, binding: &Vec<u8>, path: &str)
    ensures
        final(out)@ == old(out)@ + import_statement(binding@, path@),
{
    push_all(out, IMPORT_HEAD.as_bytes());
    push_all(out, binding.as_slice());
    push_all(out, IMPORT_LOAD.as_bytes());
    push_all(out, path.as_bytes());
    push_all(out, IMPORT_TAIL.as_bytes());
    assert(out@ =~= old(out)@ + import_statement(binding@, path@));
}

/// Appends the statement that exports the bytes of `content` in
/// `value_start..value_end` under the name in `name_start..name_end`.
pub(crate) fn push_export_statement(
    out: &mut Vec<u8>,
    content: &[u8],
    name: &SyntaxItem,
    value: &SyntaxItem,
)
    requires
        name.start <= name.end <= content@.len(),
        value.start <= value.end <= content@.len(),
    ensures
        final(out)@ == old(out)@ + export_statement(
            content@.subrange(name.start as int, name.end as int),
            content@.subrange(value.start as int, value.end as int),
        ),
{
    push_all(out, EXPORT_HEAD.as_bytes());
    push_range(out, content, name.start, name.end);
    push_all(out, EXPORT_ASSIGN.as_bytes());
    push_range(out, content, value.start, value.end);
    push_all(out, EXPORT_TAIL.as_bytes());
    assert(out@ =~= old(out)@ + export_statement(
        content@.subrange(name.start as int, name.end as int),
        content@.subrange(value.start as int, value.end as int),
    ));
}

/// Works out what the import declaration at `stmt` binds.
pub(crate) fn binding_at(content: &[u8], nodes: &Vec<SyntaxItem>, stmt: usize) -> (binding: Option<
    Vec<u8>,
>)
    requires
        stmt < nodes@.len(),
    ensures
        bytes_of(binding) == import_binding(content@, nodes@, stmt as int),
{
    let kids = children_of(nodes, stmt);
    let at = find_first(nodes, &kids, NodeKind::Literal, NodeKind::NamedImports);
    if at >= kids.len() {
        return None;
    }
    assert(as_ints(kids@)[at as int] == kids@[at as int]);
    let chosen = nodes[kids[at]];
    let mut out: Vec<u8> = Vec::new();
    if at > 0 {
        assert(as_ints(kids@)[at - 1] == kids@[at - 1]);
        let name = nodes[kids[at - 1]];
        if children_of(nodes, kids[at - 1]).len() > 0 || !in_text(&name, content.len()) {
            return None;
        }
        push_all(&mut out, DEFAULT_BINDING.as_bytes());
        push_range(&mut out, content, name.start, name.end);
        if chosen.kind == NodeKind::Literal {
            assert(out@ =~= encode_utf8(DEFAULT_BINDING@) + content@.subrange(
                name.start as int,
                name.end as int,
            ));
            return Some(out);
        }
        if !in_text(&chosen, content.len()) {
            return None;
        }
        push_all(&mut out, BINDING_SEPARATOR.as_bytes());
        push_without(&mut out, content, chosen.start, chosen.end, BRACES.as_bytes());
        assert(out@ =~= encode_utf8(DEFAULT_BINDING@) + content@.subrange(
            name.start as int,
            name.end as int,
        ) + encode_utf8(BINDING_SEPARATOR@) + without(
            content@.subrange(chosen.start as int, chosen.end as int),
            encode_utf8(BRACES@),
        ));
        Some(out)
    } else {
        if chosen.kind == NodeKind::Literal || !in_text(&chosen, content.len()) {
            return None;
        }
        push_without(&mut out, content, chosen.start, chosen.end, BRACES.as_bytes());
        assert(out@ =~= without(
            content@.subrange(chosen.start as int, chosen.end as int),
            encode_utf8(BRACES@),
        ));
        Some(out)
    }
}

/// Writes the statement that replaces the import declaration at `stmt`, the
/// import declaration number `number` of its module.
pub(crate) fn rewrite_import(
    content: &[u8],
    nodes: &Vec<SyntaxItem>,
    stmt: usize,
    targets: &Vec<String>,
    number: usize,
) -> (text: Result<Vec<u8>, ErrorKind>)
    requires
        stmt < nodes@.len(),
    ensures
        match text {
            Ok(t) => import_rewrite(
                content@,
                nodes@,
                stmt as int,
                target_at(texts(targets@), number as int),
            ) == Ok::<_, ErrorKind>(t@),
            Err(kind) => import_rewrite(
                content@,
                nodes@,
                stmt as int,
                target_at(texts(targets@), number as int),
            ) == Err::<Seq<u8>, _>(kind),
        },
{
    if specifier_at(content, nodes, stmt).is_none() {
        return Err(ErrorKind::MalformedImport);
    }
    match binding_at(content, nodes, stmt) {
        None => Err(ErrorKind::UnresolvableBindingError),
        Some(binding) => {
            if number < targets.len() {
                let mut out: Vec<u8> = Vec::new();
                push_import_statement(&mut out, &binding, targets[number].as_str());
                assert(out@ =~= import_statement(binding@, targets@[number as int]@));
                Ok(out)
            } else {
                Err(ErrorKind::PathResolutionError)
            }
        },
    }
}

/// Writes one assignment for each name of the export list `names`, if all of
/// them are names.
pub(crate) fn rewrite_list(content: &[u8], nodes: &Vec<SyntaxItem>, names: &Vec<usize>) -> (text: Option<
    Vec<u8>,
>)
    requires
        forall|k: int| 0 <= k < names@.len() ==> #[trigger] names@[k] < nodes@.len(),
    ensures
        match text {
            Some(t) => t@ == list_text(content@, nodes@, as_ints(names@)) && forall|k: int|
                0 <= k < names@.len() ==> is_listed_name(
                    content@,
                    nodes@,
                    #[trigger] as_ints(names@)[k],
                ),
            None => exists|k: int|
                0 <= k < names@.len() && !is_listed_name(
                    content@,
                    nodes@,
                    #[trigger] as_ints(names@)[k],
                ),
        },
{
    let mut out: Vec<u8> = Vec::new();
    let mut k: usize = 0;
    assert(as_ints(names@).subrange(0, 0) =~= Seq::<int>::empty());
    while k < names.len()
        invariant
            k <= names@.len(),
            forall|j: int| 0 <= j < names@.len() ==> #[trigger] names@[j] < nodes@.len(),
            out@ == list_text(content@, nodes@, as_ints(names@).subrange(0, k as int)),
            forall|j: int|
                0 <= j < k ==> is_listed_name(content@, nodes@, #[trigger] as_ints(names@)[j]),
        decreases names@.len() - k,
    {
        let name = nodes[names[k]];
        assert(as_ints(names@)[k as int] == names@[k as int]);
        if name.kind != NodeKind::Specifier || !in_text(&name, content.len()) {
            return None;
        }
        proof {
            let upto = as_ints(names@).subrange(0, k + 1);
            assert(upto.drop_last() =~= as_ints(names@).subrange(0, k as int));
            assert(upto.last() == names@[k as int]);
        }
        push_export_statement(&mut out, content, &name, &name);
        k += 1;
    }
    assert(as_ints(names@).subrange(0, k as int) =~= as_ints(names@));
    Some(out)
}

/// Writes one assignment for each of the declarators `decls`, if each of them
/// declares a name with a value.
pub(crate) fn rewrite_declared(content: &[u8], nodes: &Vec<SyntaxItem>, decls: &Vec<usize>) -> (text:
    Option<Vec<u8>>)
    requires
        forall|k: int| 0 <= k < decls@.len() ==> #[trigger] decls@[k] < nodes@.len(),
    ensures
        match text {
            Some(t) => t@ == declared_text(content@, nodes@, as_ints(decls@)) && forall|k: int|
                0 <= k < decls@.len() ==> is_declarator(
                    content@,
                    nodes@,
                    #[trigger] as_ints(decls@)[k],
                ),
            None => exists|k: int|
                0 <= k < decls@.len() && !is_declarator(
                    content@,
                    nodes@,
                    #[trigger] as_ints(decls@)[k],
                ),
        },
{
    let mut out: Vec<u8> = Vec::new();
    let mut k: usize = 0;
    assert(as_ints(decls@).subrange(0, 0) =~= Seq::<int>::empty());
    while k < decls.len()
        invariant
            k <= decls@.len(),
            forall|j: int| 0 <= j < decls@.len() ==> #[trigger] decls@[j] < nodes@.len(),
            out@ == declared_text(content@, nodes@, as_ints(decls@).subrange(0, k as int)),
            forall|j: int|
                0 <= j < k ==> is_declarator(content@, nodes@, #[trigger] as_ints(decls@)[j]),
        decreases decls@.len() - k,
    {
        assert(as_ints(decls@)[k as int] == decls@[k as int]);
        let parts = children_of(nodes, decls[k]);
        if parts.len() < 2 {
            return None;
        }
        assert(as_ints(parts@)[0] == parts@[0]);
        assert(as_ints(parts@)[1] == parts@[1]);
        let name = nodes[parts[0]];
        let value = nodes[parts[1]];
        if !in_text(&name, content.len()) || !in_text(&value, content.len()) {
            return None;
        }
        proof {
            let upto = as_ints(decls@).subrange(0, k + 1);
            assert(upto.drop_last() =~= as_ints(decls@).subrange(0, k as int));
            assert(upto.last() == decls@[k as int]);
        }
        push_export_statement(&mut out, content, &name, &value);
        k += 1;
    }
    assert(as_ints(decls@).subrange(0, k as int) =~= as_ints(decls@));
    Some(out)
}

/// Writes the statements that replace the export declaration at `stmt`, if
/// it is one that is rewritten.
pub(crate) fn rewrite_export(content: &[u8], nodes: &Vec<SyntaxItem>, stmt: usize) -> (text: Option<
    Vec<u8>,
>)
    requires
        stmt < nodes@.len(),
    ensures
        bytes_of(text) == export_rewrite(content@, nodes@, stmt as int),
{
    let kids = children_of(nodes, stmt);
    let at = find_first(nodes, &kids, NodeKind::ExportNamed, NodeKind::VarDecl);
    if at >= kids.len() {
        return None;
    }
    assert(as_ints(kids@)[at as int] == kids@[at as int]);
    let items = children_of(nodes, kids[at]);
    if nodes[kids[at]].kind == NodeKind::ExportNamed {
        rewrite_list(content, nodes, &items)
    } else {
        rewrite_declared(content, nodes, &items)
    }
}

/// Writes the statement that replaces the default export at `stmt`, if it
/// exports an expression.
pub(crate) fn rewrite_default(content: &[u8], nodes: &Vec<SyntaxItem>, stmt: usize) -> (text: Option<
    Vec<u8>,
>)
    requires
        stmt < nodes@.len(),
    ensures
        bytes_of(text) == default_rewrite(content@, nodes@, stmt as int),
{
    let kids = children_of(nodes, stmt);
    if kids.len() == 0 {
        return None;
    }
    assert(as_ints(kids@)[0] == kids@[0]);
    let value = nodes[kids[0]];
    if !in_text(&value, content.len()) {
        return None;
    }
    let mut out: Vec<u8> = Vec::new();
    push_all(&mut out, EXPORT_DEFAULT_HEAD.as_bytes());
    push_range(&mut out, content, value.start, value.end);
    push_all(&mut out, EXPORT_TAIL.as_bytes());
    assert(out@ =~= default_statement(content@.subrange(value.start as int, value.end as int)));
    Some(out)
}

/// Once the statements up to some point have failed, all of them fail alike.
proof fn lemma_progress_failure_stays(
    content: Seq<u8>,
    nodes: Seq<SyntaxItem>,
    targets: Seq<Seq<char>>,
    stmts: Seq<int>,
    upto: int,
)
    requires
        0 <= upto <= stmts.len(),
        progress(content, nodes, targets, stmts.subrange(0, upto)) is Err,
    ensures
        progress(content, nodes, targets, stmts) == progress(
            content,
            nodes,
            targets,
            stmts.subrange(0, upto),
        ),
    decreases stmts.len() - upto,
{
    if upto == stmts.len() {
        assert(stmts.subrange(0, upto) =~= stmts);
    } else {
        assert(stmts.subrange(0, upto + 1).drop_last() =~= stmts.subrange(0, upto));
        lemma_progress_failure_stays(content, nodes, targets, stmts, upto + 1);
    }
}

/// Rewrites the interface of a module, given its text, its syntax tree, and
/// the canonical path of the module that each of its import declarations
/// loads, in source order.
pub fn transform(content: &str, nodes: &Vec<SyntaxItem>, targets: &Vec<String>) -> (text: Result<
    Vec<u8>,
    BundleError,
>)
    ensures
        match text {
            Ok(t) => transformed(encode_utf8(content@), nodes@, texts(targets@)) == Ok::<
                _,
                ErrorView,
            >(t@),
            Err(e) => transformed(encode_utf8(content@), nodes@, texts(targets@)) == Err::<
                Seq<u8>,
                _,
            >(e@),
        },
{
    let bytes = content.as_bytes();
    let stmts = children_of(nodes, 0);
    let mut out: Vec<u8> = Vec::new();
    let mut cursor: usize = 0;
    let mut imports: usize = 0;
    let mut k: usize = 0;
    assert(as_ints(stmts@).subrange(0, 0) =~= Seq::<int>::empty());
    while k < stmts.len()
        invariant
            k <= stmts@.len(),
            imports <= k,
            cursor <= bytes@.len(),
            bytes@ == encode_utf8(content@),
            as_ints(stmts@) == statements(nodes@),
            forall|j: int| 0 <= j < stmts@.len() ==> #[trigger] stmts@[j] < nodes@.len(),
            progress(bytes@, nodes@, texts(targets@), as_ints(stmts@).subrange(0, k as int)) == Ok::<
                _,
                ErrorView,
            >(Progress { out: out@, cursor: cursor as int, imports: imports as int }),
        decreases stmts@.len() - k,
    {
        let stmt = stmts[k];
        let item = nodes[stmt];
        let ghost before = Progress { out: out@, cursor: cursor as int, imports: imports as int };
        proof {
            let upto = as_ints(stmts@).subrange(0, k + 1);
            assert(upto.drop_last() =~= as_ints(stmts@).subrange(0, k as int));
            assert(upto.last() == stmt as int);
        }
        let can = cursor <= item.start && in_text(&item, bytes.len());
        let mut text: Option<Vec<u8>> = None;
        match item.kind {
            NodeKind::ImportDecl => {
                if !can {
                    let e = fail_at(ErrorKind::MalformedImport, bytes, nodes, stmt);
                    proof {
                        lemma_progress_failure_stays(
                            bytes@,
                            nodes@,
                            texts(targets@),
                            as_ints(stmts@),
                            k + 1,
                        );
                    }
                    return Err(e);
                }
                match rewrite_import(bytes, nodes, stmt, targets, imports) {
                    Err(kind) => {
                        let e = fail_at(kind, bytes, nodes, stmt);
                        proof {
                            lemma_progress_failure_stays(
                                bytes@,
                                nodes@,
                                texts(targets@),
                                as_ints(stmts@),
                                k + 1,
                            );
                        }
                        return Err(e);
                    },
                    Ok(t) => {
                        text = Some(t);
                        imports += 1;
                    },
                }
            },
            NodeKind::ExportDecl => {
                if can {
                    text = rewrite_export(bytes, nodes, stmt);
                }
            },
            NodeKind::ExportDefaultExpr => {
                if can {
                    text = rewrite_default(bytes, nodes, stmt);
                }
            },
            _ => {},
        }
        match text {
            Some(t) => {
                let at = skip_blank_bytes(bytes, item.start, item.end);
                push_range(&mut out, bytes, cursor, at);
                push_all(&mut out, t.as_slice());
                cursor = item.end;
            },
            None => {},
        }
        k += 1;
    }
    assert(as_ints(stmts@).subrange(0, k as int) =~= as_ints(stmts@));
    push_range(&mut out, bytes, cursor, bytes.len());
    Ok(out)
}

/// The text of the module `module` after its interface has been rewritten:
/// each import declaration loads the canonical path of its own specifier,
/// resolved against the directory of the module. A failure is told of the
/// module. The dependencies that the module records are not read.
pub open spec fn module_text(module: ModuleView, cwd: Seq<char>) -> Result<Seq<u8>, ErrorView> {
    match dependencies_of(module.file_path, module.module_content, module.syntax, cwd) {
        Err(e) => Err(e),
        Ok(targets) => match transformed(
            encode_utf8(module.module_content),
            module.syntax,
            targets,
        ) {
            Ok(text) => Ok(text),
            Err(e) => Err(e.located(module.file_path)),
        },
    }
}

/// Rewrites the import and export statements of a module into calls of the
/// loader and assignments to the exported-values container. The path of
/// the module to load is resolved from the specifier of each import and the
/// path of the module; `cwd` is where relative paths start. The module keeps
/// its text; the rewritten text is returned.
pub fn transform_module_interface(module: &Module, cwd: &String) -> (text: Result<
    Vec<u8>,
    BundleError,
>)
    ensures
        match text {
            Ok(t) => module_text(module@, cwd@) == Ok::<_, ErrorView>(t@),
            Err(e) => module_text(module@, cwd@) == Err::<Seq<u8>, _>(e@),
        },
{
    let targets = resolve_imports(
        &module.file_path,
        module.module_content.as_str(),
        &module.syntax,
        cwd,
    )?;
    match transform(module.module_content.as_str(), &module.syntax, &targets) {
        Ok(text) => Ok(text),
        Err(e) => Err(e.located(module.file_path.as_str())),
    }
}

/// Whether a statement of kind `kind` belongs to the interface of a module:
/// an import declaration, an export declaration or a default export.
pub open spec fn is_interface(kind: NodeKind) -> bool {
    kind == NodeKind::ImportDecl || kind == NodeKind::ExportDecl || kind
        == NodeKind::ExportDefaultExpr
}

/// Statements that do not belong to the interface leave the progress as it
/// was at the start.
proof fn lemma_plain_statements(
    content: Seq<u8>,
    nodes: Seq<SyntaxItem>,
    targets: Seq<Seq<char>>,
    stmts: Seq<int>,
)
    requires
        forall|k: int| 0 <= k < stmts.len() ==> !is_interface(nodes[#[trigger] stmts[k]].kind),
    ensures
        progress(content, nodes, targets, stmts) == Ok::<_, ErrorView>(
            Progress { out: Seq::empty(), cursor: 0, imports: 0 },
        ),
    decreases stmts.len(),
{
    if stmts.len() > 0 {
        assert(!is_interface(nodes[stmts[stmts.len() - 1]].kind));
        lemma_plain_statements(content, nodes, targets, stmts.drop_last());
    }
}

/// Rewriting changes nothing in a module that has no import or export
/// statement at its top level, as is the text that a rewriting has left: the
/// text comes back byte for byte, whatever the targets.
pub proof fn lemma_rewriting_is_idempotent(
    content: Seq<u8>,
    nodes: Seq<SyntaxItem>,
    targets: Seq<Seq<char>>,
)
    requires
        forall|k: int|
            0 <= k < statements(nodes).len() ==> !is_interface(
                nodes[#[trigger] statements(nodes)[k]].kind,
            ),
    ensures
        transformed(content, nodes, targets) == Ok::<_, ErrorView>(content),
{
    lemma_plain_statements(content, nodes, targets, statements(nodes));
    assert(Seq::<u8>::empty() + content.subrange(0, content.len() as int) =~= content);
}

/// A rewriting that has come past some statements has met each import
/// declaration among them.
pub proof fn lemma_progress_counts_imports(
    content: Seq<u8>,
    nodes: Seq<SyntaxItem>,
    targets: Seq<Seq<char>>,
    stmts: Seq<int>,
)
    requires
        progress(content, nodes, targets, stmts) is Ok,
    ensures
        progress(content, nodes, targets, stmts)->Ok_0.imports == import_count(nodes, stmts),
    decreases stmts.len(),
{
    if stmts.len() > 0 {
        lemma_progress_counts_imports(content, nodes, targets, stmts.drop_last());
    }
}

/// A rewriting fails with `MalformedImport`, `UnresolvableBindingError` or
/// `PathResolutionError` only.
pub proof fn lemma_rewriting_failure(
    content: Seq<u8>,
    nodes: Seq<SyntaxItem>,
    targets: Seq<Seq<char>>,
    stmts: Seq<int>,
)
    requires
        progress(content, nodes, targets, stmts) is Err,
    ensures
        ({
            let kind = progress(content, nodes, targets, stmts)->Err_0.kind;
            kind == ErrorKind::MalformedImport || kind == ErrorKind::UnresolvableBindingError
                || kind == ErrorKind::PathResolutionError
        }),
    decreases stmts.len(),
{
    if stmts.len() > 0 && progress(content, nodes, targets, stmts.drop_last()) is Err {
        lemma_rewriting_failure(content, nodes, targets, stmts.drop_last());
    }
}

} // verus!
