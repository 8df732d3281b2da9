//! The import extractor: which modules a module text asks for.

use crate::error::{BundleError, ErrorKind, ErrorView};
use crate::syntax::{
    as_ints, children, children_of, find_first, first_of, in_text, node_text, statements,
    NodeKind, SyntaxItem,
};
use crate::text::{decode, decoded, push_range, push_without, text_of, texts, without};
use vstd::prelude::*;
use vstd::utf8::*;

verus! {

/// The bytes that are taken out of a source literal: quotes, spaces, tabs.
pub const SPECIFIER_PADDING: &'static str = "'\" \t";

/// The text of the statement at `stmt`, for a report; empty if it has none.
pub open spec fn statement_text(content: Seq<u8>, nodes: Seq<SyntaxItem>, stmt: int) -> Seq<u8> {
    match node_text(content, nodes, stmt) {
        Some(text) => text,
        None => Seq::empty(),
    }
}

/// A failure of kind `kind` at the statement `stmt`, of a module not yet named.
pub open spec fn failure_at(
    kind: ErrorKind,
    content: Seq<u8>,
    nodes: Seq<SyntaxItem>,
    stmt: int,
) -> ErrorView {
    ErrorView { kind, path: Seq::empty(), statement: statement_text(content, nodes, stmt) }
}

/// The specifier of the import declaration at `stmt`: the text of its first
/// literal child, without quotes, spaces and tabs. There is none where the
/// declaration has no literal child, or the literal has no text in `content`.
pub open spec fn import_specifier(content: Seq<u8>, nodes: Seq<SyntaxItem>, stmt: int) -> Option<
    Seq<char>,
> {
    let kids = children(nodes, stmt);
    let at = first_of(nodes, kids, NodeKind::Literal, NodeKind::Literal, 0);
    if at < kids.len() {
        match node_text(content, nodes, kids[at]) {
            Some(text) => decoded(without(text, encode_utf8(SPECIFIER_PADDING@))),
            None => None,
        }
    } else {
        None
    }
}

/// The specifiers of the import declarations among the statements `stmts`, in
/// order and with repetitions, or the failure of the first import declaration
/// that has no specifier.
pub open spec fn imports_among(content: Seq<u8>, nodes: Seq<SyntaxItem>, stmts: Seq<int>) -> Result<
    Seq<Seq<char>>,
    ErrorView,
>
    decreases stmts.len(),
{
    if stmts.len() == 0 {
        Ok(Seq::empty())
    } else {
        match imports_among(content, nodes, stmts.drop_last()) {
            Err(e) => Err(e),
            Ok(found) => {
                let stmt = stmts.last();
                if nodes[stmt].kind != NodeKind::ImportDecl {
                    Ok(found)
                } else {
                    match import_specifier(content, nodes, stmt) {
                        Some(specifier) => Ok(found.push(specifier)),
                        None => Err(failure_at(ErrorKind::MalformedImport, content, nodes, stmt)),
                    }
                }
            },
        }
    }
}

/// The import specifiers of a module with text `content` and syntax `nodes`.
pub open spec fn imports_of(content: Seq<u8>, nodes: Seq<SyntaxItem>) -> Result<
    Seq<Seq<char>>,
    ErrorView,
> {
    imports_among(content, nodes, statements(nodes))
}

/// Builds the failure of kind `kind` at the statement `stmt`.
pub(crate) fn fail_at(kind: ErrorKind, content: &[u8], nodes: &Vec<SyntaxItem>, stmt: usize) -> (e:
    BundleError)
    requires
        stmt < nodes@.len(),
    ensures
        e@ == failure_at(kind, content@, nodes@, stmt as int),
{
    let mut statement: Vec<u8> = Vec::new();
    let item = nodes[stmt];
    if in_text(&item, content.len()) {
        push_range(&mut statement, content, item.start, item.end);
        assert(statement@ =~= content@.subrange(item.start as int, item.end as int));
    }
    BundleError { kind, path: String::new(), statement }
}

/// Reads the specifier of the import declaration at `stmt`.
pub(crate) fn specifier_at(content: &[u8], nodes: &Vec<SyntaxItem>, stmt: usize) -> (specifier: Option<
    String,
>)
    requires
        stmt < nodes@.len(),
    ensures
        text_of(specifier) == import_specifier(content@, nodes@, stmt as int),
{
    let kids = children_of(nodes, stmt);
    let at = find_first(nodes, &kids, NodeKind::Literal, NodeKind::Literal);
    if at >= kids.len() {
        return None;
    }
    assert(as_ints(kids@)[at as int] == kids@[at as int]);
    let literal = nodes[kids[at]];
    if !in_text(&literal, content.len()) {
        return None;
    }
    let mut bytes: Vec<u8> = Vec::new();
    push_without(&mut bytes, content, literal.start, literal.end, SPECIFIER_PADDING.as_bytes());
    assert(bytes@ =~= without(
        content@.subrange(literal.start as int, literal.end as int),
        encode_utf8(SPECIFIER_PADDING@),
    ));
    decode(bytes)
}

/// Lists the import specifiers of a module, given its text and its syntax
/// tree: one for each import declaration at the top level, in source order,
/// as the literal of the import gives it, relative to the importing file. An
/// import declaration without a literal to take the specifier from fails the
/// extraction with `MalformedImport`.
pub fn parse_module_imports(content: &str, nodes: &Vec<SyntaxItem>) -> (found: Result<
    Vec<String>,
    BundleError,
>)
    ensures
        match found {
            Ok(list) => imports_of(encode_utf8(content@), nodes@) == Ok::<_, ErrorView>(
                texts(list@),
            ),
            Err(e) => imports_of(encode_utf8(content@), nodes@) == Err::<Seq<Seq<char>>, _>(e@),
        },
{
    let bytes = content.as_bytes();
    let stmts = children_of(nodes, 0);
    let mut list: Vec<String> = Vec::new();
    let mut k: usize = 0;
    assert(as_ints(stmts@).subrange(0, 0) =~= Seq::<int>::empty());
    assert(texts(list@) =~= Seq::<Seq<char>>::empty());
    while k < stmts.len()
        invariant
            k <= stmts@.len(),
            bytes@ == encode_utf8(content@),
            as_ints(stmts@) == statements(nodes@),
            forall|j: int| 0 <= j < stmts@.len() ==> #[trigger] stmts@[j] < nodes@.len(),
            imports_among(bytes@, nodes@, as_ints(stmts@).subrange(0, k as int)) == Ok::<
                _,
                ErrorView,
            >(texts(list@)),
        decreases stmts@.len() - k,
    {
        let stmt = stmts[k];
        proof {
            let upto = as_ints(stmts@).subrange(0, k + 1);
            assert(upto.drop_last() =~= as_ints(stmts@).subrange(0, k as int));
            assert(upto.last() == stmt as int);
        }
        if nodes[stmt].kind == NodeKind::ImportDecl {
            match specifier_at(bytes, nodes, stmt) {
                Some(specifier) => {
                    let ghost before = list@;
                    list.push(specifier);
                    assert(texts(list@) =~= texts(before).push(specifier@));
                },
                None => {
                    let e = fail_at(ErrorKind::MalformedImport, bytes, nodes, stmt);
                    proof {
                        lemma_failure_stays(
                            bytes@,
                            nodes@,
                            as_ints(stmts@),
                            k + 1,
                        );
                    }
                    return Err(e);
                },
            }
        }
        k += 1;
    }
    assert(as_ints(stmts@).subrange(0, k as int) =~= as_ints(stmts@));
    Ok(list)
}

/// Once the statements up to some point have failed, all of them fail alike.
proof fn lemma_failure_stays(
    content: Seq<u8>,
    nodes: Seq<SyntaxItem>,
    stmts: Seq<int>,
    upto: int,
)
    requires
        0 <= upto <= stmts.len(),
        imports_among(content, nodes, stmts.subrange(0, upto)) is Err,
    ensures
        imports_among(content, nodes, stmts) == imports_among(
            content,
            nodes,
            stmts.subrange(0, upto),
        ),
    decreases stmts.len() - upto,
{
    if upto == stmts.len() {
        assert(stmts.subrange(0, upto) =~= stmts);
    } else {
        assert(stmts.subrange(0, upto + 1).drop_last() =~= stmts.subrange(0, upto));
        lemma_failure_stays(content, nodes, stmts, upto + 1);
    }
}

/// An extraction fails with `MalformedImport` only.
pub proof fn lemma_extraction_failure(content: Seq<u8>, nodes: Seq<SyntaxItem>, stmts: Seq<int>)
    requires
        imports_among(content, nodes, stmts) is Err,
    ensures
        imports_among(content, nodes, stmts)->Err_0.kind == ErrorKind::MalformedImport,
    decreases stmts.len(),
{
    if stmts.len() > 0 && imports_among(content, nodes, stmts.drop_last()) is Err {
        lemma_extraction_failure(content, nodes, stmts.drop_last());
    }
}

} // verus!
