//! The definition query: replay the document up to the cursor's line, read
//! the token under the cursor, and resolve it.

use crate::context::{initial, lookup, replay, Context};
use crate::model::{Location, ResolveError};
use crate::nesting::{balanced, lemma_balanced_restores, lemma_replay_joined};
use crate::scanner::{scanned, Scanner, TagView};
use crate::scope::ScopeView;
use crate::text::{chars_of, strings_view, token_span, token_span_at};
use vstd::prelude::*;
use vstd::string::StrSliceExecFns;

verus! {

/// The stack after the lines `from .. upto` of a document have been
/// scanned and their tags applied, line by line and, on each line, from
/// left to right. The first malformed tag ends the replay with its error.
pub open spec fn replay_lines(
    scopes: Seq<ScopeView>,
    lines: Seq<Seq<char>>,
    from: int,
    upto: int,
) -> Result<Seq<ScopeView>, ResolveError>
    decreases upto - from,
{
    if from >= upto {
        Ok(scopes)
    } else {
        match replay(scopes, scanned(lines[from], from as usize)) {
            Ok(next) => replay_lines(next, lines, from + 1, upto),
            Err(e) => Err(e),
        }
    }
}

/// The token under a cursor at `column` of `line`, if whitespace bounds it
/// on both sides.
pub open spec fn token_under(line: Seq<char>, column: int) -> Option<Seq<char>> {
    match token_span(line, column) {
        Some((start, end)) => Some(line.subrange(start, end)),
        None => None,
    }
}

/// Where the token under the cursor was declared, as seen from `scopes`.
/// `None` when no token can be read or no visible scope binds it.
pub open spec fn resolve_in_scopes(scopes: Seq<ScopeView>, line: Seq<char>, column: int) -> Option<
    Location,
> {
    match token_under(line, column) {
        Some(name) => match lookup(scopes, name) {
            Some(var) => Some(var.location),
            None => None,
        },
        None => None,
    }
}

/// The answer to a definition query at (`line`, `column`): the lines
/// before the cursor's line are replayed from a fresh stack, and the token
/// under the cursor is resolved against the result. The cursor's own line
/// is not replayed. A cursor below the last line still has the whole
/// document replayed, and finds nothing.
pub open spec fn resolution(lines: Seq<Seq<char>>, line: int, column: int) -> Result<
    Option<Location>,
    ResolveError,
> {
    let upto = if line < lines.len() {
        line
    } else {
        lines.len() as int
    };
    match replay_lines(initial(), lines, 0, upto) {
        Err(e) => Err(e),
        Ok(scopes) => Ok(
            if line < lines.len() {
                resolve_in_scopes(scopes, lines[line], column)
            } else {
                None
            },
        ),
    }
}

/// Reads the token under a cursor at `column` of `line`.
pub fn token_at(line: &str, column: usize) -> (token: Option<String>)
    ensures
        match token {
            Some(t) => token_under(line@, column as int) == Some(t@),
            None => token_under(line@, column as int) is None,
        },
{
    let chars: Vec<char> = chars_of(line);
    match token_span_at(&chars, column) {
        Some((start, end)) => Some(line.substring_char(start, end).to_owned()),
        None => None,
    }
}

/// Resolves the token under the cursor against a stack that is already
/// built.
pub fn resolve_in(ctx: &Context, line: &str, column: usize) -> (found: Option<Location>)
    requires
        ctx.wf(),
    ensures
        found == resolve_in_scopes(ctx@, line@, column as int),
{
    match token_at(line, column) {
        Some(name) => match ctx.get_var(name.as_str()) {
            Some(var) => Some(var.location),
            None => None,
        },
        None => None,
    }
}

/// Scans the first `upto` lines of a document (all of them, if it has
/// fewer) into a fresh stack.
pub fn scan_prefix(scanner: &Scanner, lines: &Vec<String>, upto: usize) -> (scanned: Result<
    Context,
    ResolveError,
>)
    requires
        scanner.wf(),
    ensures
        match replay_lines(
            initial(),
            strings_view(lines@),
            0,
            if upto < lines@.len() {
                upto as int
            } else {
                lines@.len() as int
            },
        ) {
            Ok(scopes) => scanned matches Ok(ctx) && ctx.wf() && ctx@ == scopes,
            Err(e) => scanned matches Err(err) && err == e,
        },
{
    let n: usize = if upto < lines.len() {
        upto
    } else {
        lines.len()
    };
    let ghost all = strings_view(lines@);
    let mut ctx = Context::new();
    let mut i: usize = 0;
    while i < n
        invariant
            scanner.wf(),
            i <= n <= lines@.len(),
            n == upto || (n == lines@.len() && upto >= n),
            all == strings_view(lines@),
            ctx.wf(),
            replay_lines(initial(), all, 0, n as int) == replay_lines(ctx@, all, i as int, n as int),
        decreases n - i,
    {
        assert(all[i as int] == lines@[i as int]@);
        let tags = scanner.scan_line(lines[i].as_str(), i);
        match ctx.replay(&tags) {
            Ok(_) => {},
            Err(e) => {
                return Err(e);
            },
        }
        i += 1;
    }
    Ok(ctx)
}

/// Answers a definition query: where was the variable under the cursor at
/// (`line`, `column`) declared? `Ok(None)` when nothing visible declares
/// it, or when no token can be read at the cursor.
pub fn resolve_definition(
    scanner: &Scanner,
    lines: &Vec<String>,
    line: usize,
    column: usize,
) -> (answer: Result<Option<Location>, ResolveError>)
    requires
        scanner.wf(),
    ensures
        answer == resolution(strings_view(lines@), line as int, column as int),
{
    match scan_prefix(scanner, lines, line) {
        Err(e) => Err(e),
        Ok(ctx) => {
            if line < lines.len() {
                assert(strings_view(lines@)[line as int] == lines@[line as int]@);
                Ok(resolve_in(&ctx, lines[line].as_str(), column))
            } else {
                Ok(None)
            }
        },
    }
}

/// What a scan of a document's first lines gives depends on those lines
/// alone: two documents that agree on their first `upto` lines give the
/// same stack, or fail alike. Scanning one prefix twice is the case of a
/// document and itself.
pub proof fn lemma_same_prefix_same_stack(
    scopes: Seq<ScopeView>,
    first: Seq<Seq<char>>,
    second: Seq<Seq<char>>,
    from: int,
    upto: int,
)
    requires
        0 <= from,
        upto <= first.len(),
        upto <= second.len(),
        forall|i: int| from <= i < upto ==> first[i] == second[i],
    ensures
        replay_lines(scopes, first, from, upto) == replay_lines(scopes, second, from, upto),
    decreases upto - from,
{
    if from < upto {
        match replay(scopes, scanned(first[from], from as usize)) {
            Ok(next) => {
                lemma_same_prefix_same_stack(next, first, second, from + 1, upto);
            },
            Err(_) => {},
        }
    }
}

/// The tags of the lines `from .. upto` in document order.
pub open spec fn document_tags(lines: Seq<Seq<char>>, from: int, upto: int) -> Seq<TagView>
    decreases upto - from,
{
    if from >= upto {
        Seq::empty()
    } else {
        scanned(lines[from], from as usize) + document_tags(lines, from + 1, upto)
    }
}

/// Replaying a document line by line is replaying its tags in document
/// order.
pub proof fn lemma_replay_lines_is_replay(
    scopes: Seq<ScopeView>,
    lines: Seq<Seq<char>>,
    from: int,
    upto: int,
)
    ensures
        replay_lines(scopes, lines, from, upto) == replay(scopes, document_tags(lines, from, upto)),
    decreases upto - from,
{
    if from < upto {
        let here = scanned(lines[from], from as usize);
        let below = document_tags(lines, from + 1, upto);
        lemma_replay_joined(scopes, here, below);
        match replay(scopes, here) {
            Ok(next) => {
                lemma_replay_lines_is_replay(next, lines, from + 1, upto);
            },
            Err(_) => {},
        }
    }
}

/// Scanning a whole document whose blocks are balanced leaves the stack at
/// depth one, with the global scope as it was at the start.
pub proof fn lemma_balanced_document(lines: Seq<Seq<char>>)
    requires
        balanced(document_tags(lines, 0, lines.len() as int)),
    ensures
        replay_lines(initial(), lines, 0, lines.len() as int) == Ok::<
            Seq<ScopeView>,
            ResolveError,
        >(initial()),
        initial().len() == 1,
{
    lemma_replay_lines_is_replay(initial(), lines, 0, lines.len() as int);
    lemma_balanced_restores(initial(), document_tags(lines, 0, lines.len() as int));
}

} // verus!
