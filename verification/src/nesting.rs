//! How blocks nest, and what that means for the scope stack: which runs of
//! tags are malformed, what a balanced block leaves behind, and where a
//! declared name can be seen.

use crate::context::{
    holder, initial, lemma_holder, lemma_holder_is, lookup, opened, replay, step, well_formed,
};
use crate::model::{ResolveError, Statement};
use crate::scanner::{TagKind, TagView};
use crate::scope::{empty_scope, table_of, ScopeView};
use vstd::prelude::*;

verus! {

/// The kind of an open block.
#[derive(Clone, Copy, Debug, PartialEq, Eq, Structural)]
pub enum Block {
    If,
    Else,
    With,
    Range,
}

/// The kind of the block that a statement opened. The global scope is no
/// block; it counts as nothing that an `else` could close.
pub open spec fn block_of(statement: Statement) -> Block {
    match statement {
        Statement::If(_) => Block::If,
        Statement::Else(_) => Block::Else,
        Statement::Range(_) => Block::Range,
        _ => Block::With,
    }
}

/// The kinds of the blocks that a run of scopes belongs to.
pub open spec fn blocks_of(scopes: Seq<ScopeView>) -> Seq<Block> {
    scopes.map_values(|s: ScopeView| block_of(s.statement))
}

/// No scope of the run is the global one.
pub open spec fn all_blocks(scopes: Seq<ScopeView>) -> bool {
    forall|i: int| 0 <= i < scopes.len() ==> !((#[trigger] scopes[i]).statement is Global)
}

/// The open blocks after one tag; `None` where the tag does not fit them:
/// an `end` with nothing open, or an `else` that does not follow an `if`.
pub open spec fn nest_step(open: Seq<Block>, kind: TagKind) -> Option<Seq<Block>> {
    match kind {
        TagKind::Inert => Some(open),
        TagKind::If => Some(open.push(Block::If)),
        TagKind::With => Some(open.push(Block::With)),
        TagKind::Range => Some(open.push(Block::Range)),
        TagKind::End => if open.len() > 0 {
            Some(open.drop_last())
        } else {
            None
        },
        TagKind::Else => if open.len() > 0 && open.last() == Block::If {
            Some(open.drop_last().push(Block::Else))
        } else {
            None
        },
        TagKind::ElseIf => if open.len() > 0 && open.last() == Block::If {
            Some(open.drop_last().push(Block::If))
        } else {
            None
        },
    }
}

/// The open blocks after a run of tags that starts with the blocks `open`
/// open; `None` where some tag does not fit.
pub open spec fn nest(open: Seq<Block>, tags: Seq<TagView>) -> Option<Seq<Block>>
    decreases tags.len(),
{
    if tags.len() == 0 {
        Some(open)
    } else {
        match nest_step(open, tags[0].kind) {
            Some(next) => nest(next, tags.drop_first()),
            None => None,
        }
    }
}

/// A run of tags that closes no block but its own: it can stand inside
/// the body of any block.
pub open spec fn stays_inside(tags: Seq<TagView>) -> bool {
    nest(Seq::empty(), tags) is Some
}

/// A run of tags that closes exactly the blocks it opens.
pub open spec fn balanced(tags: Seq<TagView>) -> bool {
    nest(Seq::empty(), tags) == Some(Seq::<Block>::empty())
}

/// A `range` tag of the run declares `name`.
pub open spec fn declares(tags: Seq<TagView>, name: Seq<char>) -> bool {
    exists|i: int|
        0 <= i < tags.len() && (#[trigger] tags[i]).kind == TagKind::Range && table_of(
            tags[i].bindings,
        ).dom().contains(name)
}

/// No scope of the run binds `name`.
pub open spec fn unbound_in(scopes: Seq<ScopeView>, name: Seq<char>) -> bool {
    forall|i: int| 0 <= i < scopes.len() ==> !(#[trigger] scopes[i]).vars.dom().contains(name)
}

/// One tag that fits the blocks above a base changes only those blocks.
proof fn lemma_step_above(base: Seq<ScopeView>, above: Seq<ScopeView>, tag: TagView) -> (next: Seq<
    ScopeView,
>)
    requires
        base.len() >= 1,
        all_blocks(above),
        nest_step(blocks_of(above), tag.kind) is Some,
    ensures
        step(base + above, tag) == Ok::<Seq<ScopeView>, ResolveError>(base + next),
        all_blocks(next),
        nest_step(blocks_of(above), tag.kind) == Some(blocks_of(next)),
        forall|name: Seq<char>|
            unbound_in(above, name) && !(tag.kind == TagKind::Range && table_of(
                tag.bindings,
            ).dom().contains(name)) ==> #[trigger] unbound_in(next, name),
{
    let next = match tag.kind {
        TagKind::Inert => above,
        TagKind::If | TagKind::With | TagKind::Range => above.push(opened(tag)),
        TagKind::End => above.drop_last(),
        TagKind::Else | TagKind::ElseIf => above.drop_last().push(opened(tag)),
    };
    match tag.kind {
        TagKind::Inert => {},
        TagKind::If | TagKind::With | TagKind::Range => {
            assert((base + above).push(opened(tag)) =~= base + next);
            assert(blocks_of(next) =~= blocks_of(above).push(block_of(opened(tag).statement)));
        },
        TagKind::End => {
            assert(above.len() > 0);
            assert((base + above).drop_last() =~= base + next);
            assert(blocks_of(next) =~= blocks_of(above).drop_last());
        },
        TagKind::Else | TagKind::ElseIf => {
            assert(above.len() > 0);
            assert(blocks_of(above).last() == block_of(above.last().statement));
            assert((base + above).last() == above.last());
            assert((base + above).drop_last().push(opened(tag)) =~= base + next);
            assert(blocks_of(next) =~= blocks_of(above).drop_last().push(
                block_of(opened(tag).statement),
            ));
        },
    }
    assert forall|name: Seq<char>|
        unbound_in(above, name) && !(tag.kind == TagKind::Range && table_of(
            tag.bindings,
        ).dom().contains(name)) implies #[trigger] unbound_in(next, name) by {
        assert forall|i: int| 0 <= i < next.len() implies !(#[trigger] next[i]).vars.dom().contains(
            name,
        ) by {
            if i < above.len() && i < next.len() - 1 {
                assert(next[i] == above[i]);
            } else if tag.kind == TagKind::Inert {
                assert(next[i] == above[i]);
            }
        }
    }
    next
}

/// A run of tags that fits the blocks above a base leaves the base alone.
///
/// Let a stack be `base` with the scopes `above` on top, none of them the
/// global one. If `tags` nests from the blocks of `above`, then its replay
/// succeeds, the result still starts with `base`, and the blocks above it
/// are the ones that the nesting gives.
pub proof fn lemma_replay_above(base: Seq<ScopeView>, above: Seq<ScopeView>, tags: Seq<TagView>)
    requires
        base.len() >= 1,
        all_blocks(above),
        nest(blocks_of(above), tags) is Some,
    ensures
        replay(base + above, tags) is Ok,
        replay(base + above, tags)->Ok_0.len() >= base.len(),
        replay(base + above, tags)->Ok_0.take(base.len() as int) == base,
        all_blocks(replay(base + above, tags)->Ok_0.skip(base.len() as int)),
        blocks_of(replay(base + above, tags)->Ok_0.skip(base.len() as int)) == nest(
            blocks_of(above),
            tags,
        )->0,
        forall|name: Seq<char>|
            unbound_in(above, name) && !declares(tags, name) ==> #[trigger] unbound_in(
                replay(base + above, tags)->Ok_0.skip(base.len() as int),
                name,
            ),
    decreases tags.len(),
{
    if tags.len() == 0 {
        assert((base + above).take(base.len() as int) =~= base);
        assert((base + above).skip(base.len() as int) =~= above);
    } else {
        let next = lemma_step_above(base, above, tags[0]);
        let rest = tags.drop_first();
        lemma_replay_above(base, next, rest);
        let last = replay(base + next, rest)->Ok_0.skip(base.len() as int);
        assert forall|name: Seq<char>| unbound_in(above, name) && !declares(tags, name) implies
            #[trigger] unbound_in(last, name) by {
            if declares(rest, name) {
                let i = choose|i: int|
                    0 <= i < rest.len() && (#[trigger] rest[i]).kind == TagKind::Range && table_of(
                        rest[i].bindings,
                    ).dom().contains(name);
                assert(tags[i + 1] == rest[i]);
            }
            assert(tags[0].kind == TagKind::Range && table_of(tags[0].bindings).dom().contains(
                name,
            ) ==> declares(tags, name));
            assert(unbound_in(next, name));
        }
    }
}

/// Exactly the runs of tags that nest can be replayed; every other run is
/// a malformed template. After a replay, the depth of the stack is the
/// number of open blocks plus one.
pub proof fn lemma_replay_nests(scopes: Seq<ScopeView>, tags: Seq<TagView>)
    requires
        well_formed(scopes),
    ensures
        match replay(scopes, tags) {
            Ok(last) => well_formed(last) && nest(blocks_of(scopes.skip(1)), tags) == Some(
                blocks_of(last.skip(1)),
            ) && last.len() == 1 + nest(blocks_of(scopes.skip(1)), tags)->0.len(),
            Err(e) => nest(blocks_of(scopes.skip(1)), tags) is None && e is MalformedTemplate,
        },
    decreases tags.len(),
{
    let base = scopes.take(1);
    let above = scopes.skip(1);
    assert(scopes =~= base + above);
    assert(all_blocks(above)) by {
        assert forall|i: int| 0 <= i < above.len() implies !((#[trigger] above[i]).statement
            is Global) by {
            assert(above[i] == scopes[i + 1]);
        }
    }
    if tags.len() > 0 {
        if nest_step(blocks_of(above), tags[0].kind) is Some {
            let next = lemma_step_above(base, above, tags[0]);
            let after = base + next;
            assert(after.skip(1) =~= next);
            assert(well_formed(after)) by {
                assert forall|i: int| 1 <= i < after.len() implies !((#[trigger] after[i]).statement
                    is Global) by {
                    assert(after[i] == next[i - 1]);
                }
            }
            lemma_replay_nests(after, tags.drop_first());
        } else {
            match tags[0].kind {
                TagKind::End => {},
                _ => {
                    if above.len() > 0 {
                        assert(blocks_of(above).last() == block_of(above.last().statement));
                        assert(scopes.last() == above.last());
                    }
                },
            }
        }
    }
}

/// Replaying two runs one after the other is replaying them joined.
pub proof fn lemma_replay_joined(scopes: Seq<ScopeView>, first: Seq<TagView>, second: Seq<TagView>)
    ensures
        replay(scopes, first + second) == match replay(scopes, first) {
            Ok(between) => replay(between, second),
            Err(e) => Err(e),
        },
    decreases first.len(),
{
    if first.len() == 0 {
        assert(first + second =~= second);
    } else {
        assert((first + second)[0] == first[0]);
        assert((first + second).drop_first() =~= first.drop_first() + second);
        match step(scopes, first[0]) {
            Ok(next) => {
                lemma_replay_joined(next, first.drop_first(), second);
            },
            Err(_) => {},
        }
    }
}

/// A name resolves in the scopes on top of a base if one of them binds
/// it, and in the base otherwise.
pub proof fn lemma_lookup_above(base: Seq<ScopeView>, above: Seq<ScopeView>, name: Seq<char>)
    ensures
        lookup(base + above, name) == if holder(above, name) >= 0 {
            lookup(above, name)
        } else {
            lookup(base, name)
        },
{
    let whole = base + above;
    lemma_holder(base, name);
    lemma_holder(above, name);
    if holder(above, name) >= 0 {
        let at = base.len() + holder(above, name);
        assert forall|k: int| at < k < whole.len() implies !(#[trigger] whole[k]).vars.dom().contains(
            name,
        ) by {
            assert(whole[k] == above[k - base.len()]);
        }
        assert(whole[at] == above[holder(above, name)]);
        lemma_holder_is(whole, name, at);
    } else {
        let at = holder(base, name);
        assert forall|k: int| at < k < whole.len() implies !(#[trigger] whole[k]).vars.dom().contains(
            name,
        ) by {
            if k >= base.len() {
                assert(whole[k] == above[k - base.len()]);
            } else {
                assert(whole[k] == base[k]);
            }
        }
        if at >= 0 {
            assert(whole[at] == base[at]);
        }
        lemma_holder_is(whole, name, at);
    }
}

/// A balanced run of tags leaves the stack exactly as it found it. A
/// balanced document, replayed from the fresh stack, therefore ends at
/// depth one: the global scope alone.
pub proof fn lemma_balanced_restores(scopes: Seq<ScopeView>, tags: Seq<TagView>)
    requires
        scopes.len() >= 1,
        balanced(tags),
    ensures
        replay(scopes, tags) == Ok::<Seq<ScopeView>, ResolveError>(scopes),
        replay(initial(), tags) is Ok && replay(initial(), tags)->Ok_0.len() == 1,
{
    let none = Seq::<ScopeView>::empty();
    assert(blocks_of(none) =~= Seq::<Block>::empty());
    assert(scopes + none =~= scopes);
    assert(initial() + none =~= initial());
    lemma_replay_above(scopes, none, tags);
    lemma_replay_above(initial(), none, tags);
    let last = replay(scopes, tags)->Ok_0;
    assert(last.skip(scopes.len() as int).len() == blocks_of(last.skip(scopes.len() as int)).len());
    assert(last =~= last.take(scopes.len() as int));
    let end = replay(initial(), tags)->Ok_0;
    assert(end.skip(1).len() == blocks_of(end.skip(1)).len());
}

/// A name that a block's opening tag or an outer scope makes visible stays
/// visible throughout the block's body, nested blocks included.
///
/// `opening` is an `if`, `with` or `range` tag and `body` a run of tags
/// that closes no block but its own. If `name` resolves before the block,
/// or the opening `range` declares it, then it resolves after
/// `opening` and `body`. Unless a `range` of the body declares it again,
/// it resolves to the opening tag's declaration if there is one, and to
/// what it resolved to before the block otherwise.
pub proof fn lemma_visible_inside(
    scopes: Seq<ScopeView>,
    opening: TagView,
    body: Seq<TagView>,
    name: Seq<char>,
)
    requires
        scopes.len() >= 1,
        opening.kind == TagKind::If || opening.kind == TagKind::With || opening.kind
            == TagKind::Range,
        stays_inside(body),
        lookup(scopes, name) is Some || opened(opening).vars.dom().contains(name),
    ensures
        replay(scopes, seq![opening] + body) is Ok,
        lookup(replay(scopes, seq![opening] + body)->Ok_0, name) is Some,
        !declares(body, name) ==> lookup(replay(scopes, seq![opening] + body)->Ok_0, name) == if opened(
            opening,
        ).vars.dom().contains(name) {
            Some(opened(opening).vars[name])
        } else {
            lookup(scopes, name)
        },
{
    let inside = scopes.push(opened(opening));
    let none = Seq::<ScopeView>::empty();
    assert(step(scopes, opening) == Ok::<Seq<ScopeView>, ResolveError>(inside));
    assert(replay(scopes, seq![opening]) == Ok::<Seq<ScopeView>, ResolveError>(inside)) by {
        assert(seq![opening].drop_first() =~= Seq::<TagView>::empty());
        assert(replay(inside, Seq::<TagView>::empty()) == Ok::<Seq<ScopeView>, ResolveError>(
            inside,
        ));
    }
    lemma_replay_joined(scopes, seq![opening], body);
    assert(blocks_of(none) =~= Seq::<Block>::empty());
    assert(inside + none =~= inside);
    lemma_replay_above(inside, none, body);
    let last = replay(inside, body)->Ok_0;
    let deeper = last.skip(inside.len() as int);
    assert(last =~= inside + deeper);
    lemma_lookup_above(inside, deeper, name);
    lemma_lookup_above(scopes, seq![opened(opening)], name);
    assert(inside =~= scopes + seq![opened(opening)]);
    lemma_holder(seq![opened(opening)], name);
    lemma_holder(deeper, name);
    if opened(opening).vars.dom().contains(name) {
        lemma_holder_is(seq![opened(opening)], name, 0);
    }
    if !declares(body, name) {
        assert(unbound_in(none, name));
        assert(unbound_in(deeper, name));
        if holder(deeper, name) >= 0 {
            assert(deeper[holder(deeper, name)].vars.dom().contains(name));
        }
    }
}

/// Once the `end` that matches a block has been scanned, the stack is what
/// it was before the block: what the block declared is gone, and a name
/// resolves to what it resolved to before. A name that only the block
/// declared is not found any more.
pub proof fn lemma_gone_after_end(
    scopes: Seq<ScopeView>,
    opening: TagView,
    body: Seq<TagView>,
    end: TagView,
    name: Seq<char>,
)
    requires
        scopes.len() >= 1,
        opening.kind == TagKind::If || opening.kind == TagKind::With || opening.kind
            == TagKind::Range,
        balanced(body),
        end.kind == TagKind::End,
    ensures
        replay(scopes, (seq![opening] + body).push(end)) == Ok::<Seq<ScopeView>, ResolveError>(
            scopes,
        ),
        lookup(scopes, name) is None ==> lookup(
            replay(scopes, (seq![opening] + body).push(end))->Ok_0,
            name,
        ) is None,
{
    let inside = scopes.push(opened(opening));
    assert(replay(scopes, seq![opening]) == Ok::<Seq<ScopeView>, ResolveError>(inside)) by {
        assert(seq![opening].drop_first() =~= Seq::<TagView>::empty());
        assert(replay(inside, Seq::<TagView>::empty()) == Ok::<Seq<ScopeView>, ResolveError>(
            inside,
        ));
    }
    lemma_replay_joined(scopes, seq![opening], body);
    lemma_balanced_restores(inside, body);
    assert((seq![opening] + body).push(end) =~= (seq![opening] + body) + seq![end]);
    lemma_replay_joined(scopes, seq![opening] + body, seq![end]);
    assert(replay(inside, seq![end]) == Ok::<Seq<ScopeView>, ResolveError>(scopes)) by {
        assert(inside.drop_last() =~= scopes);
        assert(seq![end].drop_first() =~= Seq::<TagView>::empty());
        assert(replay(scopes, Seq::<TagView>::empty()) == Ok::<Seq<ScopeView>, ResolveError>(
            scopes,
        ));
    }
}

/// What `else` does: on an `If` scope it closes exactly that scope and
/// opens an `Else` scope in its place, or a new `If` scope where it reads
/// `else if`; on any other scope it is malformed.
pub proof fn lemma_else(scopes: Seq<ScopeView>, tag: TagView)
    requires
        well_formed(scopes),
        tag.kind == TagKind::Else || tag.kind == TagKind::ElseIf,
    ensures
        scopes.last().statement is If ==> step(scopes, tag) == Ok::<
            Seq<ScopeView>,
            ResolveError,
        >(
            scopes.drop_last().push(
                empty_scope(
                    if tag.kind == TagKind::ElseIf {
                        Statement::If(tag.location)
                    } else {
                        Statement::Else(tag.location)
                    },
                ),
            ),
        ),
        !(scopes.last().statement is If) ==> step(scopes, tag) == Err::<
            Seq<ScopeView>,
            ResolveError,
        >(ResolveError::MalformedTemplate(tag.location)),
{
}

} // verus!
