//! The scope stack: one scope per open block above the global scope, and
//! the effect that each scanned tag has on it.

use crate::model::{ResolveError, Statement, Var};
use crate::scanner::{bindings_view, Binding, Tag, TagKind, TagView, tags_view};
use crate::scope::{empty_scope, table_of, Scope, ScopeView};
use vstd::prelude::*;

verus! {

/// A stack of scopes, innermost last, is well formed when its bottom scope
/// is the global one and no other scope is.
pub open spec fn well_formed(scopes: Seq<ScopeView>) -> bool {
    &&& scopes.len() >= 1
    &&& scopes[0].statement is Global
    &&& forall|i: int| 1 <= i < scopes.len() ==> !((#[trigger] scopes[i]).statement is Global)
}

/// The stack before anything is scanned: the global scope alone.
pub open spec fn initial() -> Seq<ScopeView> {
    seq![empty_scope(Statement::Global)]
}

/// The index of the innermost scope that binds `name`; `-1` if none does.
pub open spec fn holder(scopes: Seq<ScopeView>, name: Seq<char>) -> int
    decreases scopes.len(),
{
    if scopes.len() == 0 {
        -1
    } else if scopes.last().vars.dom().contains(name) {
        scopes.len() - 1
    } else {
        holder(scopes.drop_last(), name)
    }
}

/// The variable that `name` resolves to: the binding of the innermost
/// scope that has one.
pub open spec fn lookup(scopes: Seq<ScopeView>, name: Seq<char>) -> Option<Var> {
    if holder(scopes, name) >= 0 {
        Some(scopes[holder(scopes, name)].vars[name])
    } else {
        None
    }
}

/// A scope with `name` bound to `var`.
pub open spec fn bind(scope: ScopeView, name: Seq<char>, var: Var) -> ScopeView {
    ScopeView { vars: scope.vars.insert(name, var), statement: scope.statement }
}

/// The stack after `name` is declared in its innermost scope.
pub open spec fn declare(scopes: Seq<ScopeView>, name: Seq<char>, var: Var) -> Seq<ScopeView> {
    scopes.update(scopes.len() - 1, bind(scopes.last(), name, var))
}

/// The stack after `name` is assigned: the innermost scope that binds it
/// gets the new variable; where no scope binds it, nothing changes.
pub open spec fn assign(scopes: Seq<ScopeView>, name: Seq<char>, var: Var) -> Seq<ScopeView> {
    if holder(scopes, name) >= 0 {
        scopes.update(holder(scopes, name), bind(scopes[holder(scopes, name)], name, var))
    } else {
        scopes
    }
}

/// The holder of a name is a scope that binds it, and no scope further in
/// does.
pub proof fn lemma_holder(scopes: Seq<ScopeView>, name: Seq<char>)
    ensures
        -1 <= holder(scopes, name) < scopes.len(),
        holder(scopes, name) >= 0 ==> scopes[holder(scopes, name)].vars.dom().contains(name),
        forall|k: int|
            holder(scopes, name) < k < scopes.len() ==> !(#[trigger] scopes[k]).vars.dom().contains(
                name,
            ),
    decreases scopes.len(),
{
    if scopes.len() > 0 && !scopes.last().vars.dom().contains(name) {
        lemma_holder(scopes.drop_last(), name);
        assert forall|k: int| holder(scopes, name) < k < scopes.len() implies !(
        #[trigger] scopes[k]).vars.dom().contains(name) by {
            if k < scopes.len() - 1 {
                assert(scopes.drop_last()[k] == scopes[k]);
            }
        }
    }
}

/// The one index that binds `name` with nothing further in binding it is
/// the holder.
pub proof fn lemma_holder_is(scopes: Seq<ScopeView>, name: Seq<char>, at: int)
    requires
        -1 <= at < scopes.len(),
        at >= 0 ==> scopes[at].vars.dom().contains(name),
        forall|k: int| at < k < scopes.len() ==> !(#[trigger] scopes[k]).vars.dom().contains(name),
    ensures
        holder(scopes, name) == at,
{
    lemma_holder(scopes, name);
}

/// The scope that a tag opens, for the kinds that open one.
pub open spec fn opened(tag: TagView) -> ScopeView {
    match tag.kind {
        TagKind::If | TagKind::ElseIf => empty_scope(Statement::If(tag.location)),
        TagKind::Else => empty_scope(Statement::Else(tag.location)),
        TagKind::With => empty_scope(Statement::With(tag.location)),
        _ => ScopeView {
            vars: table_of(tag.bindings),
            statement: Statement::Range(tag.location),
        },
    }
}

/// The effect of one tag on the stack.
///
/// `if`, `with` and `range` push a scope; a `range` scope starts with the
/// variables the tag declares. `end` pops one scope, and is malformed where
/// only the global scope is left. `else` and `else if` replace an `If`
/// scope on top by an `Else` or a new `If` scope, and are malformed on any
/// other scope. Anything else leaves the stack alone.
pub open spec fn step(scopes: Seq<ScopeView>, tag: TagView) -> Result<
    Seq<ScopeView>,
    ResolveError,
> {
    match tag.kind {
        TagKind::Inert => Ok(scopes),
        TagKind::If | TagKind::With | TagKind::Range => Ok(scopes.push(opened(tag))),
        TagKind::End => if scopes.len() > 1 {
            Ok(scopes.drop_last())
        } else {
            Err(ResolveError::MalformedTemplate(tag.location))
        },
        TagKind::Else | TagKind::ElseIf => if scopes.len() > 1 && scopes.last().statement is If {
            Ok(scopes.drop_last().push(opened(tag)))
        } else {
            Err(ResolveError::MalformedTemplate(tag.location))
        },
    }
}

/// The effect of a run of tags, applied in order; the first malformed tag
/// ends it.
pub open spec fn replay(scopes: Seq<ScopeView>, tags: Seq<TagView>) -> Result<
    Seq<ScopeView>,
    ResolveError,
>
    decreases tags.len(),
{
    if tags.len() == 0 {
        Ok(scopes)
    } else {
        match step(scopes, tags[0]) {
            Ok(next) => replay(next, tags.drop_first()),
            Err(e) => Err(e),
        }
    }
}

/// The stack at which a replay comes to rest: after the last tag, or just
/// before the first malformed one.
pub open spec fn replayed(scopes: Seq<ScopeView>, tags: Seq<TagView>) -> Seq<ScopeView>
    decreases tags.len(),
{
    if tags.len() == 0 {
        scopes
    } else {
        match step(scopes, tags[0]) {
            Ok(next) => replayed(next, tags.drop_first()),
            Err(_) => scopes,
        }
    }
}

/// The scope stack of one query.
#[derive(Debug)]
pub struct Context {
    scopes: Vec<Scope>,
}

impl View for Context {
    type V = Seq<ScopeView>;

    closed spec fn view(&self) -> Seq<ScopeView> {
        self.scopes@.map_values(|s: Scope| s@)
    }
}

impl Context {
    /// Every scope's table is in order.
    pub closed spec fn inv(&self) -> bool {
        forall|i: int| 0 <= i < self.scopes@.len() ==> (#[trigger] self.scopes@[i]).wf()
    }

    /// The global scope is at the bottom, and only there.
    pub open spec fn wf(&self) -> bool {
        self.inv() && well_formed(self@)
    }

    /// A fresh stack: the global scope alone.
    pub fn new() -> (ctx: Context)
        ensures
            ctx.wf(),
            ctx@ == initial(),
    {
        let mut scopes: Vec<Scope> = Vec::new();
        scopes.push(Scope::new(Statement::Global));
        let ctx = Context { scopes };
        assert(ctx@ =~= initial());
        ctx
    }

    /// The number of scopes: the nesting depth plus one.
    pub fn depth(&self) -> (n: usize)
        ensures
            n == self@.len(),
    {
        self.scopes.len()
    }

    /// The statement of the innermost scope.
    pub fn innermost(&self) -> (statement: Statement)
        requires
            self.wf(),
        ensures
            statement == self@.last().statement,
    {
        self.scopes[self.scopes.len() - 1].statement()
    }

    /// Pushes `scope` as the new innermost scope.
    pub fn push_scope(&mut self, scope: Scope)
        requires
            old(self).wf(),
            scope.wf(),
            !(scope@.statement is Global),
        ensures
            final(self).wf(),
            final(self)@ == old(self)@.push(scope@),
    {
        self.scopes.push(scope);
        assert(self@ =~= old(self)@.push(scope@));
    }

    /// Pops the innermost scope and hands it back. The global scope is
    /// never popped: where it is the only one, nothing happens.
    pub fn pop_scope(&mut self) -> (popped: Option<Scope>)
        requires
            old(self).wf(),
        ensures
            final(self).wf(),
            match popped {
                Some(scope) => old(self)@.len() > 1 && scope.wf() && scope@ == old(self)@.last()
                    && final(self)@ == old(self)@.drop_last(),
                None => old(self)@.len() == 1 && final(self)@ == old(self)@,
            },
    {
        if self.scopes.len() > 1 {
            let popped = self.scopes.pop();
            assert(self@ =~= old(self)@.drop_last());
            popped
        } else {
            None
        }
    }

    /// Declares `key` in the innermost scope. Hands back the variable that
    /// this same scope held under that name before, if any.
    pub fn declare_var(&mut self, key: String, val: Var) -> (previous: Option<Var>)
        requires
            old(self).wf(),
        ensures
            final(self).wf(),
            final(self)@ == declare(old(self)@, key@, val),
            previous == if old(self)@.last().vars.dom().contains(key@) {
                Some(old(self)@.last().vars[key@])
            } else {
                None
            },
    {
        let top: usize = self.scopes.len() - 1;
        let previous = self.scopes[top].declare(key, val);
        assert(self@ =~= declare(old(self)@, key@, val));
        previous
    }

    /// Assigns to `key`: the innermost scope that binds it gets `val`, and
    /// the variable it held is handed back. Where no scope binds `key`,
    /// nothing changes and `None` is returned; no binding is ever created.
    pub fn set_var(&mut self, key: String, val: Var) -> (previous: Option<Var>)
        requires
            old(self).wf(),
        ensures
            final(self).wf(),
            final(self)@ == assign(old(self)@, key@, val),
            previous == lookup(old(self)@, key@),
    {
        let mut i: usize = self.scopes.len();
        while i > 0
            invariant
                i <= self.scopes@.len(),
                self.wf(),
                *self == *old(self),
                forall|k: int|
                    i <= k < self@.len() ==> !(#[trigger] self@[k]).vars.dom().contains(key@),
            decreases i,
        {
            i -= 1;
            if self.scopes[i].get(key.as_str()).is_some() {
                proof {
                    lemma_holder_is(self@, key@, i as int);
                }
                let previous = self.scopes[i].declare(key, val);
                assert(self@ =~= assign(old(self)@, key@, val));
                return previous;
            }
        }
        proof {
            lemma_holder_is(self@, key@, -1);
        }
        None
    }

    /// Resolves `key`: the binding of the innermost scope that has one.
    pub fn get_var(&self, key: &str) -> (found: Option<Var>)
        requires
            self.wf(),
        ensures
            found == lookup(self@, key@),
    {
        let mut i: usize = self.scopes.len();
        while i > 0
            invariant
                i <= self.scopes@.len(),
                self.wf(),
                forall|k: int|
                    i <= k < self@.len() ==> !(#[trigger] self@[k]).vars.dom().contains(key@),
            decreases i,
        {
            i -= 1;
            let found = self.scopes[i].get(key);
            if found.is_some() {
                proof {
                    lemma_holder_is(self@, key@, i as int);
                }
                return found;
            }
        }
        proof {
            lemma_holder_is(self@, key@, -1);
        }
        None
    }

    /// A scope for the block that `tag` opens, holding what it declares.
    fn open_scope(tag: &Tag) -> (scope: Scope)
        requires
            tag.kind != TagKind::End,
            tag.kind != TagKind::Inert,
        ensures
            scope.wf(),
            scope@ == opened(tag@),
            !(scope@.statement is Global),
    {
        match tag.kind {
            TagKind::If | TagKind::ElseIf => Scope::new(Statement::If(tag.location)),
            TagKind::Else => Scope::new(Statement::Else(tag.location)),
            TagKind::With => Scope::new(Statement::With(tag.location)),
            _ => {
                let mut scope = Scope::new(Statement::Range(tag.location));
                let ghost all = bindings_view(tag.bindings@);
                let mut i: usize = 0;
                assert(all.take(0) =~= Seq::empty());
                while i < tag.bindings.len()
                    invariant
                        i <= tag.bindings@.len(),
                        all == bindings_view(tag.bindings@),
                        scope.wf(),
                        scope@.statement == Statement::Range(tag.location),
                        scope@.vars == table_of(all.take(i as int)),
                    decreases tag.bindings@.len() - i,
                {
                    let binding: &Binding = &tag.bindings[i];
                    proof {
                        assert(all.take(i + 1).drop_last() =~= all.take(i as int));
                        assert(all.take(i + 1).last() == binding@);
                    }
                    scope.declare(binding.name.clone(), binding.var);
                    i += 1;
                }
                assert(all.take(i as int) =~= all);
                scope
            },
        }
    }

    /// Applies one scanned tag to the stack. A malformed tag is reported
    /// with its place and leaves the stack as it was.
    pub fn apply(&mut self, tag: &Tag) -> (done: Result<(), ResolveError>)
        requires
            old(self).wf(),
        ensures
            final(self).wf(),
            match step(old(self)@, tag@) {
                Ok(next) => done is Ok && final(self)@ == next,
                Err(e) => done == Err::<(), ResolveError>(e) && final(self)@ == old(self)@,
            },
    {
        match tag.kind {
            TagKind::Inert => Ok(()),
            TagKind::If | TagKind::With | TagKind::Range => {
                self.push_scope(Context::open_scope(tag));
                Ok(())
            },
            TagKind::End => match self.pop_scope() {
                Some(_) => Ok(()),
                None => Err(ResolveError::MalformedTemplate(tag.location)),
            },
            TagKind::Else | TagKind::ElseIf => {
                match self.innermost() {
                    Statement::If(_) => {
                        let _ = self.pop_scope();
                        self.push_scope(Context::open_scope(tag));
                        Ok(())
                    },
                    _ => Err(ResolveError::MalformedTemplate(tag.location)),
                }
            },
        }
    }

    /// Applies a run of scanned tags in order, and stops at the first
    /// malformed one, with the stack as that tag found it.
    pub fn replay(&mut self, tags: &Vec<Tag>) -> (done: Result<(), ResolveError>)
        requires
            old(self).wf(),
        ensures
            final(self).wf(),
            final(self)@ == replayed(old(self)@, tags_view(tags@)),
            match replay(old(self)@, tags_view(tags@)) {
                Ok(last) => done is Ok && final(self)@ == last,
                Err(e) => done == Err::<(), ResolveError>(e),
            },
    {
        let ghost all = tags_view(tags@);
        let mut i: usize = 0;
        assert(all.skip(0) =~= all);
        while i < tags.len()
            invariant
                i <= tags@.len(),
                all == tags_view(tags@),
                self.wf(),
                replay(old(self)@, all) == replay(self@, all.skip(i as int)),
                replayed(old(self)@, all) == replayed(self@, all.skip(i as int)),
            decreases tags@.len() - i,
        {
            proof {
                assert(all.skip(i as int)[0] == tags@[i as int]@);
                assert(all.skip(i as int).drop_first() =~= all.skip(i + 1));
            }
            match self.apply(&tags[i]) {
                Ok(_) => {},
                Err(e) => {
                    return Err(e);
                },
            }
            i += 1;
        }
        Ok(())
    }
}

} // verus!
