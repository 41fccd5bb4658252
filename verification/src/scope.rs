//! A scope: the variables declared directly inside one block, and the
//! statement that opened the block.

use crate::model::{Statement, Var};
use crate::scanner::{bindings_view, Binding, BindingView};
use vstd::prelude::*;

verus! {

/// The symbol table that a list of bindings builds up when they are
/// declared one after the other: a later binding of a name replaces an
/// earlier one.
pub open spec fn table_of(bindings: Seq<BindingView>) -> Map<Seq<char>, Var>
    decreases bindings.len(),
{
    if bindings.len() == 0 {
        Map::empty()
    } else {
        table_of(bindings.drop_last()).insert(bindings.last().name, bindings.last().var)
    }
}

/// No name occurs twice.
pub open spec fn distinct(bindings: Seq<BindingView>) -> bool {
    forall|i: int, j: int|
        0 <= i < j < bindings.len() ==> (#[trigger] bindings[i]).name != (
        #[trigger] bindings[j]).name
}

/// A name is in the table exactly if some binding has it.
pub proof fn lemma_table_names(bindings: Seq<BindingView>, name: Seq<char>)
    ensures
        table_of(bindings).dom().contains(name) <==> exists|i: int|
            0 <= i < bindings.len() && (#[trigger] bindings[i]).name == name,
    decreases bindings.len(),
{
    if bindings.len() > 0 {
        let front = bindings.drop_last();
        lemma_table_names(front, name);
        if table_of(bindings).dom().contains(name) {
            if bindings.last().name == name {
                assert(bindings[bindings.len() - 1].name == name);
            } else {
                let i = choose|i: int| 0 <= i < front.len() && (#[trigger] front[i]).name == name;
                assert(bindings[i].name == name);
            }
        }
        if exists|i: int| 0 <= i < bindings.len() && (#[trigger] bindings[i]).name == name {
            let i = choose|i: int| 0 <= i < bindings.len() && (#[trigger] bindings[i]).name == name;
            if i < front.len() {
                assert(front[i].name == name);
            }
        }
    }
}

/// Where no name occurs twice, the table holds each binding's variable.
pub proof fn lemma_table_entry(bindings: Seq<BindingView>, i: int)
    requires
        distinct(bindings),
        0 <= i < bindings.len(),
    ensures
        table_of(bindings).dom().contains(bindings[i].name),
        table_of(bindings)[bindings[i].name] == bindings[i].var,
    decreases bindings.len(),
{
    if i < bindings.len() - 1 {
        let front = bindings.drop_last();
        assert(distinct(front)) by {
            assert forall|a: int, b: int| 0 <= a < b < front.len() implies (#[trigger] front[a]).name
                != (#[trigger] front[b]).name by {
                assert(bindings[a].name != bindings[b].name);
            }
        }
        lemma_table_entry(front, i);
        assert(bindings[i].name != bindings[bindings.len() - 1].name);
    }
}

/// Where no name occurs twice, giving one binding a new variable is a
/// declaration of its name.
pub proof fn lemma_table_update(bindings: Seq<BindingView>, i: int, var: Var)
    requires
        distinct(bindings),
        0 <= i < bindings.len(),
    ensures
        distinct(bindings.update(i, BindingView { name: bindings[i].name, var })),
        table_of(bindings.update(i, BindingView { name: bindings[i].name, var })) == table_of(
            bindings,
        ).insert(bindings[i].name, var),
    decreases bindings.len(),
{
    let name = bindings[i].name;
    let updated = bindings.update(i, BindingView { name, var });
    assert(distinct(updated)) by {
        assert forall|a: int, b: int| 0 <= a < b < updated.len() implies (
        #[trigger] updated[a]).name != (#[trigger] updated[b]).name by {
            assert(bindings[a].name != bindings[b].name);
        }
    }
    let front = bindings.drop_last();
    if i == bindings.len() - 1 {
        assert(updated.drop_last() == front);
        assert(table_of(updated) =~= table_of(bindings).insert(name, var));
    } else {
        assert(distinct(front)) by {
            assert forall|a: int, b: int| 0 <= a < b < front.len() implies (#[trigger] front[a]).name
                != (#[trigger] front[b]).name by {
                assert(bindings[a].name != bindings[b].name);
            }
        }
        lemma_table_update(front, i, var);
        assert(updated.drop_last() == front.update(i, BindingView { name, var }));
        assert(bindings[i].name != bindings[bindings.len() - 1].name);
        assert(table_of(updated) =~= table_of(bindings).insert(name, var));
    }
}

/// A scope as plain values.
pub struct ScopeView {
    /// The variables declared directly in the scope, by name.
    pub vars: Map<Seq<char>, Var>,
    /// The block that the scope belongs to.
    pub statement: Statement,
}

/// A scope of a block that has declared nothing.
pub open spec fn empty_scope(statement: Statement) -> ScopeView {
    ScopeView { vars: Map::empty(), statement }
}

/// A lexical frame. Its table keeps one entry per name.
#[derive(Debug)]
pub struct Scope {
    vars: Vec<Binding>,
    statement: Statement,
}

impl View for Scope {
    type V = ScopeView;

    closed spec fn view(&self) -> ScopeView {
        ScopeView { vars: table_of(bindings_view(self.vars@)), statement: self.statement }
    }
}

impl Scope {
    /// The table holds no name twice.
    pub closed spec fn wf(&self) -> bool {
        distinct(bindings_view(self.vars@))
    }

    /// A scope for the block that `statement` opens, with nothing declared.
    pub fn new(statement: Statement) -> (scope: Scope)
        ensures
            scope.wf(),
            scope@ == empty_scope(statement),
    {
        let scope = Scope { vars: Vec::new(), statement };
        assert(bindings_view(scope.vars@) =~= Seq::empty());
        scope
    }

    /// The statement that opened the scope's block.
    pub fn statement(&self) -> (statement: Statement)
        ensures
            statement == self@.statement,
    {
        self.statement
    }

    /// The number of names declared in the scope.
    pub fn len(&self) -> (n: usize)
        requires
            self.wf(),
        ensures
            self@.vars.dom().finite(),
            n == self@.vars.dom().len(),
    {
        proof {
            lemma_table_len(bindings_view(self.vars@));
        }
        self.vars.len()
    }

    /// The place of `name` in the table.
    fn position(&self, name: &String) -> (at: Option<usize>)
        ensures
            match at {
                Some(i) => i < self.vars@.len() && self.vars@[i as int].name@ == name@,
                None => forall|i: int|
                    0 <= i < self.vars@.len() ==> (#[trigger] self.vars@[i]).name@ != name@,
            },
    {
        let mut i: usize = 0;
        while i < self.vars.len()
            invariant
                i <= self.vars@.len(),
                forall|k: int| 0 <= k < i ==> (#[trigger] self.vars@[k]).name@ != name@,
            decreases self.vars@.len() - i,
        {
            if self.vars[i].name == *name {
                return Some(i);
            }
            i += 1;
        }
        None
    }

    /// Looks `name` up among the variables declared directly in this scope.
    pub fn get(&self, name: &str) -> (found: Option<Var>)
        requires
            self.wf(),
        ensures
            found == if self@.vars.dom().contains(name@) {
                Some(self@.vars[name@])
            } else {
                None
            },
    {
        let key: String = name.to_owned();
        let ghost bindings = bindings_view(self.vars@);
        match self.position(&key) {
            Some(i) => {
                proof {
                    assert(bindings[i as int].name == name@);
                    lemma_table_entry(bindings, i as int);
                }
                Some(self.vars[i].var)
            },
            None => {
                proof {
                    lemma_table_names(bindings, name@);
                    if exists|i: int| 0 <= i < bindings.len() && (#[trigger] bindings[i]).name
                        == name@ {
                        let i = choose|i: int|
                            0 <= i < bindings.len() && (#[trigger] bindings[i]).name == name@;
                        assert(self.vars@[i].name@ == name@);
                    }
                }
                None
            },
        }
    }

    /// Declares `name` in this scope. A variable that the scope already held
    /// under that name is replaced and handed back.
    pub fn declare(&mut self, name: String, var: Var) -> (previous: Option<Var>)
        requires
            old(self).wf(),
        ensures
            final(self).wf(),
            final(self)@.statement == old(self)@.statement,
            final(self)@.vars == old(self)@.vars.insert(name@, var),
            previous == if old(self)@.vars.dom().contains(name@) {
                Some(old(self)@.vars[name@])
            } else {
                None
            },
    {
        let ghost bindings = bindings_view(self.vars@);
        match self.position(&name) {
            Some(i) => {
                let previous: Var = self.vars[i].var;
                proof {
                    assert(bindings[i as int].name == name@);
                    lemma_table_entry(bindings, i as int);
                    lemma_table_update(bindings, i as int, var);
                }
                self.vars[i] = Binding { name, var };
                assert(bindings_view(self.vars@) =~= bindings.update(
                    i as int,
                    BindingView { name: name@, var },
                ));
                Some(previous)
            },
            None => {
                proof {
                    lemma_table_names(bindings, name@);
                    if exists|i: int| 0 <= i < bindings.len() && (#[trigger] bindings[i]).name
                        == name@ {
                        let i = choose|i: int|
                            0 <= i < bindings.len() && (#[trigger] bindings[i]).name == name@;
                        assert(self.vars@[i].name@ == name@);
                    }
                }
                let binding = Binding { name, var };
                self.vars.push(binding);
                proof {
                    let after = bindings_view(self.vars@);
                    assert(after =~= bindings.push(binding@));
                    assert(after.drop_last() =~= bindings);
                    assert forall|a: int, b: int| 0 <= a < b < after.len() implies (
                    #[trigger] after[a]).name != (#[trigger] after[b]).name by {
                        if b < bindings.len() {
                            assert(bindings[a].name != bindings[b].name);
                        } else {
                            assert(old(self).vars@[a].name@ != name@);
                        }
                    }
                }
                None
            },
        }
    }
}

/// Where no name occurs twice, the table has as many names as there are
/// bindings.
pub proof fn lemma_table_len(bindings: Seq<BindingView>)
    requires
        distinct(bindings),
    ensures
        table_of(bindings).dom().finite(),
        table_of(bindings).dom().len() == bindings.len(),
    decreases bindings.len(),
{
    if bindings.len() > 0 {
        let front = bindings.drop_last();
        assert(distinct(front)) by {
            assert forall|a: int, b: int| 0 <= a < b < front.len() implies (#[trigger] front[a]).name
                != (#[trigger] front[b]).name by {
                assert(bindings[a].name != bindings[b].name);
            }
        }
        lemma_table_len(front);
        lemma_table_names(front, bindings.last().name);
        if table_of(front).dom().contains(bindings.last().name) {
            let i = choose|i: int|
                0 <= i < front.len() && (#[trigger] front[i]).name == bindings.last().name;
            assert(bindings[i].name != bindings[bindings.len() - 1].name);
        }
    }
}

} // verus!
