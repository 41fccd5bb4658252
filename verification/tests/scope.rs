use helmls::model::{Location, Statement, Value, Var};
use helmls::scope::Scope;

fn var(line: usize, start: usize, end: usize) -> Var {
    Var { value: Value::Null, location: Location { line, start, end } }
}

#[test]
fn new_scope_is_empty_and_keeps_its_statement() {
    let opened = Statement::Range(Location { line: 2, start: 3, end: 20 });
    let scope = Scope::new(opened);
    assert_eq!(scope.statement(), opened);
    assert_eq!(scope.len(), 0);
    assert_eq!(scope.get("$v"), None);
    assert_eq!(Scope::new(Statement::Global).statement(), Statement::Global);
}

#[test]
fn declare_binds_and_get_finds() {
    let mut scope = Scope::new(Statement::Global);
    assert_eq!(scope.declare("$k".to_string(), var(0, 9, 11)), None);
    assert_eq!(scope.declare("$v".to_string(), var(0, 13, 15)), None);
    assert_eq!(scope.len(), 2);
    assert_eq!(scope.get("$k"), Some(var(0, 9, 11)));
    assert_eq!(scope.get("$v"), Some(var(0, 13, 15)));
    assert_eq!(scope.get("$"), None);
    assert_eq!(scope.get("$kv"), None);
    assert_eq!(scope.get(""), None);
}

#[test]
fn declare_again_replaces_and_hands_back_the_old_variable() {
    let mut scope = Scope::new(Statement::Global);
    scope.declare("$a".to_string(), var(0, 1, 3));
    scope.declare("$b".to_string(), var(0, 5, 7));
    scope.declare("$c".to_string(), var(0, 9, 11));
    assert_eq!(scope.declare("$b".to_string(), var(4, 5, 7)), Some(var(0, 5, 7)));
    assert_eq!(scope.len(), 3);
    assert_eq!(scope.get("$a"), Some(var(0, 1, 3)));
    assert_eq!(scope.get("$b"), Some(var(4, 5, 7)));
    assert_eq!(scope.get("$c"), Some(var(0, 9, 11)));
    assert_eq!(scope.declare("$b".to_string(), var(8, 5, 7)), Some(var(4, 5, 7)));
    assert_eq!(scope.get("$b"), Some(var(8, 5, 7)));
}

#[test]
fn declared_at_leaves_the_value_unresolved() {
    let place = Location { line: 1, start: 2, end: 3 };
    assert_eq!(Var::declared_at(place), Var { value: Value::Null, location: place });
}
