use func_scope::Scope;

fn sorted_names<F>(scope: &Scope<F>) -> Vec<String> {
    let mut names = scope.names();
    names.sort();
    names
}

#[test]
fn fresh_scope_has_no_bindings() {
    let scope: Scope<u32> = Scope::new(99);
    assert_eq!(scope.func("sum"), None);
    assert_eq!(scope.func(""), None);
    assert_eq!(*scope.func_or_fallback("sum"), 99);
    assert!(std::ptr::eq(scope.func_or_fallback("sum"), scope.fallback()));
    assert!(scope.names().is_empty());
}

#[test]
fn unbound_name_falls_back_after_other_inserts() {
    let mut scope = Scope::new(0u32);
    scope.insert("sum".to_string(), 1);
    scope.insert("avg".to_string(), 2);
    assert_eq!(scope.func("max"), None);
    assert!(std::ptr::eq(scope.func_or_fallback("max"), scope.fallback()));
    assert_eq!(*scope.func_or_fallback("max"), 0);
}

#[test]
fn insert_then_lookup() {
    let mut scope = Scope::new(0u32);
    scope.insert("sum".to_string(), 7);
    assert_eq!(scope.func("sum"), Some(&7));
    assert_eq!(*scope.func_or_fallback("sum"), 7);
}

#[test]
fn names_are_case_sensitive() {
    let mut scope = Scope::new(0u32);
    scope.insert("Sum".to_string(), 7);
    assert_eq!(scope.func("sum"), None);
    assert_eq!(scope.func("Sum"), Some(&7));
    assert_eq!(*scope.func_or_fallback("SUM"), 0);
}

#[test]
fn empty_name_is_an_ordinary_key() {
    let mut scope = Scope::new(0u32);
    scope.insert(String::new(), 5);
    assert_eq!(scope.func(""), Some(&5));
    assert_eq!(sorted_names(&scope), vec![String::new()]);
}

#[test]
fn inserting_same_pair_twice_keeps_one_binding() {
    let mut scope = Scope::new(0u32);
    scope.insert("sum".to_string(), 4);
    scope.insert("sum".to_string(), 4);
    assert_eq!(scope.func("sum"), Some(&4));
    assert_eq!(scope.names(), vec!["sum".to_string()]);
}

#[test]
fn second_insert_overrides_first() {
    let mut scope = Scope::new(0u32);
    scope.insert("sum".to_string(), 1);
    scope.insert("sum".to_string(), 2);
    assert_eq!(scope.func("sum"), Some(&2));
    assert_ne!(scope.func("sum"), Some(&1));
    assert_eq!(*scope.func_or_fallback("sum"), 2);
}

#[test]
fn fallback_survives_inserts() {
    let mut scope = Scope::new(42u32);
    assert_eq!(*scope.fallback(), 42);
    for i in 0..20u32 {
        scope.insert(format!("f{}", i % 7), i);
        assert_eq!(*scope.fallback(), 42);
    }
    assert_eq!(scope.names().len(), 7);
}

#[test]
fn names_list_each_bound_name_once() {
    let mut scope = Scope::new("ERR");
    scope.insert("b".to_string(), "B");
    scope.insert("a".to_string(), "A");
    scope.insert("b".to_string(), "B2");
    scope.insert("c".to_string(), "C");
    assert_eq!(
        sorted_names(&scope),
        vec!["a".to_string(), "b".to_string(), "c".to_string()]
    );
    assert!(!scope.names().contains(&"ERR".to_string()));
}

#[test]
fn scenario_sum_avg_max() {
    let mut scope = Scope::new("ERR");
    scope.insert("sum".to_string(), "F1");
    scope.insert("avg".to_string(), "F2");
    scope.insert("sum".to_string(), "F3");
    assert_eq!(scope.func("sum"), Some(&"F3"));
    assert_eq!(scope.func("avg"), Some(&"F2"));
    assert_eq!(scope.func("max"), None);
    assert_eq!(*scope.func_or_fallback("max"), "ERR");
    assert_eq!(*scope.func_or_fallback("sum"), "F3");
    assert_eq!(sorted_names(&scope), vec!["avg".to_string(), "sum".to_string()]);
}
