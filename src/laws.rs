//! Laws that relate the operations of a scope.

use vstd::prelude::*;

use crate::scope::Scope;

verus! {

/// `states` are the successive values of one scope while the pairs of `ops`
/// are inserted into it in order: each state is the one before it with the
/// next pair inserted.
pub open spec fn insert_run<F>(states: Seq<Scope<F>>, ops: Seq<(Seq<char>, F)>) -> bool {
    &&& states.len() == ops.len() + 1
    &&& forall|i: int|
        0 <= i < ops.len() ==> Scope::insert_step(states[i], states[i + 1], #[trigger] ops[i].0, ops[i].1)
}

/// The names that the pairs of `ops` insert.
pub open spec fn inserted_names<F>(ops: Seq<(Seq<char>, F)>) -> Set<Seq<char>> {
    Set::new(|n: Seq<char>| exists|i: int| 0 <= i < ops.len() && #[trigger] ops[i].0 == n)
}

/// A name that was never inserted into a fresh scope has no binding, and
/// a lookup with fallback of it yields the fallback the scope was made with.
pub proof fn lemma_unbound_name_uses_fallback<F>(
    states: Seq<Scope<F>>,
    ops: Seq<(Seq<char>, F)>,
    name: Seq<char>,
)
    requires
        insert_run(states, ops),
        states[0]@ == Map::<Seq<char>, F>::empty(),
        forall|i: int| 0 <= i < ops.len() ==> #[trigger] ops[i].0 != name,
    ensures
        states.last().lookup(name) == None::<F>,
        states.last().lookup_or_fallback(name) == states[0].fallback_value(),
        states.last().lookup_or_fallback(name) == states.last().fallback_value(),
{
    lemma_bound_names_are_inserted_names(states, ops);
    lemma_fallback_kept(states, ops);
    assert(!inserted_names(ops).contains(name));
}

/// After `name` is bound to `function`, both lookups of `name` yield
/// `function`.
pub proof fn lemma_lookup_after_insert<F>(before: Scope<F>, after: Scope<F>, name: Seq<char>, function: F)
    requires
        Scope::insert_step(before, after, name, function),
    ensures
        after.lookup(name) == Some(function),
        after.lookup_or_fallback(name) == function,
{
}

/// Inserting the same pair twice leaves the same bindings as inserting it
/// once: one binding for the name, to that function.
pub proof fn lemma_insert_twice<F>(
    s0: Scope<F>,
    s1: Scope<F>,
    s2: Scope<F>,
    name: Seq<char>,
    function: F,
)
    requires
        Scope::insert_step(s0, s1, name, function),
        Scope::insert_step(s1, s2, name, function),
    ensures
        s2@ == s1@,
        s2.lookup(name) == Some(function),
{
    assert(s2@ =~= s1@);
}

/// Binding a name a second time overrides the first binding.
pub proof fn lemma_overwrite<F>(
    s0: Scope<F>,
    s1: Scope<F>,
    s2: Scope<F>,
    name: Seq<char>,
    first: F,
    second: F,
)
    requires
        Scope::insert_step(s0, s1, name, first),
        Scope::insert_step(s1, s2, name, second),
    ensures
        s2.lookup(name) == Some(second),
        first != second ==> s2.lookup(name) != Some(first),
        s2@ == s0@.insert(name, second),
{
    assert(s2@ =~= s0@.insert(name, second));
}

/// Any number of inserts leaves the fallback as it was.
pub proof fn lemma_fallback_kept<F>(states: Seq<Scope<F>>, ops: Seq<(Seq<char>, F)>)
    requires
        insert_run(states, ops),
    ensures
        forall|i: int| 0 <= i < states.len() ==> #[trigger] states[i].fallback_value() == states[0].fallback_value(),
{
    assert forall|i: int| 0 <= i < states.len() implies #[trigger] states[i].fallback_value()
        == states[0].fallback_value() by {
        lemma_fallback_kept_upto(states, ops, i);
    }
}

proof fn lemma_fallback_kept_upto<F>(states: Seq<Scope<F>>, ops: Seq<(Seq<char>, F)>, i: int)
    requires
        insert_run(states, ops),
        0 <= i < states.len(),
    ensures
        states[i].fallback_value() == states[0].fallback_value(),
    decreases i,
{
    if i > 0 {
        lemma_fallback_kept_upto(states, ops, i - 1);
        assert(Scope::insert_step(states[i - 1], states[i], ops[i - 1].0, ops[i - 1].1));
    }
}

/// Starting from a fresh scope, the names with a binding are exactly the
/// names that were inserted, each counted once however often it came.
pub proof fn lemma_bound_names_are_inserted_names<F>(states: Seq<Scope<F>>, ops: Seq<(Seq<char>, F)>)
    requires
        insert_run(states, ops),
        states[0]@ == Map::<Seq<char>, F>::empty(),
    ensures
        states.last()@.dom() == inserted_names(ops),
{
    lemma_bound_names_upto(states, ops, ops.len() as int);
    assert(ops.take(ops.len() as int) =~= ops);
}

proof fn lemma_bound_names_upto<F>(states: Seq<Scope<F>>, ops: Seq<(Seq<char>, F)>, i: int)
    requires
        insert_run(states, ops),
        states[0]@ == Map::<Seq<char>, F>::empty(),
        0 <= i <= ops.len(),
    ensures
        states[i]@.dom() == inserted_names(ops.take(i)),
    decreases i,
{
    if i == 0 {
        assert(states[0]@.dom() =~= inserted_names(ops.take(0)));
    } else {
        lemma_bound_names_upto(states, ops, i - 1);
        assert(Scope::insert_step(states[i - 1], states[i], ops[i - 1].0, ops[i - 1].1));
        let prev = ops.take(i - 1);
        let cur = ops.take(i);
        assert forall|n: Seq<char>| inserted_names(cur).contains(n) <==> states[i]@.dom().contains(n) by {
            if inserted_names(cur).contains(n) {
                let j = choose|j: int| 0 <= j < cur.len() && #[trigger] cur[j].0 == n;
                if j < i - 1 {
                    assert(prev[j].0 == n);
                    assert(inserted_names(prev).contains(n));
                }
            }
            if states[i]@.dom().contains(n) && n != ops[i - 1].0 {
                assert(inserted_names(prev).contains(n));
                let j = choose|j: int| 0 <= j < prev.len() && #[trigger] prev[j].0 == n;
                assert(cur[j].0 == n);
            }
            if n == ops[i - 1].0 {
                assert(cur[i - 1].0 == n);
            }
        }
        assert(states[i]@.dom() =~= inserted_names(cur));
    }
}

} // verus!
