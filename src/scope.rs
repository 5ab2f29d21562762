//! Mapping from identifiers to functions.

use vstd::prelude::*;

verus! {

/// A map from identifiers to functions, with a fallback function that
/// stands in for every name that has no binding.
///
/// The bindings are kept as a list of pairs whose names are pairwise
/// distinct; the order of the list carries no meaning.
pub struct Scope<F> {
    functions: Vec<(String, F)>,
    fallback: F,
    model: Ghost<Map<Seq<char>, F>>,
}

impl<F> View for Scope<F> {
    type V = Map<Seq<char>, F>;

    /// The bindings of the scope, by name.
    closed spec fn view(&self) -> Map<Seq<char>, F> {
        self.model@
    }
}

impl<F> Scope<F> {
    /// The function handed out for names without a binding.
    pub closed spec fn fallback_value(&self) -> F {
        self.fallback
    }

    /// What a lookup of `name` yields: the bound function, if any.
    pub open spec fn lookup(&self, name: Seq<char>) -> Option<F> {
        if self@.contains_key(name) {
            Some(self@[name])
        } else {
            None
        }
    }

    /// What a lookup of `name` with fallback yields.
    pub open spec fn lookup_or_fallback(&self, name: Seq<char>) -> F {
        if self@.contains_key(name) {
            self@[name]
        } else {
            self.fallback_value()
        }
    }

    /// `after` is `before` with `name` bound to `function`, and nothing else
    /// changed.
    pub open spec fn insert_step(before: Self, after: Self, name: Seq<char>, function: F) -> bool {
        &&& after@ == before@.insert(name, function)
        &&& after.fallback_value() == before.fallback_value()
    }

    /// The names in the list are pairwise distinct, and the list holds
    /// exactly the bindings of the view.
    pub closed spec fn wf(&self) -> bool {
        &&& forall|i: int, j: int|
            0 <= i < j < self.functions@.len() ==> #[trigger] self.functions@[i].0@
                != #[trigger] self.functions@[j].0@
        &&& forall|i: int|
            0 <= i < self.functions@.len() ==> self.model@.contains_key(
                #[trigger] self.functions@[i].0@,
            ) && self.model@[self.functions@[i].0@] == self.functions@[i].1
        &&& forall|k: Seq<char>|
            #[trigger] self.model@.contains_key(k) ==> exists|i: int|
                0 <= i < self.functions@.len() && #[trigger] self.functions@[i].0@ == k
    }

    /// Creates a scope without bindings, whose lookups with fallback hand
    /// out `fallback` for every name.
    pub fn new(fallback: F) -> (s: Self)
        ensures
            s.wf(),
            s@ == Map::<Seq<char>, F>::empty(),
            s.fallback_value() == fallback,
    {
        Scope { functions: Vec::new(), fallback, model: Ghost(Map::empty()) }
    }

    /// The index of the binding named `name`, if there is one.
    fn position(&self, name: &String) -> (r: Option<usize>)
        requires
            self.wf(),
        ensures
            match r {
                Some(i) => i < self.functions@.len() && self.functions@[i as int].0@ == name@,
                None => !self@.contains_key(name@),
            },
    {
        let mut i: usize = 0;
        while i < self.functions.len()
            invariant
                i <= self.functions@.len(),
                forall|j: int| 0 <= j < i ==> self.functions@[j].0@ != name@,
            decreases self.functions@.len() - i,
        {
            if self.functions[i].0 == *name {
                return Some(i);
            }
            i = i + 1;
        }
        None
    }

    /// Binds `name` to `function`, replacing the binding that `name` had.
    pub fn insert(&mut self, name: String, function: F)
        requires
            old(self).wf(),
        ensures
            final(self).wf(),
            Self::insert_step(*old(self), *final(self), name@, function),
    {
        let ghost key = name@;
        let ghost model = self.model@.insert(key, function);
        match self.position(&name) {
            Some(i) => {
                let ghost before = self.functions@;
                self.functions[i] = (name, function);
                self.model = Ghost(model);
                assert forall|k: Seq<char>| #[trigger] model.contains_key(k) implies exists|j: int|
                    0 <= j < self.functions@.len() && #[trigger] self.functions@[j].0@ == k by {
                    if k != key {
                        let j = choose|j: int|
                            0 <= j < before.len() && #[trigger] before[j].0@ == k;
                        assert(self.functions@[j].0@ == k);
                    } else {
                        assert(self.functions@[i as int].0@ == k);
                    }
                }
            },
            None => {
                let ghost before = self.functions@;
                self.functions.push((name, function));
                self.model = Ghost(model);
                assert forall|k: Seq<char>| #[trigger] model.contains_key(k) implies exists|j: int|
                    0 <= j < self.functions@.len() && #[trigger] self.functions@[j].0@ == k by {
                    if k != key {
                        let j = choose|j: int|
                            0 <= j < before.len() && #[trigger] before[j].0@ == k;
                        assert(self.functions@[j].0@ == k);
                    } else {
                        assert(self.functions@[before.len() as int].0@ == k);
                    }
                }
            },
        }
    }

    /// Returns the function bound to `name`, if there is one.
    pub fn func(&self, name: &str) -> (r: Option<&F>)
        requires
            self.wf(),
        ensures
            match r {
                Some(f) => self.lookup(name@) == Some(*f),
                None => self.lookup(name@) == None::<F>,
            },
    {
        let key = name.to_owned();
        match self.position(&key) {
            Some(i) => Some(&self.functions[i].1),
            None => None,
        }
    }

    /// Returns the function bound to `name`, or the fallback where `name`
    /// has no binding.
    pub fn func_or_fallback(&self, name: &str) -> (r: &F)
        requires
            self.wf(),
        ensures
            *r == self.lookup_or_fallback(name@),
    {
        match self.func(name) {
            Some(f) => f,
            None => self.fallback(),
        }
    }

    /// Returns the fallback function.
    pub fn fallback(&self) -> (r: &F)
        ensures
            *r == self.fallback_value(),
    {
        &self.fallback
    }

    /// The names that have a binding, each once, in no particular order.
    /// Meant for diagnostics; the fallback has no name and is not listed.
    pub fn names(&self) -> (r: Vec<String>)
        requires
            self.wf(),
        ensures
            forall|i: int| 0 <= i < r@.len() ==> self@.contains_key(#[trigger] r@[i]@),
            forall|k: Seq<char>|
                self@.contains_key(k) ==> exists|i: int| 0 <= i < r@.len() && #[trigger] r@[i]@ == k,
            forall|i: int, j: int| 0 <= i < j < r@.len() ==> #[trigger] r@[i]@ != #[trigger] r@[j]@,
    {
        let mut r: Vec<String> = Vec::new();
        let mut i: usize = 0;
        while i < self.functions.len()
            invariant
                i <= self.functions@.len(),
                r@.len() == i,
                forall|j: int| 0 <= j < i ==> #[trigger] r@[j]@ == self.functions@[j].0@,
            decreases self.functions@.len() - i,
        {
            r.push(self.functions[i].0.clone());
            i = i + 1;
        }
        assert forall|k: Seq<char>| self@.contains_key(k) implies exists|j: int|
            0 <= j < r@.len() && #[trigger] r@[j]@ == k by {
            let j = choose|j: int| 0 <= j < self.functions@.len() && #[trigger] self.functions@[j].0@ == k;
            assert(r@[j]@ == k);
        }
        r
    }
}

} // verus!
