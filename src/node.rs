//! A node record: its name, its function, its declared inputs and, once it has
//! run, the value it produced.
use vstd::prelude::*;

verus! {

/// A named unit of computation. `func` receives the values of `input_nodes`,
/// in that order, and its result is kept in `output_cache`.
pub struct Node<T, F> {
    pub name: String,
    pub func: F,
    pub input_nodes: Vec<usize>,
    pub output_cache: Option<T>,
}

/// `f` accepts every sequence of input values.
pub open spec fn total<T, F: Fn(&[&T]) -> T>(f: F) -> bool {
    forall|a: &[&T]| #[trigger] f.requires((a,))
}

impl<T, F: Fn(&[&T]) -> T> Node<T, F> {
    /// A node with no inputs that has not run yet.
    pub fn new(name: String, func: F) -> (r: Node<T, F>)
        ensures
            r.name == name,
            r.func == func,
            r.input_nodes@ == Seq::<usize>::empty(),
            r.output_cache is None,
    {
        Node { name, func, input_nodes: Vec::new(), output_cache: None }
    }

    /// Runs the node's function on `args` and keeps its result. A node runs once.
    pub fn eval(&mut self, args: &[&T])
        requires
            old(self).output_cache is None,
            total(old(self).func),
        ensures
            final(self).output_cache matches Some(v) && old(self).func.ensures((args,), v),
            final(self).name == old(self).name,
            final(self).func == old(self).func,
            final(self).input_nodes == old(self).input_nodes,
    {
        let v = (self.func)(args);
        self.output_cache = Some(v);
    }

    /// The value the node produced; it must have run.
    pub fn computed_val(&self) -> (r: &T)
        requires
            self.output_cache is Some,
        ensures
            *r == self.output_cache->Some_0,
    {
        self.output_cache.as_ref().unwrap()
    }
}

} // verus!
