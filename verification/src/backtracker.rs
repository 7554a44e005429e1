use vstd::prelude::*;

verus! {

/// Contract that a backtracking-search state must satisfy.
///
/// A `Config` is an immutable snapshot of partial progress toward a goal.
/// The search engine only ever looks at a configuration through the three
/// executable operations `successors`, `is_valid` and `is_goal`; everything
/// else here is specification: abstract views of those operations and the
/// proof obligations that make the engine's contract go through for any
/// implementation.
pub trait Config: Sized {
    /// Well-formedness of the snapshot (shape of the data, machine bounds).
    spec fn wf(&self) -> bool;

    /// Upper bound on the remaining search depth below this snapshot;
    /// every successor must strictly decrease it.
    spec fn measure(&self) -> nat;

    /// A hereditary property: it survives every step the engine takes
    /// (see `step_inv`), so it holds of any solution grown from a
    /// snapshot that had it.
    spec fn inv(&self) -> bool;

    /// `self` was grown from `ancestor` by zero or more placements.
    spec fn extends(&self, ancestor: &Self) -> bool;

    /// What `is_valid` decides.
    spec fn spec_valid(&self) -> bool;

    /// What `is_goal` decides.
    spec fn spec_goal(&self) -> bool;

    /// Whether a depth-first search below this snapshot (pruning
    /// successors that fail `spec_valid`) can reach a goal.
    spec fn spec_solvable(&self) -> bool;

    /// Exact description of the successor list `successors` returns.
    spec fn successors_post(&self, succs: Seq<Self>) -> bool;

    /// Every immediate extension of the current state by exactly one
    /// placement, in the implementation's documented order. It does not
    /// filter for validity; that is the engine's job.
    fn successors(&self) -> (succs: Vec<Self>)
        requires
            self.wf(),
        ensures
            self.successors_post(succs@),
            forall|i: int|
                0 <= i < succs@.len() ==> (#[trigger] succs@[i]).wf()
                    && succs@[i].measure() < self.measure() && succs@[i].extends(self),
    ;

    /// Whether the most recent placement is consistent with the rest of
    /// the state.
    fn is_valid(&self) -> (r: bool)
        requires
            self.wf(),
        ensures
            r == self.spec_valid(),
    ;

    /// Whether the state is a complete solution; a goal is also valid.
    fn is_goal(&self) -> (r: bool)
        requires
            self.wf(),
        ensures
            r == self.spec_goal(),
    ;

    /// A goal state is valid and trivially solvable.
    proof fn goal_ok(&self)
        requires
            self.wf(),
            self.spec_goal(),
        ensures
            self.spec_valid(),
            self.spec_solvable(),
    ;

    /// A valid, solvable successor makes the parent solvable.
    proof fn step_solvable(&self, succs: Seq<Self>, i: int)
        requires
            self.wf(),
            self.successors_post(succs),
            0 <= i < succs.len(),
            succs[i].spec_valid(),
            succs[i].spec_solvable(),
        ensures
            self.spec_solvable(),
    ;

    /// If the state is no goal and every successor is invalid or
    /// unsolvable, the state is unsolvable.
    proof fn exhausted_unsolvable(&self, succs: Seq<Self>)
        requires
            self.wf(),
            !self.spec_goal(),
            self.successors_post(succs),
            forall|i: int|
                0 <= i < succs.len() ==> !((#[trigger] succs[i]).spec_valid()
                    && succs[i].spec_solvable()),
        ensures
            !self.spec_solvable(),
    ;

    /// The hereditary property passes from a parent to each valid
    /// successor.
    proof fn step_inv(&self, succs: Seq<Self>, i: int)
        requires
            self.wf(),
            self.inv(),
            self.successors_post(succs),
            0 <= i < succs.len(),
            succs[i].spec_valid(),
        ensures
            succs[i].inv(),
    ;

    /// `extends` is reflexive.
    proof fn extends_refl(&self)
        ensures
            self.extends(self),
    ;

    /// `extends` is transitive.
    proof fn extends_trans(a: Self, b: Self, c: Self)
        requires
            b.extends(&a),
            c.extends(&b),
        ensures
            c.extends(&a),
    ;
}

/// Solve the backtracking problem by exhaustive depth-first search with
/// pruning, starting from `config`.
///
/// The first goal found (in the order `successors` produces children) is
/// returned at once; `None` means the whole subtree below `config` holds
/// no goal. A returned solution is a goal state grown from `config`, and
/// it inherits the hereditary property `inv` when `config` has it.
pub fn solve<C: Config>(config: C) -> (r: Option<C>)
    requires
        config.wf(),
    ensures
        match r {
            Some(solution) => solution.wf() && solution.spec_goal() && solution.spec_valid()
                && solution.extends(&config) && config.spec_solvable() && (config.inv()
                ==> solution.inv()),
            None => !config.spec_solvable(),
        },
    decreases config.measure(),
{
    // Return once we found the goal
    if config.is_goal() {
        proof {
            config.goal_ok();
            config.extends_refl();
        }
        return Some(config);
    }
    // Search the successors for the goal
    let mut succs = config.successors();
    let ghost all = succs@;
    let ghost mut k: int = 0;
    while succs.len() > 0
        invariant
            config.wf(),
            !config.spec_goal(),
            config.successors_post(all),
            forall|i: int|
                0 <= i < all.len() ==> (#[trigger] all[i]).wf()
                    && all[i].measure() < config.measure() && all[i].extends(&config),
            0 <= k <= all.len(),
            succs@ == all.subrange(k, all.len() as int),
            forall|j: int|
                0 <= j < k ==> !((#[trigger] all[j]).spec_valid() && all[j].spec_solvable()),
        decreases succs.len(),
    {
        let child = succs.remove(0);
        let ghost child_snap = child;
        proof {
            assert(child == all[k]);
            assert(succs@ =~= all.subrange(k + 1, all.len() as int));
        }
        // The config must be valid for it to be the goal
        if child.is_valid() {
            // Check if the config leads to a solution
            match solve(child) {
                Some(solution) => {
                    proof {
                        config.step_solvable(all, k);
                        if config.inv() {
                            config.step_inv(all, k);
                        }
                        C::extends_trans(config, child_snap, solution);
                    }
                    return Some(solution);
                },
                None => {
                    proof {
                        k = k + 1;
                    }
                },
            }
        } else {
            proof {
                k = k + 1;
            }
        }
    }
    // No successor leads to a solution, prune this subtree
    proof {
        config.exhausted_unsolvable(all);
    }
    None
}

} // verus!
