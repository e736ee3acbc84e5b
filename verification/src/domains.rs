//! The variable store the propagator reads and prunes: domains, predicates,
//! posting with explanations, and the trail of changes.

use vstd::prelude::*;

verus! {

/// Whether the values of a sequence strictly increase.
pub open spec fn strictly_sorted(s: Seq<i32>) -> bool {
    forall|i: int, j: int| 0 <= i < j < s.len() ==> s[i] < s[j]
}

/// One post of a sequence: from the domains before it, the predicate to post,
/// its reason and its inference code.
pub type PostStep = spec_fn(Domains) -> (Predicate, Seq<Predicate>, InferenceCode);

/// One step of a sequence of changes: whether it may turn the first domains
/// into the second with the given result.
pub type StepRelation = spec_fn(Domains, Domains, Result<(), Conflict>) -> bool;

/// The comparison of an atomic predicate on an integer variable.
#[derive(Debug, Clone, Copy, PartialEq, Eq, Structural)]
pub enum Comparison {
    Equal,
    NotEqual,
    GreaterEqual,
    LessEqual,
}

/// An atomic predicate `[variable comparison value]`.
#[derive(Debug, Clone, Copy, PartialEq, Eq, Structural)]
pub struct Predicate {
    pub variable: usize,
    pub comparison: Comparison,
    pub value: i32,
}

impl Predicate {
    /// Whether the predicate holds when its variable takes the value `x`.
    pub open spec fn holds(self, x: i32) -> bool {
        match self.comparison {
            Comparison::Equal => x == self.value,
            Comparison::NotEqual => x != self.value,
            Comparison::GreaterEqual => x >= self.value,
            Comparison::LessEqual => x <= self.value,
        }
    }

    /// Whether the predicate holds when its variable takes the value `x`.
    pub fn is_satisfied_by(&self, x: i32) -> (b: bool)
        ensures
            b == self.holds(x),
    {
        match self.comparison {
            Comparison::Equal => x == self.value,
            Comparison::NotEqual => x != self.value,
            Comparison::GreaterEqual => x >= self.value,
            Comparison::LessEqual => x <= self.value,
        }
    }
}

/// The predicate `[variable == value]`.
pub open spec fn equals(variable: usize, value: i32) -> Predicate {
    Predicate { variable, comparison: Comparison::Equal, value }
}

/// The predicate `[variable != value]`.
pub open spec fn not_equals(variable: usize, value: i32) -> Predicate {
    Predicate { variable, comparison: Comparison::NotEqual, value }
}

/// The rule by which an inference was made.
#[derive(Debug, Clone, Copy, PartialEq, Eq, Structural)]
pub enum InferenceLabel {
    CircuitPrevent,
    StrongBridge,
    SCCCheck,
}

/// Identifies a constraint together with the rule that made an inference.
#[derive(Debug, Clone, Copy, PartialEq, Eq, Structural)]
pub struct InferenceCode {
    pub constraint_tag: u32,
    pub label: InferenceLabel,
}

/// A propagated predicate together with its reason.
#[derive(Debug)]
pub struct Inference {
    pub predicate: Predicate,
    pub reason: Vec<Predicate>,
    pub code: InferenceCode,
}

/// Why propagation failed.
#[derive(Debug)]
pub enum Conflict {
    /// The propagator found that no solution exists; the conjunction explains why.
    Propagator { conjunction: Vec<Predicate>, code: InferenceCode },
    /// Posting `predicate` would leave its variable without values.
    EmptyDomain { predicate: Predicate, reason: Vec<Predicate>, code: InferenceCode },
}

/// The domains of a set of integer variables, each a finite set of values that
/// only shrinks, together with the initial domains and the trail of inferences
/// that shrank them.
pub struct Domains {
    current: Vec<Vec<i32>>,
    initial: Vec<Vec<i32>>,
    trail: Vec<Inference>,
}

impl Domains {
    /// The number of variables.
    pub closed spec fn num_vars(&self) -> nat {
        self.current@.len()
    }

    /// The current values of `var`, in increasing order.
    pub closed spec fn values(&self, var: int) -> Seq<i32> {
        self.current@[var]@
    }

    /// The values of `var` when it was created, in increasing order.
    pub closed spec fn initial_values(&self, var: int) -> Seq<i32> {
        self.initial@[var]@
    }

    /// The inferences made so far, oldest first.
    pub closed spec fn inferences(&self) -> Seq<Inference> {
        self.trail@
    }

    /// The value of `var` if its domain holds exactly one value.
    pub open spec fn fixed(&self, var: int) -> Option<i32> {
        if self.values(var).len() == 1 {
            Some(self.values(var)[0])
        } else {
            None
        }
    }

    /// Every domain is sorted, non-empty, and a subset of its initial domain.
    pub closed spec fn wf(&self) -> bool {
        &&& self.current@.len() == self.initial@.len()
        &&& forall|var: int|
            0 <= var < self.current@.len() ==> {
                &&& strictly_sorted(#[trigger] self.current@[var]@)
                &&& strictly_sorted(self.initial@[var]@)
                &&& self.current@[var]@.len() >= 1
                &&& forall|k: int|
                    0 <= k < self.current@[var]@.len() ==> self.initial@[var]@.contains(
                        #[trigger] self.current@[var]@[k],
                    )
            }
    }

    /// What `wf` states, in terms of the public views.
    pub proof fn lemma_wf(&self)
        requires
            self.wf(),
        ensures
            forall|var: int|
                0 <= var < self.num_vars() ==> {
                    &&& strictly_sorted(#[trigger] self.values(var))
                    &&& strictly_sorted(self.initial_values(var))
                    &&& self.values(var).len() >= 1
                    &&& forall|x: i32| #[trigger]
                        self.values(var).contains(x) ==> self.initial_values(var).contains(x)
                },
    {
        assert forall|var: int| 0 <= var < self.num_vars() implies {
            &&& strictly_sorted(#[trigger] self.values(var))
            &&& strictly_sorted(self.initial_values(var))
            &&& self.values(var).len() >= 1
            &&& forall|x: i32| #[trigger]
                self.values(var).contains(x) ==> self.initial_values(var).contains(x)
        } by {
            assert forall|x: i32| #[trigger]
                self.values(var).contains(x) implies self.initial_values(var).contains(x) by {
                let k = choose|k: int| 0 <= k < self.values(var).len() && self.values(var)[k] == x;
                assert(self.initial@[var]@.contains(self.current@[var]@[k]));
            }
        }
    }

    /// What posting `predicate` with `reason` and `code` on `old` gives: the
    /// values of its variable for which it fails are removed, unless none would
    /// be left, which is a conflict that changes nothing; a post that removes
    /// values is recorded on the trail, one that removes nothing is not.
    pub open spec fn posted(
        old: Domains,
        new: Domains,
        predicate: Predicate,
        reason: Seq<Predicate>,
        code: InferenceCode,
        r: Result<(), Conflict>,
    ) -> bool {
        let var = predicate.variable as int;
        &&& new.wf()
        &&& new.num_vars() == old.num_vars()
        &&& forall|v: int| 0 <= v < old.num_vars() ==> #[trigger] new.initial_values(v) == old.initial_values(v)
        &&& forall|v: int| 0 <= v < old.num_vars() && v != var ==> #[trigger] new.values(v) == old.values(v)
        &&& (r is Err <==> forall|x: i32| #[trigger] old.values(var).contains(x) ==> !predicate.holds(x))
        &&& r is Err ==> {
            &&& new.values(var) == old.values(var)
            &&& new.inferences() == old.inferences()
            &&& r matches Err(Conflict::EmptyDomain { predicate: p, reason: rs, code: c }) && p == predicate && rs@ == reason && c == code
        }
        &&& r is Ok ==> forall|x: i32| #[trigger] new.values(var).contains(x) <==> (old.values(var).contains(x) && predicate.holds(x))
        &&& r is Ok ==> if exists|x: i32| #[trigger] old.values(var).contains(x) && !predicate.holds(x) {
            &&& new.inferences().len() == old.inferences().len() + 1
            &&& new.inferences().drop_last() == old.inferences()
            &&& new.inferences().last().predicate == predicate
            &&& new.inferences().last().reason@ == reason
            &&& new.inferences().last().code == code
        } else {
            new.values(var) == old.values(var) && new.inferences() == old.inferences()
        }
    }

    /// `new` arises from `old` by removing values: same variables, same initial
    /// domains, every domain a subset of the old one, and the old trail a prefix
    /// of the new one.
    pub open spec fn shrinks_to(old: Domains, new: Domains) -> bool {
        &&& new.wf()
        &&& new.num_vars() == old.num_vars()
        &&& forall|v: int| 0 <= v < old.num_vars() ==> #[trigger] new.initial_values(v) == old.initial_values(v)
        &&& forall|v: int, x: i32| 0 <= v < old.num_vars() && #[trigger] new.values(v).contains(x) ==> old.values(v).contains(x)
        &&& old.inferences().len() <= new.inferences().len()
        &&& new.inferences().subrange(0, old.inferences().len() as int) == old.inferences()
    }

    /// A post shrinks the domains.
    pub proof fn lemma_posted_shrinks(
        old: Domains,
        new: Domains,
        predicate: Predicate,
        reason: Seq<Predicate>,
        code: InferenceCode,
        r: Result<(), Conflict>,
    )
        requires
            Domains::posted(old, new, predicate, reason, code, r),
        ensures
            Domains::shrinks_to(old, new),
    {
        if new.inferences().len() == old.inferences().len() + 1 && new.inferences().drop_last() == old.inferences() {
            assert(new.inferences().subrange(0, old.inferences().len() as int) =~= new.inferences().drop_last());
        } else {
            assert(new.inferences().subrange(0, old.inferences().len() as int) =~= new.inferences());
        }
        assert forall|v: int, x: i32| 0 <= v < old.num_vars() && #[trigger] new.values(v).contains(x) implies old.values(v).contains(x) by {
            if v == predicate.variable as int && r is Ok {
            }
        }
    }

    /// Shrinking is reflexive.
    pub proof fn lemma_shrinks_refl(d: Domains)
        requires
            d.wf(),
        ensures
            Domains::shrinks_to(d, d),
    {
        assert(d.inferences().subrange(0, d.inferences().len() as int) =~= d.inferences());
    }

    /// Shrinking keeps an assigned variable assigned to the same value.
    pub proof fn lemma_fixed_kept(old: Domains, new: Domains, var: int)
        requires
            Domains::shrinks_to(old, new),
            0 <= var < old.num_vars(),
            old.fixed(var) is Some,
        ensures
            new.fixed(var) == old.fixed(var),
    {
        new.lemma_wf();
        let vals = new.values(var);
        let x = old.values(var)[0];
        assert forall|y: i32| #[trigger] vals.contains(y) implies y == x by {
            assert(old.values(var).contains(y));
        }
        assert(vals.contains(vals[0]));
        if vals.len() >= 2 {
            assert(vals.contains(vals[1]));
            assert(vals[0] < vals[1]);
        }
    }

    /// Shrinking is transitive.
    pub proof fn lemma_shrinks_trans(a: Domains, b: Domains, c: Domains)
        requires
            Domains::shrinks_to(a, b),
            Domains::shrinks_to(b, c),
        ensures
            Domains::shrinks_to(a, c),
    {
        assert(c.inferences().subrange(0, a.inferences().len() as int) =~= b.inferences().subrange(0, a.inferences().len() as int));
    }

    /// Whether `s` is the increasing sequence of the values strictly between
    /// the bounds of `var` that are not in its domain.
    pub open spec fn is_hole_sequence(&self, var: int, s: Seq<i32>) -> bool {
        &&& strictly_sorted(s)
        &&& forall|x: i32| #[trigger] s.contains(x) <==> (self.values(var)[0] < x < self.values(var).last() && !self.values(var).contains(x))
    }

    /// The values strictly between the bounds of `var` that are not in its
    /// domain, in increasing order.
    pub open spec fn holes(&self, var: int) -> Seq<i32> {
        choose|s: Seq<i32>| self.is_hole_sequence(var, s)
    }

    /// Every domain has its sequence of holes.
    pub proof fn lemma_holes(&self, var: int)
        requires
            self.wf(),
            0 <= var < self.num_vars(),
        ensures
            self.is_hole_sequence(var, self.holes(var)),
    {
        self.lemma_wf();
        let vals = self.values(var);
        let lo = vals[0] + 1;
        let hi = vals.last() as int;
        lemma_missing_values(lo, hi, vals);
        assert(self.is_hole_sequence(var, missing_values(lo, hi, vals)));
    }

    /// Posting what `step` computes from `old`.
    pub open spec fn posted_step(old: Domains, new: Domains, step: PostStep, r: Result<(), Conflict>) -> bool {
        let (p, rs, c) = step(old);
        Domains::posted(old, new, p, rs, c, r)
    }

    /// The step that makes the post `step` computes.
    pub open spec fn post_step(step: PostStep) -> StepRelation {
        |a: Domains, b: Domains, r: Result<(), Conflict>| Domains::posted_step(a, b, step, r)
    }

    /// `states` are the domains before the steps `steps` and after each step
    /// that was taken, in order from `d0` to `d`: every step but the last
    /// succeeded, the last had the result `r`, and all steps were taken unless
    /// one failed; an error is always the result of a step taken.
    pub open spec fn run(d0: Domains, steps: Seq<StepRelation>, states: Seq<Domains>, d: Domains, r: Result<(), Conflict>) -> bool {
        let m = states.len() - 1;
        &&& 1 <= states.len() <= steps.len() + 1
        &&& states[0] == d0
        &&& states.last() == d
        &&& forall|i: int| #![trigger steps[i]] 0 <= i < m - 1 ==> (steps[i])(states[i], states[i + 1], Ok(()))
        &&& m >= 1 ==> (steps[m - 1])(states[m - 1], states[m], r)
        &&& r is Ok ==> m == steps.len()
        &&& r is Err ==> m >= 1
    }

    /// The outcome of the steps `steps`, taken in order from `d0`; the first
    /// conflict ends the sequence.
    pub open spec fn applied(d0: Domains, steps: Seq<StepRelation>, d: Domains, r: Result<(), Conflict>) -> bool {
        exists|states: Seq<Domains>| #[trigger] Domains::run(d0, steps, states, d, r)
    }

    /// The `k`-th of the steps `steps` from `d0` is the one that failed, with
    /// the result `r` and the domains `d`.
    pub open spec fn fails_at(d0: Domains, steps: Seq<StepRelation>, k: int, d: Domains, r: Result<(), Conflict>) -> bool {
        &&& 1 <= k <= steps.len()
        &&& r is Err
        &&& exists|dm: Domains| #[trigger] Domains::applied(d0, steps.take(k - 1), dm, Ok(())) && (steps[k - 1])(dm, d, r)
    }

    /// No posts leave the domains as they are.
    pub proof fn lemma_run_empty(d0: Domains)
        ensures
            Domains::run(d0, Seq::<StepRelation>::empty(), seq![d0], d0, Ok(())),
    {
    }

    /// Making one more post after successful ones.
    pub proof fn lemma_run_push(d0: Domains, steps: Seq<StepRelation>, states: Seq<Domains>, step: StepRelation, dm: Domains, d: Domains, r: Result<(), Conflict>)
        requires
            Domains::run(d0, steps, states, dm, Ok(())),
            step(dm, d, r),
        ensures
            Domains::run(d0, steps.push(step), states.push(d), d, r),
    {
        let s2 = steps.push(step);
        let t2 = states.push(d);
        let m = states.len() - 1;
        assert forall|i: int| #![trigger s2[i]] 0 <= i < m ==> (s2[i])(t2[i], t2[i + 1], Ok(())) by {
            if 0 <= i < m {
                if i < m - 1 {
                    assert(steps[i] == s2[i]);
                } else {
                    assert(steps[m - 1] == s2[i]);
                }
            }
        }
        assert(t2[m + 1] == d);
        assert(t2[m] == dm);
    }

    /// After a conflict, further posts are not made.
    pub proof fn lemma_run_stopped(d0: Domains, steps: Seq<StepRelation>, states: Seq<Domains>, step: StepRelation, d: Domains, r: Result<(), Conflict>)
        requires
            Domains::run(d0, steps, states, d, r),
            r is Err,
        ensures
            Domains::run(d0, steps.push(step), states, d, r),
    {
        let s2 = steps.push(step);
        let m = states.len() - 1;
        assert forall|i: int| #![trigger s2[i]] 0 <= i < m - 1 ==> (s2[i])(states[i], states[i + 1], Ok(())) by {
            if 0 <= i < m - 1 {
                assert(steps[i] == s2[i]);
            }
        }
        if m >= 1 {
            assert(steps[m - 1] == s2[m - 1]);
        }
    }

    /// After a conflict, none of the remaining posts is made.
    pub proof fn lemma_run_stopped_rest(d0: Domains, steps: Seq<StepRelation>, k: int, states: Seq<Domains>, d: Domains, r: Result<(), Conflict>)
        requires
            0 <= k <= steps.len(),
            Domains::run(d0, steps.take(k), states, d, r),
            r is Err,
        ensures
            Domains::run(d0, steps, states, d, r),
        decreases steps.len() - k,
    {
        if k == steps.len() {
            assert(steps.take(k) =~= steps);
        } else {
            Self::lemma_run_stopped(d0, steps.take(k), states, steps[k], d, r);
            assert(steps.take(k).push(steps[k]) =~= steps.take(k + 1));
            Self::lemma_run_stopped_rest(d0, steps, k + 1, states, d, r);
        }
    }

    /// A store without variables.
    pub fn new() -> (d: Self)
        ensures
            d.wf(),
            d.num_vars() == 0,
            d.inferences() == Seq::<Inference>::empty(),
    {
        Domains { current: Vec::new(), initial: Vec::new(), trail: Vec::new() }
    }

    /// The number of variables.
    pub fn num_variables(&self) -> (n: usize)
        ensures
            n == self.num_vars(),
    {
        self.current.len()
    }

    /// Adds a variable whose domain is `values` (in any order, repeats allowed)
    /// and returns its index.
    pub fn new_sparse_variable(&mut self, values: Vec<i32>) -> (var: usize)
        requires
            old(self).wf(),
            values.len() >= 1,
            old(self).num_vars() < usize::MAX,
        ensures
            final(self).wf(),
            var == old(self).num_vars(),
            final(self).num_vars() == old(self).num_vars() + 1,
            forall|v: int|
                0 <= v < old(self).num_vars() ==> final(self).values(v) == old(self).values(v)
                    && final(self).initial_values(v) == old(self).initial_values(v),
            strictly_sorted(final(self).values(var as int)),
            forall|x: i32| #[trigger]
                final(self).values(var as int).contains(x) <==> values@.contains(x),
            final(self).initial_values(var as int) == final(self).values(var as int),
            final(self).inferences() == old(self).inferences(),
    {
        let mut sorted: Vec<i32> = Vec::new();
        let mut i: usize = 0;
        while i < values.len()
            invariant
                i <= values.len(),
                strictly_sorted(sorted@),
                forall|x: i32| #[trigger]
                    sorted@.contains(x) <==> values@.subrange(0, i as int).contains(x),
            decreases values.len() - i,
        {
            insert_sorted(&mut sorted, values[i]);
            proof {
                let ghost pre = values@.subrange(0, i as int);
                let ghost post = values@.subrange(0, i + 1);
                assert(post == pre.push(values@[i as int]));
                assert forall|x: i32| #[trigger] sorted@.contains(x) <==> post.contains(x) by {
                    if post.contains(x) {
                        let k = choose|k: int| 0 <= k < post.len() && post[k] == x;
                        if k < i {
                            assert(pre[k] == x);
                        }
                    }
                    if pre.contains(x) {
                        let k = choose|k: int| 0 <= k < pre.len() && pre[k] == x;
                        assert(post[k] == x);
                    }
                    if x == values@[i as int] {
                        assert(post[i as int] == x);
                    }
                }
            }
            i = i + 1;
        }
        assert(values@.subrange(0, values.len() as int) == values@);
        assert(values@.contains(values@[0]));
        assert(sorted@.contains(values@[0]));
        let var = self.current.len();
        let copy = copy_values(&sorted);
        let ghost s = sorted@;
        self.current.push(sorted);
        self.initial.push(copy);
        proof {
            assert(self.current@[var as int]@ == s);
            assert(self.current@[var as int]@ == self.initial@[var as int]@);
            assert forall|v: int| 0 <= v < self.current@.len() implies {
                &&& strictly_sorted(#[trigger] self.current@[v]@)
                &&& strictly_sorted(self.initial@[v]@)
                &&& self.current@[v]@.len() >= 1
                &&& forall|k: int|
                    0 <= k < self.current@[v]@.len() ==> self.initial@[v]@.contains(
                        #[trigger] self.current@[v]@[k],
                    )
            } by {
                if v == var {
                    assert forall|k: int| 0 <= k < self.current@[v]@.len() implies self.initial@[v]@.contains(
                        #[trigger] self.current@[v]@[k],
                    ) by {
                        assert(self.initial@[v]@[k] == self.current@[v]@[k]);
                    }
                } else {
                    assert(self.current@[v] == old(self).current@[v]);
                    assert(self.initial@[v] == old(self).initial@[v]);
                    assert(strictly_sorted(old(self).current@[v]@));
                }
            }
        }
        var
    }

    /// Adds a variable whose domain is the interval `[lower, upper]` and
    /// returns its index.
    pub fn new_interval_variable(&mut self, lower: i32, upper: i32) -> (var: usize)
        requires
            old(self).wf(),
            lower <= upper,
            old(self).num_vars() < usize::MAX,
        ensures
            final(self).wf(),
            var == old(self).num_vars(),
            final(self).num_vars() == old(self).num_vars() + 1,
            forall|v: int|
                0 <= v < old(self).num_vars() ==> final(self).values(v) == old(self).values(v)
                    && final(self).initial_values(v) == old(self).initial_values(v),
            strictly_sorted(final(self).values(var as int)),
            forall|x: i32| #[trigger]
                final(self).values(var as int).contains(x) <==> lower <= x <= upper,
            final(self).initial_values(var as int) == final(self).values(var as int),
            final(self).inferences() == old(self).inferences(),
    {
        let mut values: Vec<i32> = Vec::new();
        let mut x: i32 = lower;
        values.push(x);
        while x < upper
            invariant
                lower <= x <= upper,
                values@.len() == x - lower + 1,
                forall|k: int| 0 <= k < values@.len() ==> #[trigger] values@[k] == lower + k,
            decreases upper - x,
        {
            x = x + 1;
            values.push(x);
        }
        assert(values@.len() == upper - lower + 1);
        let ghost vals = values@;
        assert forall|x: i32| #[trigger] vals.contains(x) <==> lower <= x <= upper by {
            if lower <= x <= upper {
                assert(vals[x - lower] == x);
            }
        }
        let var = self.new_sparse_variable(values);
        var
    }

    /// The inferences made so far, oldest first.
    pub fn trail(&self) -> (t: &Vec<Inference>)
        ensures
            t@ == self.inferences(),
    {
        &self.trail
    }

    /// The number of values in the domain of `var`.
    pub fn size(&self, var: usize) -> (s: usize)
        requires
            var < self.num_vars(),
        ensures
            s == self.values(var as int).len(),
    {
        self.current[var].len()
    }

    /// The value of `var` if its domain holds exactly one value.
    pub fn fixed_value(&self, var: usize) -> (r: Option<i32>)
        requires
            var < self.num_vars(),
        ensures
            r == self.fixed(var as int),
    {
        if self.current[var].len() == 1 {
            Some(self.current[var][0])
        } else {
            None
        }
    }

    /// Whether `value` is in the domain of `var`.
    pub fn contains(&self, var: usize, value: i32) -> (b: bool)
        requires
            var < self.num_vars(),
        ensures
            b == self.values(var as int).contains(value),
    {
        let dom = &self.current[var];
        let mut k: usize = 0;
        while k < dom.len()
            invariant
                k <= dom@.len(),
                dom@ == self.values(var as int),
                forall|j: int| 0 <= j < k ==> dom@[j] != value,
            decreases dom@.len() - k,
        {
            if dom[k] == value {
                assert(self.values(var as int)[k as int] == value);
                return true;
            }
            k = k + 1;
        }
        false
    }

    /// The values of `var`, in increasing order.
    pub fn iterate_domain(&self, var: usize) -> (r: Vec<i32>)
        requires
            var < self.num_vars(),
        ensures
            r@ == self.values(var as int),
    {
        copy_values(&self.current[var])
    }

    /// The initial values of `var`, in increasing order.
    pub fn iterate_initial_domain(&self, var: usize) -> (r: Vec<i32>)
        requires
            self.wf(),
            var < self.num_vars(),
        ensures
            r@ == self.initial_values(var as int),
    {
        copy_values(&self.initial[var])
    }

    /// The smallest value of `var`.
    pub fn lower_bound(&self, var: usize) -> (lb: i32)
        requires
            self.wf(),
            var < self.num_vars(),
        ensures
            lb == self.values(var as int)[0],
    {
        self.current[var][0]
    }

    /// The largest value of `var`.
    pub fn upper_bound(&self, var: usize) -> (ub: i32)
        requires
            self.wf(),
            var < self.num_vars(),
        ensures
            ub == self.values(var as int).last(),
    {
        let dom = &self.current[var];
        dom[dom.len() - 1]
    }

    /// The values strictly between the bounds of `var` that are not in its
    /// domain, in increasing order.
    pub fn get_holes(&self, var: usize) -> (holes: Vec<i32>)
        requires
            self.wf(),
            var < self.num_vars(),
        ensures
            self.is_hole_sequence(var as int, holes@),
            holes@ == self.holes(var as int),
    {
        let dom = &self.current[var];
        let ghost d = dom@;
        let mut holes: Vec<i32> = Vec::new();
        let mut k: usize = 1;
        while k < dom.len()
            invariant
                1 <= k <= d.len(),
                d == dom@,
                strictly_sorted(d),
                strictly_sorted(holes@),
                forall|x: i32| #[trigger]
                    holes@.contains(x) <==> (d[0] < x < d[k - 1] && !d.contains(x)),
                holes@.len() > 0 ==> holes@.last() < d[k - 1],
            decreases d.len() - k,
        {
            let lo = dom[k - 1];
            let hi = dom[k];
            let mut x: i32 = lo + 1;
            while x < hi
                invariant
                    lo < x <= hi,
                    lo == d[k - 1],
                    hi == d[k as int],
                    1 <= k < d.len(),
                    strictly_sorted(d),
                    strictly_sorted(holes@),
                    forall|y: i32| #[trigger]
                        holes@.contains(y) <==> ((d[0] < y < d[k - 1] && !d.contains(y)) || (lo
                            < y < x)),
                    holes@.len() > 0 ==> holes@.last() < x,
                decreases hi - x,
            {
                proof {
                    lemma_push_contains(holes@, x);
                }
                holes.push(x);
                x = x + 1;
            }
            proof {
                assert forall|y: i32| #[trigger]
                    holes@.contains(y) <==> (d[0] < y < d[k as int] && !d.contains(y)) by {
                    if lo < y < hi {
                        if d.contains(y) {
                            let j = choose|j: int| 0 <= j < d.len() && d[j] == y;
                            if j < k {
                                assert(d[j] <= d[k - 1]);
                            } else if j > k {
                                assert(d[k as int] < d[j]);
                            }
                        }
                    }
                    if d[0] < y < d[k as int] && !d.contains(y) && !(lo < y < hi) {
                        if y >= hi {
                        } else {
                            assert(y < d[k - 1] || y == d[k - 1]);
                            assert(d.contains(d[k - 1]));
                        }
                    }
                }
            }
            k = k + 1;
        }
        proof {
            assert(self.is_hole_sequence(var as int, holes@));
            let h = self.holes(var as int);
            assert(self.is_hole_sequence(var as int, h));
            lemma_sorted_same_elements(holes@, h);
        }
        holes
    }

    /// Posts `predicate` with its `reason`: the values of its variable for which
    /// it fails are removed. Fails, changing nothing, where no value would be
    /// left; a post that removes nothing is not recorded.
    pub fn post(&mut self, predicate: Predicate, reason: Vec<Predicate>, code: InferenceCode) -> (r:
        Result<(), Conflict>)
        requires
            old(self).wf(),
            predicate.variable < old(self).num_vars(),
        ensures
            Domains::posted(*old(self), *final(self), predicate, reason@, code, r),
    {
        let ghost rs = reason@;
        let var = predicate.variable;
        let ghost old_dom = self.current@[var as int]@;
        let mut kept: Vec<i32> = Vec::new();
        let mut k: usize = 0;
        let len = self.current[var].len();
        while k < len
            invariant
                k <= len,
                len == old_dom.len(),
                var < self.current@.len(),
                self.current@[var as int]@ == old_dom,
                strictly_sorted(old_dom),
                strictly_sorted(kept@),
                kept@.len() <= k,
                kept@.len() > 0 ==> exists|j: int| 0 <= j < k && kept@.last() == old_dom[j],
                forall|x: i32| #[trigger]
                    kept@.contains(x) <==> (old_dom.subrange(0, k as int).contains(x)
                        && predicate.holds(x)),
            decreases len - k,
        {
            let x = self.current[var][k];
            proof {
                let ghost pre = old_dom.subrange(0, k as int);
                assert(old_dom.subrange(0, k + 1) == pre.push(x));
                if kept@.len() > 0 {
                    let j = choose|j: int| 0 <= j < k && kept@.last() == old_dom[j];
                    assert(old_dom[j] < old_dom[k as int]);
                }
            }
            let ghost old_kept = kept@;
            if predicate.is_satisfied_by(x) {
                kept.push(x);
            }
            proof {
                let ghost pre = old_dom.subrange(0, k as int);
                lemma_push_contains(pre, x);
                lemma_push_contains(old_kept, x);
                if kept@.len() > 0 {
                    assert(exists|j: int| 0 <= j < k + 1 && kept@.last() == old_dom[j]);
                }
            }
            k = k + 1;
        }
        assert(old_dom.subrange(0, len as int) == old_dom);
        if kept.len() == 0 {
            proof {
                assert forall|x: i32| #[trigger] old_dom.contains(x) implies !predicate.holds(x) by {
                    if predicate.holds(x) {
                        assert(kept@.contains(x));
                    }
                }
            }
            return Err(Conflict::EmptyDomain { predicate, reason, code });
        }
        proof {
            if exists|x: i32| #[trigger] old_dom.contains(x) && !predicate.holds(x) {
            } else {
                lemma_sorted_same_elements(kept@, old_dom);
            }
        }
        assert(kept@.contains(kept@[0]));
        assert(old(self).values(var as int).contains(kept@[0]) && predicate.holds(kept@[0]));
        if kept.len() == len {
            proof {
                if exists|x: i32| #[trigger] old_dom.contains(x) && !predicate.holds(x) {
                    let x = choose|x: i32| #[trigger] old_dom.contains(x) && !predicate.holds(x);
                    lemma_sorted_subset_len(kept@, old_dom, x);
                }
            }
            return Ok(());
        }
        proof {
            if forall|x: i32| #[trigger] old_dom.contains(x) ==> predicate.holds(x) {
                lemma_sorted_same_elements(kept@, old_dom);
            }
            let ghost d = self.initial@[var as int]@;
            assert forall|j: int| 0 <= j < kept@.len() implies d.contains(#[trigger] kept@[j]) by {
                assert(kept@.contains(kept@[j]));
                let i = choose|i: int| 0 <= i < old_dom.len() && old_dom[i] == kept@[j];
                assert(self.initial@[var as int]@.contains(self.current@[var as int]@[i]));
            }
        }
        let ghost old_current = self.current@;
        self.current.set(var, kept);
        self.trail.push(Inference { predicate, reason, code });
        proof {
            assert(self.trail@.drop_last() =~= old(self).trail@);
            assert forall|v: int| 0 <= v < self.current@.len() implies {
                &&& strictly_sorted(#[trigger] self.current@[v]@)
                &&& strictly_sorted(self.initial@[v]@)
                &&& self.current@[v]@.len() >= 1
                &&& forall|k: int|
                    0 <= k < self.current@[v]@.len() ==> self.initial@[v]@.contains(
                        #[trigger] self.current@[v]@[k],
                    )
            } by {
                if v != var {
                    assert(self.current@[v] == old_current[v]);
                }
            }
        }
        Ok(())
    }
}

/// Two strictly sorted sequences with the same elements are equal.
proof fn lemma_sorted_same_elements(a: Seq<i32>, b: Seq<i32>)
    requires
        strictly_sorted(a),
        strictly_sorted(b),
        forall|x: i32| #[trigger] a.contains(x) <==> b.contains(x),
    ensures
        a == b,
    decreases a.len() + b.len(),
{
    if a.len() == 0 {
        if b.len() > 0 {
            assert(b.contains(b[0]));
            assert(a.contains(b[0]));
        }
        assert(a =~= b);
    } else if b.len() == 0 {
        assert(a.contains(a[0]));
    } else {
        let la = a.last();
        let lb = b.last();
        assert(a.contains(la));
        assert(b.contains(lb));
        assert(b.contains(la));
        assert(a.contains(lb));
        let i = choose|i: int| 0 <= i < b.len() && b[i] == la;
        let j = choose|j: int| 0 <= j < a.len() && a[j] == lb;
        assert(la == lb) by {
            if la < lb {
                if j < a.len() - 1 {
                    assert(a[j] < a[a.len() - 1]);
                }
            } else if la > lb {
                if i < b.len() - 1 {
                    assert(b[i] < b[b.len() - 1]);
                }
            }
        }
        let a2 = a.drop_last();
        let b2 = b.drop_last();
        assert forall|x: i32| #[trigger] a2.contains(x) <==> b2.contains(x) by {
            if a2.contains(x) {
                let k = choose|k: int| 0 <= k < a2.len() && a2[k] == x;
                assert(a[k] < la);
                assert(a[k] == x);
                assert(a.contains(x));
                assert(b.contains(x));
                let m = choose|m: int| 0 <= m < b.len() && b[m] == x;
                assert(m != b.len() - 1);
                assert(b2[m] == x);
            }
            if b2.contains(x) {
                let k = choose|k: int| 0 <= k < b2.len() && b2[k] == x;
                assert(b[k] < lb);
                assert(b[k] == x);
                assert(b.contains(x));
                assert(a.contains(x));
                let m = choose|m: int| 0 <= m < a.len() && a[m] == x;
                assert(m != a.len() - 1);
                assert(a2[m] == x);
            }
        }
        lemma_sorted_same_elements(a2, b2);
        assert(a =~= a2.push(la));
        assert(b =~= b2.push(lb));
    }
}

/// A strictly sorted sequence whose elements are those of `b` but for `x` is
/// shorter than `b`.
/// A sorted sequence whose values a sorted sequence all holds is no longer
/// than it.
pub proof fn lemma_sorted_subset_len_le(a: Seq<i32>, b: Seq<i32>)
    requires
        strictly_sorted(a),
        strictly_sorted(b),
        forall|y: i32| #[trigger] a.contains(y) ==> b.contains(y),
    ensures
        a.len() <= b.len(),
{
    assert(a.no_duplicates()) by {
        assert forall|i: int, j: int| 0 <= i < a.len() && 0 <= j < a.len() && i != j implies a[i] != a[j] by {
            if i < j {
                assert(a[i] < a[j]);
            } else {
                assert(a[j] < a[i]);
            }
        }
    }
    assert(b.no_duplicates()) by {
        assert forall|i: int, j: int| 0 <= i < b.len() && 0 <= j < b.len() && i != j implies b[i] != b[j] by {
            if i < j {
                assert(b[i] < b[j]);
            } else {
                assert(b[j] < b[i]);
            }
        }
    }
    a.unique_seq_to_set();
    b.unique_seq_to_set();
    vstd::seq_lib::seq_to_set_is_finite(b);
    assert(a.to_set().subset_of(b.to_set()));
    vstd::set_lib::lemma_len_subset(a.to_set(), b.to_set());
}

proof fn lemma_sorted_subset_len(a: Seq<i32>, b: Seq<i32>, x: i32)
    requires
        strictly_sorted(a),
        strictly_sorted(b),
        forall|y: i32| #[trigger] a.contains(y) ==> b.contains(y),
        b.contains(x),
        !a.contains(x),
    ensures
        a.len() < b.len(),
{
    assert(a.no_duplicates()) by {
        assert forall|i: int, j: int| 0 <= i < a.len() && 0 <= j < a.len() && i != j implies a[i]
            != a[j] by {
            if i < j {
                assert(a[i] < a[j]);
            } else {
                assert(a[j] < a[i]);
            }
        }
    }
    assert(b.no_duplicates()) by {
        assert forall|i: int, j: int| 0 <= i < b.len() && 0 <= j < b.len() && i != j implies b[i]
            != b[j] by {
            if i < j {
                assert(b[i] < b[j]);
            } else {
                assert(b[j] < b[i]);
            }
        }
    }
    a.unique_seq_to_set();
    b.unique_seq_to_set();
    assert(a.to_set().subset_of(b.to_set().remove(x)));
    assert(b.to_set().contains(x));
    vstd::set_lib::lemma_len_subset(a.to_set(), b.to_set().remove(x));
}

/// The elements of `s.push(x)` are those of `s` and `x`.
/// The values from `lo` up to `hi` (exclusive) that `vals` does not hold, in
/// increasing order.
pub open spec fn missing_values(lo: int, hi: int, vals: Seq<i32>) -> Seq<i32>
    decreases hi - lo,
{
    if hi <= lo {
        Seq::empty()
    } else {
        let rest = missing_values(lo, hi - 1, vals);
        if vals.contains((hi - 1) as i32) {
            rest
        } else {
            rest.push((hi - 1) as i32)
        }
    }
}

/// `missing_values` is sorted and holds exactly the values in range that
/// `vals` lacks.
pub proof fn lemma_missing_values(lo: int, hi: int, vals: Seq<i32>)
    requires
        i32::MIN <= lo,
        hi <= i32::MAX + 1,
    ensures
        strictly_sorted(missing_values(lo, hi, vals)),
        forall|i: int| 0 <= i < missing_values(lo, hi, vals).len() ==> lo <= #[trigger] missing_values(lo, hi, vals)[i] < hi,
        forall|x: i32| #[trigger] missing_values(lo, hi, vals).contains(x) <==> (lo <= x < hi && !vals.contains(x)),
    decreases hi - lo,
{
    if hi > lo {
        lemma_missing_values(lo, hi - 1, vals);
        let rest = missing_values(lo, hi - 1, vals);
        let y = (hi - 1) as i32;
        assert(y == hi - 1);
        lemma_push_contains(rest, y);
    }
}

pub proof fn lemma_push_contains<A>(s: Seq<A>, x: A)
    ensures
        forall|y: A| #[trigger] s.push(x).contains(y) <==> (s.contains(y) || y == x),
{
    assert forall|y: A| #[trigger] s.push(x).contains(y) <==> (s.contains(y) || y == x) by {
        if s.push(x).contains(y) && y != x {
            let j = choose|j: int| 0 <= j < s.len() + 1 && s.push(x)[j] == y;
            assert(s[j] == y);
        }
        if s.contains(y) {
            let j = choose|j: int| 0 <= j < s.len() && s[j] == y;
            assert(s.push(x)[j] == y);
        }
        if y == x {
            assert(s.push(x)[s.len() as int] == y);
        }
    }
}

/// A copy of a sequence of values.
fn copy_values(v: &Vec<i32>) -> (r: Vec<i32>)
    ensures
        r@ == v@,
{
    let mut r: Vec<i32> = Vec::new();
    let mut k: usize = 0;
    while k < v.len()
        invariant
            k <= v.len(),
            r@ == v@.subrange(0, k as int),
        decreases v.len() - k,
    {
        r.push(v[k]);
        k = k + 1;
    }
    assert(v@.subrange(0, v.len() as int) == v@);
    r
}

/// Inserts `x` into a strictly sorted sequence, unless it is already there.
fn insert_sorted(v: &mut Vec<i32>, x: i32)
    requires
        strictly_sorted(old(v)@),
    ensures
        strictly_sorted(final(v)@),
        forall|y: i32| #[trigger] final(v)@.contains(y) <==> (old(v)@.contains(y) || y == x),
{
    let mut k: usize = 0;
    while k < v.len() && v[k] < x
        invariant
            k <= v.len(),
            forall|j: int| 0 <= j < k ==> v@[j] < x,
        decreases v.len() - k,
    {
        k = k + 1;
    }
    if k < v.len() && v[k] == x {
        return;
    }
    let ghost old_v = v@;
    v.insert(k, x);
    proof {
        assert(v@ == old_v.insert(k as int, x));
        assert forall|i: int, j: int| 0 <= i < j < v@.len() implies v@[i] < v@[j] by {
            if j < k {
            } else if j == k {
            } else if i < k {
                assert(old_v[i] < x);
                assert(x < old_v[k as int] || k == old_v.len());
                if k < old_v.len() {
                    assert(old_v[k as int] <= old_v[j - 1]);
                }
            } else if i == k {
                if k < j - 1 {
                    assert(old_v[k as int] < old_v[j - 1]);
                }
            } else {
            }
        }
        assert forall|y: i32| #[trigger] v@.contains(y) <==> (old_v.contains(y) || y == x) by {
            if v@.contains(y) {
                let j = choose|j: int| 0 <= j < v@.len() && v@[j] == y;
                if j < k {
                    assert(old_v[j] == y);
                } else if j > k {
                    assert(old_v[j - 1] == y);
                }
            }
            if old_v.contains(y) {
                let j = choose|j: int| 0 <= j < old_v.len() && old_v[j] == y;
                if j < k {
                    assert(v@[j] == y);
                } else {
                    assert(v@[j + 1] == y);
                }
            }
            if y == x {
                assert(v@[k as int] == x);
            }
        }
    }
}

} // verus!
