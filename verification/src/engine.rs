//! A small bounds store: integer domains, affine views over them, and explained
//! lower-bound updates.
use vstd::prelude::*;

verus! {

/// Identifier of an integer domain in an [`Assignments`] store.
pub type DomainId = usize;

/// Index by which a propagator knows one of its variables.
pub type LocalId = u32;

/// Largest magnitude of a domain bound. With view offsets up to `OFFSET_LIMIT` and total
/// durations up to this limit, every bound, completion time and sum that propagation
/// forms, and the `i32::MIN` marker of an empty tree node plus such a sum, stays within
/// `i32`.
pub const DOMAIN_LIMIT: i32 = 134217728;

/// Largest magnitude of a view offset accepted by the view operations.
pub const OFFSET_LIMIT: i32 = 134217728;

/// An atomic bound on a domain: `[x >= bound]` or `[x <= bound]`.
#[derive(Clone, Copy, Debug, PartialEq, Eq)]
pub enum Predicate {
    LowerBound { domain: DomainId, bound: i32 },
    UpperBound { domain: DomainId, bound: i32 },
}

/// Why propagation stopped: a domain would become empty, or a conflict with its explanation.
#[derive(Debug)]
pub enum Inconsistency {
    EmptyDomain,
    Conflict(Vec<Predicate>),
}

/// A view `x + offset` (or `-x + offset` when `negated`) of the domain `x`.
#[derive(Clone, Copy, Debug)]
pub struct IntVar {
    pub domain: DomainId,
    pub negated: bool,
    pub offset: i32,
}

/// Lower and upper bounds of every domain, with the explained updates made so far.
pub struct Assignments {
    lbs: Vec<i32>,
    ubs: Vec<i32>,
    explained: Vec<(Predicate, Vec<Predicate>)>,
}

impl Assignments {
    /// Every domain satisfies `-DOMAIN_LIMIT <= lb <= ub <= DOMAIN_LIMIT`.
    pub closed spec fn wf(&self) -> bool {
        &&& self.lbs.len() == self.ubs.len()
        &&& forall|d: int|
            0 <= d < self.lbs.len() ==> -DOMAIN_LIMIT <= #[trigger] self.lbs[d] <= self.ubs[d]
                <= DOMAIN_LIMIT
        &&& forall|d: int|
            0 <= d < self.lbs.len() ==> -DOMAIN_LIMIT <= self.lbs[d] <= #[trigger] self.ubs[d]
                <= DOMAIN_LIMIT
    }

    pub closed spec fn num_domains(&self) -> nat {
        self.lbs@.len()
    }

    pub closed spec fn lb(&self, d: int) -> int {
        self.lbs[d] as int
    }

    pub closed spec fn ub(&self, d: int) -> int {
        self.ubs[d] as int
    }

    /// The explained updates, oldest first: the predicate that was made true and its reason.
    pub closed spec fn explanations(&self) -> Seq<(Predicate, Vec<Predicate>)> {
        self.explained@
    }

    /// What `wf` states, in terms of the public view.
    pub proof fn lemma_bounds(&self)
        requires
            self.wf(),
        ensures
            forall|d: int|
                0 <= d < self.num_domains() ==> -DOMAIN_LIMIT <= #[trigger] self.lb(d) <= self.ub(d)
                    <= DOMAIN_LIMIT,
    {
    }

    /// A store without domains.
    pub fn new() -> (r: Self)
        ensures
            r.wf(),
            r.num_domains() == 0,
            r.explanations().len() == 0,
    {
        Assignments { lbs: Vec::new(), ubs: Vec::new(), explained: Vec::new() }
    }

    /// Adds the domain `[lb, ub]` and returns the identity view of it.
    pub fn new_variable(&mut self, lb: i32, ub: i32) -> (r: IntVar)
        requires
            old(self).wf(),
            -DOMAIN_LIMIT <= lb <= ub <= DOMAIN_LIMIT,
        ensures
            final(self).wf(),
            r.domain == old(self).num_domains(),
            !r.negated,
            r.offset == 0,
            final(self).num_domains() == old(self).num_domains() + 1,
            final(self).lb(r.domain as int) == lb,
            final(self).ub(r.domain as int) == ub,
            forall|d: int|
                0 <= d < old(self).num_domains() ==> #[trigger] final(self).lb(d) == old(self).lb(d)
                    && final(self).ub(d) == old(self).ub(d),
            final(self).explanations() == old(self).explanations(),
    {
        let d = self.lbs.len();
        self.lbs.push(lb);
        self.ubs.push(ub);
        IntVar { domain: d, negated: false, offset: 0 }
    }

    /// The lower bound of domain `d`.
    pub fn domain_lower_bound(&self, d: DomainId) -> (r: i32)
        requires
            self.wf(),
            d < self.num_domains(),
        ensures
            r == self.lb(d as int),
    {
        self.lbs[d]
    }

    /// The upper bound of domain `d`.
    pub fn domain_upper_bound(&self, d: DomainId) -> (r: i32)
        requires
            self.wf(),
            d < self.num_domains(),
        ensures
            r == self.ub(d as int),
    {
        self.ubs[d]
    }

    /// The lower bound of the view `var`.
    pub fn lower_bound(&self, var: IntVar) -> (r: i32)
        requires
            self.wf(),
            var.valid(self),
        ensures
            r == var.view_lb(self),
    {
        if var.negated {
            var.offset - self.ubs[var.domain]
        } else {
            self.lbs[var.domain] + var.offset
        }
    }

    /// The upper bound of the view `var`.
    pub fn upper_bound(&self, var: IntVar) -> (r: i32)
        requires
            self.wf(),
            var.valid(self),
        ensures
            r == var.view_ub(self),
    {
        if var.negated {
            var.offset - self.lbs[var.domain]
        } else {
            self.ubs[var.domain] + var.offset
        }
    }

    /// Number of explained updates made so far.
    pub fn num_explanations(&self) -> (r: usize)
        ensures
            r == self.explanations().len(),
    {
        self.explained.len()
    }

    /// Explained update `i`: the predicate made true and its reason.
    pub fn explanation(&self, i: usize) -> (r: &(Predicate, Vec<Predicate>))
        requires
            i < self.explanations().len(),
        ensures
            *r == self.explanations()[i as int],
    {
        &self.explained[i]
    }

    /// Raises the lower bound of the view `var` to `bound`, recording `reason` as its
    /// explanation. Nothing changes when `bound` is not above the current lower bound; the
    /// store is left unchanged and `EmptyDomain` is returned when `bound` exceeds the upper
    /// bound of the view.
    pub fn set_lower_bound(&mut self, var: IntVar, bound: i32, reason: Vec<Predicate>) -> (r:
        Result<(), Inconsistency>)
        requires
            old(self).wf(),
            var.valid(old(self)),
        ensures
            final(self).wf(),
            final(self).num_domains() == old(self).num_domains(),
            bound <= var.view_lb(old(self)) ==> r is Ok && *final(self) == *old(self),
            var.view_lb(old(self)) < bound && bound > var.view_ub(old(self)) ==> (r matches Err(
                Inconsistency::EmptyDomain)) && *final(self) == *old(self),
            var.view_lb(old(self)) < bound <= var.view_ub(old(self)) ==> {
                &&& r is Ok
                &&& var.view_lb(final(self)) == bound
                &&& var.view_ub(final(self)) == var.view_ub(old(self))
                &&& forall|d: int|
                    0 <= d < old(self).num_domains() && d != var.domain
                        ==> #[trigger] final(self).lb(d) == old(self).lb(d)
                        && final(self).ub(d) == old(self).ub(d)
                &&& final(self).explanations() == old(self).explanations().push(
                    (var.lower_bound_predicate_spec(bound as int), reason),
                )
                &&& var.lower_bound_predicate_spec(bound as int).holds_in(final(self))
            },
    {
        let lb = self.lower_bound(var);
        if bound <= lb {
            return Ok(());
        }
        let ub = self.upper_bound(var);
        if bound > ub {
            return Err(Inconsistency::EmptyDomain);
        }
        let pred = var.lower_bound_predicate(bound);
        if var.negated {
            self.ubs.set(var.domain, var.offset - bound);
        } else {
            self.lbs.set(var.domain, bound - var.offset);
        }
        self.explained.push((pred, reason));
        proof {
            lemma_recorded_raise_holds(old(self), self, var, bound as int);
        }
        Ok(())
    }
}

/// What a propagator answers when told of a domain change: run it again, or not.
#[derive(Clone, Copy, Debug, PartialEq, Eq, Structural)]
pub enum EnqueueDecision {
    Enqueue,
    Skip,
}

/// The interest of propagators in domains: each entry asks to hear, under a local id, of
/// every change to the bounds of a domain.
pub struct Watchers {
    bounds: Vec<(DomainId, LocalId)>,
}

impl Watchers {
    /// The registrations so far, oldest first.
    pub closed spec fn registered(&self) -> Seq<(DomainId, LocalId)> {
        self.bounds@
    }

    /// No registrations.
    pub fn new() -> (r: Self)
        ensures
            r.registered() == Seq::<(DomainId, LocalId)>::empty(),
    {
        Watchers { bounds: Vec::new() }
    }

    /// Asks to hear of bound changes of the domain of `var` under `local_id`.
    pub fn register_bounds(&mut self, var: IntVar, local_id: LocalId)
        ensures
            final(self).registered() == old(self).registered().push((var.domain, local_id)),
    {
        self.bounds.push((var.domain, local_id));
    }

    /// Number of registrations.
    pub fn len(&self) -> (r: usize)
        ensures
            r == self.registered().len(),
    {
        self.bounds.len()
    }

    /// Registration `i`: a domain and a local id.
    pub fn get(&self, i: usize) -> (r: (DomainId, LocalId))
        requires
            i < self.registered().len(),
        ensures
            r == self.registered()[i as int],
    {
        self.bounds[i]
    }
}

impl IntVar {
    /// The view names a domain of `a` and its offset is within `OFFSET_LIMIT`.
    pub open spec fn valid(self, a: &Assignments) -> bool {
        &&& self.domain < a.num_domains()
        &&& -OFFSET_LIMIT <= self.offset <= OFFSET_LIMIT
    }

    pub open spec fn view_lb(self, a: &Assignments) -> int {
        if self.negated {
            self.offset - a.ub(self.domain as int)
        } else {
            a.lb(self.domain as int) + self.offset
        }
    }

    pub open spec fn view_ub(self, a: &Assignments) -> int {
        if self.negated {
            self.offset - a.lb(self.domain as int)
        } else {
            a.ub(self.domain as int) + self.offset
        }
    }

    /// `[self >= v]` written as a predicate on the domain.
    pub open spec fn lower_bound_predicate_spec(self, v: int) -> Predicate {
        if self.negated {
            Predicate::UpperBound { domain: self.domain, bound: (self.offset - v) as i32 }
        } else {
            Predicate::LowerBound { domain: self.domain, bound: (v - self.offset) as i32 }
        }
    }

    /// `[self <= v]` written as a predicate on the domain.
    pub open spec fn upper_bound_predicate_spec(self, v: int) -> Predicate {
        if self.negated {
            Predicate::LowerBound { domain: self.domain, bound: (self.offset - v) as i32 }
        } else {
            Predicate::UpperBound { domain: self.domain, bound: (v - self.offset) as i32 }
        }
    }

    /// The domain the view is over.
    pub fn domain_id(&self) -> (r: DomainId)
        ensures
            r == self.domain,
    {
        self.domain
    }

    /// The view `self + d`.
    pub fn offset(&self, d: i32) -> (r: IntVar)
        requires
            i32::MIN <= self.offset + d <= i32::MAX,
        ensures
            r.domain == self.domain,
            r.negated == self.negated,
            r.offset == self.offset + d,
    {
        IntVar { domain: self.domain, negated: self.negated, offset: self.offset + d }
    }

    /// The view `scale * self` for `scale` one or minus one.
    pub fn scaled(&self, scale: i32) -> (r: IntVar)
        requires
            scale == 1 || scale == -1,
            self.offset > i32::MIN,
        ensures
            r.domain == self.domain,
            r.negated == (self.negated != (scale == -1)),
            r.offset == scale * self.offset,
    {
        if scale == 1 {
            *self
        } else {
            IntVar { domain: self.domain, negated: !self.negated, offset: -self.offset }
        }
    }

    /// The predicate `[self >= v]` on the underlying domain.
    pub fn lower_bound_predicate(&self, v: i32) -> (r: Predicate)
        requires
            i32::MIN <= v - self.offset <= i32::MAX,
            i32::MIN <= self.offset - v <= i32::MAX,
        ensures
            r == self.lower_bound_predicate_spec(v as int),
    {
        if self.negated {
            Predicate::UpperBound { domain: self.domain, bound: self.offset - v }
        } else {
            Predicate::LowerBound { domain: self.domain, bound: v - self.offset }
        }
    }

    /// The predicate `[self <= v]` on the underlying domain.
    pub fn upper_bound_predicate(&self, v: i32) -> (r: Predicate)
        requires
            i32::MIN <= v - self.offset <= i32::MAX,
            i32::MIN <= self.offset - v <= i32::MAX,
        ensures
            r == self.upper_bound_predicate_spec(v as int),
    {
        if self.negated {
            Predicate::LowerBound { domain: self.domain, bound: self.offset - v }
        } else {
            Predicate::UpperBound { domain: self.domain, bound: v - self.offset }
        }
    }
}


impl Predicate {
    /// The domain the predicate speaks of.
    pub open spec fn domain_of(self) -> DomainId {
        match self {
            Predicate::LowerBound { domain, .. } => domain,
            Predicate::UpperBound { domain, .. } => domain,
        }
    }

    /// The predicate is true when each domain `d` takes the value `vals[d]`.
    pub open spec fn met_by(self, vals: Seq<int>) -> bool {
        match self {
            Predicate::LowerBound { domain, bound } => vals[domain as int] >= bound,
            Predicate::UpperBound { domain, bound } => vals[domain as int] <= bound,
        }
    }

    /// The predicate holds under the bounds of `a`: every value left in its domain meets it.
    pub open spec fn holds_in(self, a: &Assignments) -> bool {
        match self {
            Predicate::LowerBound { domain, bound } => a.lb(domain as int) >= bound,
            Predicate::UpperBound { domain, bound } => a.ub(domain as int) <= bound,
        }
    }
}

/// Every predicate of `ps` is met when each domain `d` takes the value `vals[d]`.
pub open spec fn all_met(ps: Seq<Predicate>, vals: Seq<int>) -> bool {
    forall|m: int| 0 <= m < ps.len() ==> (#[trigger] ps[m]).met_by(vals)
}

impl IntVar {
    /// The value of the view when each domain `d` takes the value `vals[d]`.
    pub open spec fn value_at(self, vals: Seq<int>) -> int {
        if self.negated {
            self.offset - vals[self.domain as int]
        } else {
            vals[self.domain as int] + self.offset
        }
    }
}

/// The predicate written for `[view >= v]` speaks of the view's domain and means what it
/// says: at any values of the domains it is met exactly when the view is at least `v`, and
/// it holds under bounds exactly when the view's lower bound is at least `v`. The same for
/// `[view <= v]`, with the view at most `v` and its upper bound at most `v`.
pub proof fn lemma_bound_predicates_mean(var: IntVar, v: int, vals: Seq<int>, a: &Assignments)
    requires
        i32::MIN <= v - var.offset <= i32::MAX,
        i32::MIN <= var.offset - v <= i32::MAX,
    ensures
        var.lower_bound_predicate_spec(v).domain_of() == var.domain,
        var.lower_bound_predicate_spec(v).met_by(vals) <==> var.value_at(vals) >= v,
        var.lower_bound_predicate_spec(v).holds_in(a) <==> var.view_lb(a) >= v,
        var.upper_bound_predicate_spec(v).domain_of() == var.domain,
        var.upper_bound_predicate_spec(v).met_by(vals) <==> var.value_at(vals) <= v,
        var.upper_bound_predicate_spec(v).holds_in(a) <==> var.view_ub(a) <= v,
{
}

/// A raise recorded by `set_lower_bound` holds under the bounds it leaves: the recorded
/// predicate is met by the new lower bound of the view.
pub proof fn lemma_recorded_raise_holds(before: &Assignments, after: &Assignments, var: IntVar, bound: int)
    requires
        before.wf(),
        var.valid(before),
        var.view_lb(before) < bound <= var.view_ub(before),
        var.view_lb(after) == bound,
    ensures
        var.lower_bound_predicate_spec(bound).holds_in(after),
{
    before.lemma_bounds();
    lemma_bound_predicates_mean(var, bound, Seq::empty(), after);
}

} // verus!
