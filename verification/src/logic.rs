use crate::unification::{
    clone_term, spec_unify, unify, wf_subst, SpecTerm, Substitution, Term, UnifyOutcome,
};
use vstd::prelude::*;

verus! {

broadcast use vstd::seq::group_seq_axioms;

/// The mathematical value of a goal.
pub enum SpecGoal {
    Unify(SpecTerm, SpecTerm),
    Disj2(Box<SpecGoal>, Box<SpecGoal>),
    Conj2(Box<SpecGoal>, Box<SpecGoal>),
}

/// The mathematical value of a stream: the state it has reached in
/// producing its answers.
pub enum SpecStream {
    Unify { forced: bool, left: SpecTerm, right: SpecTerm, substs: Map<u64, SpecTerm> },
    Disj2 { left: Box<SpecStream>, right: Box<SpecStream>, interleave_left: bool },
    Conj2 {
        right: Box<SpecGoal>,
        right_iterator: Option<Box<SpecStream>>,
        left_iterator: Box<SpecStream>,
    },
}

/// The goal that unifies two terms.  Solving it yields the extended
/// substitution once if the terms unify, and nothing otherwise.
pub struct Unify {
    pub left: Term,
    pub right: Term,
}

/// The goal that succeeds when either of its two goals succeeds.
/// Solving it interleaves the answers of the two goals fairly.
pub struct Disj2 {
    left: Box<Goal>,
    right: Box<Goal>,
}

/// The goal that succeeds when its right goal succeeds under an answer
/// of its left goal.  Solving it maps the right goal over every answer
/// of the left goal, in order.
pub struct Conj2 {
    left: Box<Goal>,
    right: Box<Goal>,
}

/// A goal: a relational predicate that, given a substitution, produces a
/// stream of answer substitutions.
pub enum Goal {
    Unify(Unify),
    Disj2(Disj2),
    Conj2(Conj2),
}

impl View for Unify {
    type V = SpecGoal;

    open spec fn view(&self) -> SpecGoal {
        SpecGoal::Unify(self.left@, self.right@)
    }
}

impl View for Disj2 {
    type V = SpecGoal;

    closed spec fn view(&self) -> SpecGoal
        decreases self, 0int,
    {
        SpecGoal::Disj2(Box::new((*self.left)@), Box::new((*self.right)@))
    }
}

impl View for Conj2 {
    type V = SpecGoal;

    closed spec fn view(&self) -> SpecGoal
        decreases self, 0int,
    {
        SpecGoal::Conj2(Box::new((*self.left)@), Box::new((*self.right)@))
    }
}

impl View for Goal {
    type V = SpecGoal;

    open spec fn view(&self) -> SpecGoal
        decreases self, 1int,
    {
        match self {
            Goal::Unify(g) => g@,
            Goal::Disj2(g) => g@,
            Goal::Conj2(g) => g@,
        }
    }
}

/// A deep copy of a goal, equal to the original in the model.
pub fn clone_goal(g: &Goal) -> (res: Goal)
    ensures
        res@ == g@,
    decreases g,
{
    match g {
        Goal::Unify(u) => Goal::Unify(Unify { left: clone_term(&u.left), right: clone_term(&u.right) }),
        Goal::Disj2(d) => Goal::Disj2(
            Disj2 { left: Box::new(clone_goal(&d.left)), right: Box::new(clone_goal(&d.right)) },
        ),
        Goal::Conj2(c) => Goal::Conj2(
            Conj2 { left: Box::new(clone_goal(&c.left)), right: Box::new(clone_goal(&c.right)) },
        ),
    }
}

impl Clone for Goal {
    fn clone(&self) -> (res: Goal)
        ensures
            res@ == self@,
    {
        clone_goal(self)
    }
}

// ---------------------------------------------------------------------------
// Answer sequences
// ---------------------------------------------------------------------------
/// Fair interleaving: the elements of `a` and `b`, alternating and
/// starting with `a`; when one side runs out the other continues.
pub open spec fn interleave(
    a: Seq<Map<u64, SpecTerm>>,
    b: Seq<Map<u64, SpecTerm>>,
) -> Seq<Map<u64, SpecTerm>>
    decreases a.len() + b.len(),
{
    if a.len() == 0 {
        b
    } else {
        seq![a[0]] + interleave(b, a.drop_first())
    }
}

/// The answers that a goal yields under a substitution.
pub open spec fn goal_answers(g: SpecGoal, m: Map<u64, SpecTerm>) -> Seq<Map<u64, SpecTerm>>
    decreases g, 0int, 0int,
{
    match g {
        SpecGoal::Unify(l, r) => match spec_unify(l, r, m) {
            UnifyOutcome::Unified(m2) => seq![m2],
            _ => Seq::empty(),
        },
        SpecGoal::Disj2(g1, g2) => interleave(goal_answers(*g1, m), goal_answers(*g2, m)),
        SpecGoal::Conj2(g1, g2) => conj_answers(*g2, goal_answers(*g1, m)),
    }
}

/// The answers of goal `g` under each substitution of `ms` in turn,
/// concatenated.
pub open spec fn conj_answers(g: SpecGoal, ms: Seq<Map<u64, SpecTerm>>) -> Seq<
    Map<u64, SpecTerm>,
>
    decreases g, 1int, ms.len(),
{
    if ms.len() == 0 {
        Seq::empty()
    } else {
        goal_answers(g, ms[0]) + conj_answers(g, ms.drop_first())
    }
}

/// The answers a stream in a given state will still yield.
pub open spec fn stream_answers(s: SpecStream) -> Seq<Map<u64, SpecTerm>>
    decreases s,
{
    match s {
        SpecStream::Unify { forced, left, right, substs } => if forced {
            Seq::empty()
        } else {
            match spec_unify(left, right, substs) {
                UnifyOutcome::Unified(m2) => seq![m2],
                _ => Seq::empty(),
            }
        },
        SpecStream::Disj2 { left, right, interleave_left } => if interleave_left {
            interleave(stream_answers(*left), stream_answers(*right))
        } else {
            interleave(stream_answers(*right), stream_answers(*left))
        },
        SpecStream::Conj2 { right, right_iterator, left_iterator } => (match right_iterator {
            Some(r) => stream_answers(*r),
            None => Seq::empty(),
        }) + conj_answers(*right, stream_answers(*left_iterator)),
    }
}

/// The stream that solving a goal under a substitution produces.
pub open spec fn spec_solve(g: SpecGoal, m: Map<u64, SpecTerm>) -> SpecStream
    decreases g,
{
    match g {
        SpecGoal::Unify(l, r) => SpecStream::Unify { forced: false, left: l, right: r, substs: m },
        SpecGoal::Disj2(g1, g2) => SpecStream::Disj2 {
            left: Box::new(spec_solve(*g1, m)),
            right: Box::new(spec_solve(*g2, m)),
            interleave_left: true,
        },
        SpecGoal::Conj2(g1, g2) => SpecStream::Conj2 {
            right: g2,
            right_iterator: None,
            left_iterator: Box::new(spec_solve(*g1, m)),
        },
    }
}

/// Every substitution a stream still carries is well formed.
pub open spec fn stream_wf(s: SpecStream) -> bool
    decreases s,
{
    match s {
        SpecStream::Unify { substs, .. } => wf_subst(substs),
        SpecStream::Disj2 { left, right, .. } => stream_wf(*left) && stream_wf(*right),
        SpecStream::Conj2 { right_iterator, left_iterator, .. } => (match right_iterator {
            Some(r) => stream_wf(*r),
            None => true,
        }) && stream_wf(*left_iterator),
    }
}

// ---------------------------------------------------------------------------
// Termination measures
// ---------------------------------------------------------------------------
/// A bound on the number of pulls any stream solved from `g` can answer.
pub open spec fn goal_measure(g: SpecGoal) -> nat
    decreases g,
{
    match g {
        SpecGoal::Unify(_, _) => 1,
        SpecGoal::Disj2(g1, g2) => goal_measure(*g1) + goal_measure(*g2) + 1,
        SpecGoal::Conj2(g1, g2) => goal_measure(*g1) * (goal_measure(*g2) + 2) + 1,
    }
}

/// A bound on the work a stream in a given state can still do.
pub open spec fn stream_measure(s: SpecStream) -> nat
    decreases s,
{
    match s {
        SpecStream::Unify { forced, .. } => if forced {
            0
        } else {
            1
        },
        SpecStream::Disj2 { left, right, .. } => stream_measure(*left) + stream_measure(*right)
            + 1,
        SpecStream::Conj2 { right, right_iterator, left_iterator } => stream_measure(
            *left_iterator,
        ) * (goal_measure(*right) + 2) + (match right_iterator {
            Some(r) => stream_measure(*r) + 1,
            None => 0,
        }) + 1,
    }
}

// ---------------------------------------------------------------------------
// Executable streams
// ---------------------------------------------------------------------------
/// The stream of a `Unify` goal: unifies once on the first pull.
pub struct UnifyIterator {
    forced: bool,
    left: Term,
    right: Term,
    substs: Substitution,
}

/// The stream of a `Disj2` goal: interleaves its two streams fairly.
pub struct Disj2Iterator {
    left: Box<Stream>,
    right: Box<Stream>,
    interleave_left: bool,
}

/// The stream of a `Conj2` goal: solves the right goal under each answer
/// of the left stream and drains the resulting stream before advancing.
pub struct Conj2Iterator {
    right: Box<Goal>,
    right_iterator: Option<Box<Stream>>,
    left_iterator: Box<Stream>,
}

/// A stream of answer substitutions, produced lazily by pulling with
/// `next`.  A stream is single-pass: each pull either yields the next
/// answer or reports that none are left.
pub enum Stream {
    Unify(UnifyIterator),
    Disj2(Disj2Iterator),
    Conj2(Conj2Iterator),
}

impl View for UnifyIterator {
    type V = SpecStream;

    closed spec fn view(&self) -> SpecStream {
        SpecStream::Unify {
            forced: self.forced,
            left: self.left@,
            right: self.right@,
            substs: self.substs@,
        }
    }
}

impl View for Disj2Iterator {
    type V = SpecStream;

    closed spec fn view(&self) -> SpecStream
        decreases self, 0int,
    {
        SpecStream::Disj2 {
            left: Box::new((*self.left)@),
            right: Box::new((*self.right)@),
            interleave_left: self.interleave_left,
        }
    }
}

impl View for Conj2Iterator {
    type V = SpecStream;

    closed spec fn view(&self) -> SpecStream
        decreases self, 0int,
    {
        SpecStream::Conj2 {
            right: Box::new((*self.right)@),
            right_iterator: match self.right_iterator {
                Some(r) => Some(Box::new((*r)@)),
                None => None,
            },
            left_iterator: Box::new((*self.left_iterator)@),
        }
    }
}

impl View for Stream {
    type V = SpecStream;

    open spec fn view(&self) -> SpecStream
        decreases self, 1int,
    {
        match self {
            Stream::Unify(it) => it@,
            Stream::Disj2(it) => it@,
            Stream::Conj2(it) => it@,
        }
    }
}

impl Stream {
    /// The substitutions held inside the stream keep their keys unique.
    pub closed spec fn inv(&self) -> bool
        decreases self,
    {
        match self {
            Stream::Unify(it) => it.substs.inv(),
            Stream::Disj2(it) => it.left.inv() && it.right.inv(),
            Stream::Conj2(it) => it.inv(),
        }
    }
}

/// A freshly solved stream answers exactly the goal's answers, is well
/// formed, and starts at the goal's measure.
pub proof fn lemma_solve_answers(g: SpecGoal, m: Map<u64, SpecTerm>)
    ensures
        stream_answers(spec_solve(g, m)) == goal_answers(g, m),
        wf_subst(m) ==> stream_wf(spec_solve(g, m)),
        stream_measure(spec_solve(g, m)) == goal_measure(g),
    decreases g,
{
    match g {
        SpecGoal::Unify(_, _) => {},
        SpecGoal::Disj2(g1, g2) => {
            lemma_solve_answers(*g1, m);
            lemma_solve_answers(*g2, m);
        },
        SpecGoal::Conj2(g1, g2) => {
            lemma_solve_answers(*g1, m);
            assert(stream_answers(spec_solve(g, m)) =~= conj_answers(*g2, goal_answers(*g1, m)));
        },
    }
}

impl Unify {
    /// Creates the goal that unifies `left` with `right`.
    pub fn new(left: Term, right: Term) -> (g: Unify)
        ensures
            g@ == SpecGoal::Unify(left@, right@),
    {
        Unify { left, right }
    }

    /// Solves this goal under the given substitution, producing a fresh
    /// stream of its answers.
    pub fn solve(&self, substs: &Substitution) -> (s: Stream)
        requires
            substs.inv(),
            wf_subst(substs@),
        ensures
            s@ == spec_solve(self@, substs@),
            s.inv(),
    {
        Stream::Unify(
            UnifyIterator {
                forced: false,
                left: clone_term(&self.left),
                right: clone_term(&self.right),
                substs: substs.clone(),
            },
        )
    }
}

impl Disj2 {
    /// Creates the disjunction of two goals.
    pub fn new(left: Goal, right: Goal) -> (g: Disj2)
        ensures
            g@ == SpecGoal::Disj2(Box::new(left@), Box::new(right@)),
    {
        Disj2 { left: Box::new(left), right: Box::new(right) }
    }

    /// Solves this goal under the given substitution, producing a fresh
    /// stream that interleaves the answers of the two goals.
    pub fn solve(&self, substs: &Substitution) -> (s: Stream)
        requires
            substs.inv(),
            wf_subst(substs@),
        ensures
            s@ == spec_solve(self@, substs@),
            s.inv(),
        decreases self, 0int,
    {
        Stream::Disj2(
            Disj2Iterator {
                left: Box::new(self.left.solve(substs)),
                right: Box::new(self.right.solve(substs)),
                interleave_left: true,
            },
        )
    }
}

impl Conj2 {
    /// Creates the conjunction of two goals.
    pub fn new(left: Goal, right: Goal) -> (g: Conj2)
        ensures
            g@ == SpecGoal::Conj2(Box::new(left@), Box::new(right@)),
    {
        Conj2 { left: Box::new(left), right: Box::new(right) }
    }

    /// Solves this goal under the given substitution, producing a fresh
    /// stream that maps the right goal over the answers of the left one.
    pub fn solve(&self, substs: &Substitution) -> (s: Stream)
        requires
            substs.inv(),
            wf_subst(substs@),
        ensures
            s@ == spec_solve(self@, substs@),
            s.inv(),
        decreases self, 0int,
    {
        let inner = self.left.solve(substs);
        let st = Stream::Conj2(
            Conj2Iterator {
                right: Box::new(clone_goal(&self.right)),
                right_iterator: None,
                left_iterator: Box::new(inner),
            },
        );
        proof {
            match &st {
                Stream::Conj2(c) => {
                    assert(c.left_iterator.inv());
                    assert(c.right_iterator is None);
                    assert(c.inv());
                },
                _ => {},
            }
            assert(st.inv());
        }
        st
    }
}

impl Goal {
    /// Solves this goal under the given substitution, producing a fresh,
    /// independent stream of its answers.
    pub fn solve(&self, substs: &Substitution) -> (s: Stream)
        requires
            substs.inv(),
            wf_subst(substs@),
        ensures
            s@ == spec_solve(self@, substs@),
            s.inv(),
        decreases self, 1int,
    {
        match self {
            Goal::Unify(g) => g.solve(substs),
            Goal::Disj2(g) => g.solve(substs),
            Goal::Conj2(g) => g.solve(substs),
        }
    }
}

impl Stream {
    /// Pulls the next answer from the stream.  Yields each remaining
    /// answer in order, then reports exhaustion with `None`.
    #[verifier::loop_isolation(false)]
    pub fn next(&mut self) -> (r: Option<Substitution>)
        requires
            old(self).inv(),
            stream_wf(old(self)@),
        ensures
            final(self).inv(),
            stream_wf(final(self)@),
            stream_measure(final(self)@) <= stream_measure(old(self)@),
            match r {
                Some(sub) => sub.inv() && wf_subst(sub@) && stream_answers(old(self)@).len() > 0
                    && sub@ == stream_answers(old(self)@)[0] && stream_answers(final(self)@)
                    == stream_answers(old(self)@).drop_first() && stream_measure(final(self)@)
                    < stream_measure(old(self)@),
                None => stream_answers(old(self)@) == Seq::<Map<u64, SpecTerm>>::empty()
                    && stream_answers(final(self)@) == Seq::<Map<u64, SpecTerm>>::empty(),
            },
        decreases stream_measure(old(self)@),
    {
        match self {
            Stream::Unify(it) => {
                if it.forced {
                    proof {
                        lemma_stream_unify_facts(*it);
                    }
                    None
                } else {
                    it.forced = true;
                    let l = clone_term(&it.left);
                    let r = clone_term(&it.right);
                    let ghost m0 = it.substs@;
                    let ok = unify(&l, &r, &mut it.substs);
                    if ok {
                        let result = it.substs.clone();
                        it.substs.clear();
                        proof {
                            crate::unification::lemma_wf_empty();
                            let answers = stream_answers(old(self)@);
                            assert(answers == seq![result@]);
                            assert(answers.drop_first() =~= Seq::<Map<u64, SpecTerm>>::empty());
                            assert(stream_answers(final(self)@) =~= Seq::<
                                Map<u64, SpecTerm>,
                            >::empty());
                        }
                        proof {
                            lemma_stream_unify_facts(*it);
                        }
                        Some(result)
                    } else {
                        proof {
                            lemma_stream_unify_facts(*it);
                        }
                        None
                    }
                }
            },
            Stream::Disj2(it) => {
                let ghost al = stream_answers((*it.left)@);
                let ghost ar = stream_answers((*it.right)@);
                if it.interleave_left {
                    it.interleave_left = false;
                    let first = it.left.next();
                    match first {
                        Some(s) => {
                            proof {
                                lemma_interleave_step(al, ar);
                                lemma_stream_disj_facts(*it);
                            }
                            Some(s)
                        },
                        None => {
                            let second = it.right.next();
                            proof {
                                lemma_interleave_nil(al);
                                lemma_interleave_nil(ar);
                                lemma_interleave_nil(stream_answers((*it.left)@));
                                lemma_interleave_nil(stream_answers((*it.right)@));
                                if ar.len() > 0 {
                                    lemma_interleave_step(ar, stream_answers((*it.left)@));
                                    lemma_interleave_nil(ar.drop_first());
                                    lemma_interleave_nil(stream_answers((*it.right)@));
                                }
                                lemma_stream_disj_facts(*it);
                            }
                            second
                        },
                    }
                } else {
                    it.interleave_left = true;
                    let first = it.right.next();
                    match first {
                        Some(s) => {
                            proof {
                                lemma_interleave_step(ar, al);
                                lemma_stream_disj_facts(*it);
                            }
                            Some(s)
                        },
                        None => {
                            let second = it.left.next();
                            proof {
                                lemma_interleave_nil(al);
                                lemma_interleave_nil(ar);
                                lemma_interleave_nil(stream_answers((*it.left)@));
                                lemma_interleave_nil(stream_answers((*it.right)@));
                                if al.len() > 0 {
                                    lemma_interleave_step(al, stream_answers((*it.right)@));
                                    lemma_interleave_nil(al.drop_first());
                                    lemma_interleave_nil(stream_answers((*it.left)@));
                                }
                                lemma_stream_disj_facts(*it);
                            }
                            second
                        },
                    }
                }
            },
            Stream::Conj2(it) => {
                loop
                    invariant
                        it.inv(),
                        stream_wf(it@),
                        stream_measure(it@) <= stream_measure(old(self)@),
                        stream_answers(it@) == stream_answers(old(self)@),
                    decreases stream_measure(it@),
                {
                    let ghost entry = it@;
                    let ghost g = (*it.right)@;
                    let ghost c_entry = conj_answers(g, stream_answers((*it.left_iterator)@));
                    let rio = it.right_iterator.take();
                    match rio {
                        Some(mut rit) => {
                            let ghost rit_pre = (*rit)@;
                            let took = rit.next();
                            match took {
                                Some(s) => {
                                    it.right_iterator = Some(rit);
                                    proof {
                                        assert(stream_answers(entry) == stream_answers(rit_pre)
                                            + c_entry);
                                        assert((stream_answers(rit_pre) + c_entry)[0]
                                            == stream_answers(rit_pre)[0]);
                                        assert(stream_answers(it@) =~= stream_answers(
                                            entry,
                                        ).drop_first());
                                        assert(it.left_iterator.inv());
                                        assert((*it).inv());
                                        assert(stream_wf(it@));
                                        lemma_stream_conj_facts(*it);
                                    }
                                    return Some(s);
                                },
                                None => {
                                    proof {
                                        assert(stream_answers(rit_pre) =~= Seq::<
                                            Map<u64, SpecTerm>,
                                        >::empty());
                                        assert(stream_answers(it@) =~= stream_answers(entry));
                                    }
                                },
                            }
                        },
                        None => {
                            let ghost lpre = (*it.left_iterator)@;
                            proof {
                                let ml = stream_measure(lpre);
                                let gm = goal_measure(g);
                                assert(ml * (gm + 2) >= ml * 1 == ml) by (nonlinear_arith);
                                assert(stream_measure(lpre) < stream_measure(it@));
                            }
                            let ln = it.left_iterator.next();
                            match ln {
                                Some(s) => {
                                    proof {
                                        lemma_conj_unfold(g, stream_answers(lpre), s@);
                                        lemma_solve_answers(g, s@);
                                        conj_measure_step(
                                            stream_measure(lpre),
                                            stream_measure((*it.left_iterator)@),
                                            goal_measure(g),
                                        );
                                    }
                                    let fresh = it.right.solve(&s);
                                    it.right_iterator = Some(Box::new(fresh));
                                    proof {
                                        assert(stream_answers(it@) =~= stream_answers(entry));
                                    }
                                },
                                None => {
                                    proof {
                                        let ml = stream_measure(lpre);
                                        let ml2 = stream_measure((*it.left_iterator)@);
                                        let gm = goal_measure(g);
                                        assert(ml2 * (gm + 2) <= ml * (gm + 2)) by (nonlinear_arith)
                                            requires
                                                ml2 <= ml,
                                        ;
                                        assert(stream_answers(lpre) =~= Seq::<
                                            Map<u64, SpecTerm>,
                                        >::empty());
                                        assert(stream_answers(entry) =~= Seq::<
                                            Map<u64, SpecTerm>,
                                        >::empty());
                                        assert(stream_answers(it@) =~= Seq::<
                                            Map<u64, SpecTerm>,
                                        >::empty());
                                        assert(it.left_iterator.inv());
                                        assert((*it).inv());
                                        assert(stream_wf(it@));
                                        lemma_stream_conj_facts(*it);
                                    }
                                    return None;
                                },
                            }
                        },
                    }
                }
            },
        }
    }
}

impl Conj2Iterator {
    /// The substitutions held inside the streams keep their keys unique.
    closed spec fn inv(&self) -> bool
        decreases self,
    {
        (match self.right_iterator {
            Some(r) => r.inv(),
            None => true,
        }) && self.left_iterator.inv()
    }
}

/// How the stream wrapper's invariant and view unfold at each variant.
proof fn lemma_stream_unify_facts(c: UnifyIterator)
    ensures
        Stream::Unify(c).inv() == c.substs.inv(),
        Stream::Unify(c)@ == c@,
{
}

proof fn lemma_stream_disj_facts(c: Disj2Iterator)
    ensures
        Stream::Disj2(c).inv() == (c.left.inv() && c.right.inv()),
        Stream::Disj2(c)@ == c@,
{
}

proof fn lemma_stream_conj_facts(c: Conj2Iterator)
    ensures
        Stream::Conj2(c).inv() == c.inv(),
        Stream::Conj2(c)@ == c@,
{
}

/// Interleaving a non-empty sequence: the head comes first, then the
/// interleave restarted from the other side.
proof fn lemma_interleave_step(a: Seq<Map<u64, SpecTerm>>, b: Seq<Map<u64, SpecTerm>>)
    requires
        a.len() > 0,
    ensures
        interleave(a, b).len() > 0,
        interleave(a, b)[0] == a[0],
        interleave(a, b).drop_first() == interleave(b, a.drop_first()),
{
    assert(interleave(a, b) == seq![a[0]] + interleave(b, a.drop_first()));
    assert((seq![a[0]] + interleave(b, a.drop_first())).drop_first() =~= interleave(
        b,
        a.drop_first(),
    ));
}

/// Interleaving with an exhausted side yields the other side unchanged.
proof fn lemma_interleave_nil(a: Seq<Map<u64, SpecTerm>>)
    ensures
        interleave(a, Seq::empty()) == a,
        interleave(Seq::empty(), a) == a,
    decreases a.len(),
{
    if a.len() > 0 {
        lemma_interleave_nil(a.drop_first());
        assert(interleave(a, Seq::empty()) =~= a);
    }
}

/// Unfolding the answers of a conjunction one left answer at a time.
proof fn lemma_conj_unfold(g: SpecGoal, ms: Seq<Map<u64, SpecTerm>>, s: Map<u64, SpecTerm>)
    requires
        ms.len() > 0,
        ms[0] == s,
    ensures
        conj_answers(g, ms) == goal_answers(g, s) + conj_answers(g, ms.drop_first()),
{
}

/// Interleaving keeps exactly the elements of the two sequences.
proof fn lemma_interleave_multiset(a: Seq<Map<u64, SpecTerm>>, b: Seq<Map<u64, SpecTerm>>)
    ensures
        interleave(a, b).to_multiset() == a.to_multiset().add(b.to_multiset()),
    decreases a.len() + b.len(),
{
    broadcast use vstd::seq_lib::group_to_multiset_ensures, vstd::multiset::group_multiset_axioms;

    if a.len() == 0 {
        assert(interleave(a, b) == b);
        assert(a.to_multiset().len() == 0);
        assert(a.to_multiset().add(b.to_multiset()) =~= b.to_multiset());
    } else {
        lemma_interleave_multiset(b, a.drop_first());
        let head = seq![a[0]];
        assert(head =~= Seq::<Map<u64, SpecTerm>>::empty().push(a[0]));
        assert(head.to_multiset() =~= Seq::<Map<u64, SpecTerm>>::empty().to_multiset().insert(
            a[0],
        ));
        assert(Seq::<Map<u64, SpecTerm>>::empty().to_multiset().len() == 0);
        vstd::seq_lib::lemma_multiset_commutative(head, interleave(b, a.drop_first()));
        assert(a =~= head + a.drop_first());
        vstd::seq_lib::lemma_multiset_commutative(head, a.drop_first());
        assert(interleave(a, b).to_multiset() =~= a.to_multiset().add(b.to_multiset()));
    }
}

/// The answers of a two-goal disjunction are, order aside, exactly the
/// answers of its first goal together with those of its second: the
/// union of the two branches' answer sets, with every answer of either
/// branch appearing in the disjunction's stream.
pub proof fn lemma_disj2_answers(g1: SpecGoal, g2: SpecGoal, m: Map<u64, SpecTerm>)
    ensures
        goal_answers(SpecGoal::Disj2(Box::new(g1), Box::new(g2)), m).to_multiset()
            == goal_answers(g1, m).to_multiset().add(goal_answers(g2, m).to_multiset()),
        forall|s: Map<u64, SpecTerm>|
            goal_answers(g1, m).contains(s) || goal_answers(g2, m).contains(s)
                <==> #[trigger] goal_answers(SpecGoal::Disj2(Box::new(g1), Box::new(g2)), m).contains(
                s,
            ),
{
    broadcast use vstd::seq_lib::group_to_multiset_ensures, vstd::multiset::group_multiset_axioms;

    let a1 = goal_answers(g1, m);
    let a2 = goal_answers(g2, m);
    let d = goal_answers(SpecGoal::Disj2(Box::new(g1), Box::new(g2)), m);
    lemma_interleave_multiset(a1, a2);
    assert forall|s: Map<u64, SpecTerm>|
        a1.contains(s) || a2.contains(s) <==> #[trigger] d.contains(s) by {
        assert(d.to_multiset().count(s) == a1.to_multiset().count(s) + a2.to_multiset().count(s));
        assert(a1.contains(s) <==> a1.to_multiset().count(s) > 0);
        assert(a2.contains(s) <==> a2.to_multiset().count(s) > 0);
        assert(d.contains(s) <==> d.to_multiset().count(s) > 0);
    }
}

/// Where each answer of a conjunction comes from: a substitution is
/// answered exactly when the right goal answers it under some answer of
/// the left stream.
proof fn lemma_conj_contains(g: SpecGoal, ms: Seq<Map<u64, SpecTerm>>)
    ensures
        forall|s: Map<u64, SpecTerm>| #[trigger] conj_answers(g, ms).contains(s) <==> exists|i: int|
            0 <= i < ms.len() && goal_answers(g, ms[i]).contains(s),
    decreases ms.len(),
{
    if ms.len() == 0 {
        assert forall|s: Map<u64, SpecTerm>| !(#[trigger] conj_answers(g, ms).contains(s)) by {}
    } else {
        lemma_conj_contains(g, ms.drop_first());
        let rest = conj_answers(g, ms.drop_first());
        let head = goal_answers(g, ms[0]);
        assert(conj_answers(g, ms) == head + rest);
        assert forall|s: Map<u64, SpecTerm>| #[trigger]
            conj_answers(g, ms).contains(s) <==> exists|i: int|
                0 <= i < ms.len() && goal_answers(g, ms[i]).contains(s) by {
            if conj_answers(g, ms).contains(s) {
                let j = choose|j: int| 0 <= j < (head + rest).len() && (head + rest)[j] == s;
                if j < head.len() {
                    assert(head.contains(s));
                    assert(goal_answers(g, ms[0]).contains(s));
                } else {
                    assert(rest[j - head.len()] == s);
                    assert(rest.contains(s));
                    let i = choose|i: int|
                        0 <= i < ms.drop_first().len() && goal_answers(
                            g,
                            ms.drop_first()[i],
                        ).contains(s);
                    assert(ms.drop_first()[i] == ms[i + 1]);
                    assert(goal_answers(g, ms[i + 1]).contains(s));
                }
            }
            if exists|i: int| 0 <= i < ms.len() && goal_answers(g, ms[i]).contains(s) {
                let i = choose|i: int| 0 <= i < ms.len() && goal_answers(g, ms[i]).contains(s);
                if i == 0 {
                    let j = choose|j: int| 0 <= j < head.len() && head[j] == s;
                    assert((head + rest)[j] == s);
                } else {
                    assert(ms.drop_first()[i - 1] == ms[i]);
                    assert(rest.contains(s));
                    let j = choose|j: int| 0 <= j < rest.len() && rest[j] == s;
                    assert((head + rest)[head.len() + j] == s);
                }
            }
        }
    }
}

/// The answers of a two-goal conjunction are exactly those the right
/// goal yields under each answer of the left goal, in order; a
/// substitution is answered exactly when the right goal answers it under
/// some answer of the left goal.
pub proof fn lemma_conj2_answers(g1: SpecGoal, g2: SpecGoal, m: Map<u64, SpecTerm>)
    ensures
        goal_answers(SpecGoal::Conj2(Box::new(g1), Box::new(g2)), m) == conj_answers(
            g2,
            goal_answers(g1, m),
        ),
        forall|s: Map<u64, SpecTerm>| #[trigger]
            goal_answers(SpecGoal::Conj2(Box::new(g1), Box::new(g2)), m).contains(s) <==> exists|
                s1: Map<u64, SpecTerm>,
            |
                #[trigger] goal_answers(g1, m).contains(s1) && goal_answers(g2, s1).contains(s),
{
    let a1 = goal_answers(g1, m);
    lemma_conj_contains(g2, a1);
    assert forall|s: Map<u64, SpecTerm>| #[trigger]
        goal_answers(SpecGoal::Conj2(Box::new(g1), Box::new(g2)), m).contains(s) <==> exists|
            s1: Map<u64, SpecTerm>,
        | #[trigger] goal_answers(g1, m).contains(s1) && goal_answers(g2, s1).contains(s) by {
        if conj_answers(g2, a1).contains(s) {
            let i = choose|i: int| 0 <= i < a1.len() && goal_answers(g2, a1[i]).contains(s);
            assert(a1.contains(a1[i]));
        }
        if exists|s1: Map<u64, SpecTerm>| #[trigger] goal_answers(g1, m).contains(s1)
            && goal_answers(g2, s1).contains(s) {
            let s1 = choose|s1: Map<u64, SpecTerm>| #[trigger] goal_answers(g1, m).contains(s1)
                && goal_answers(g2, s1).contains(s);
            let i = choose|i: int| 0 <= i < a1.len() && a1[i] == s1;
            assert(goal_answers(g2, a1[i]).contains(s));
        }
    }
}

/// Replacing a drained right stream after one left answer shrinks the
/// conjunction measure.
proof fn conj_measure_step(ml: nat, ml2: nat, g: nat)
    requires
        ml2 < ml,
    ensures
        ml2 * (g + 2) + (g + 1) + 1 < ml * (g + 2) + 1,
{
    assert(ml2 * (g + 2) + (g + 2) == (ml2 + 1) * (g + 2)) by (nonlinear_arith);
    assert((ml2 + 1) * (g + 2) <= ml * (g + 2)) by (nonlinear_arith)
        requires
            ml2 + 1 <= ml,
    ;
}

} // verus!
