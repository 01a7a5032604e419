use vstd::prelude::*;

verus! {

broadcast use vstd::std_specs::vec::axiom_vec_index_decreases, vstd::seq::group_seq_axioms;

/// The mathematical value of a `Term`: the same tree, with ghost
/// sequences in place of vectors.  Contracts throughout the crate speak
/// of terms through this model.
#[verifier::ext_equal]
pub enum SpecTerm {
    Atom(u64),
    Variable(u64),
    Tuple(Seq<SpecTerm>),
}

/// A term of the logic language: a ground atom, a logic variable, or a
/// tuple of fixed arity that unifies structurally.  Atoms and variables
/// carry interned identifiers.
#[derive(Debug)]
pub enum Term {
    Atom(u64),
    Variable(u64),
    Tuple(Vec<Term>),
}

/// The models of the elements of `ts` from position `i` on.
pub open spec fn seq_view_from(ts: Vec<Term>, i: int) -> Seq<SpecTerm>
    decreases ts, ts@.len() - i,
{
    if 0 <= i < ts@.len() {
        seq![ts@[i]@] + seq_view_from(ts, i + 1)
    } else {
        Seq::empty()
    }
}

/// The model of a vector of terms: the sequence of the elements' models.
pub open spec fn seq_view(ts: Vec<Term>) -> Seq<SpecTerm>
    decreases ts, ts@.len() + 1,
{
    seq_view_from(ts, 0)
}

impl View for Term {
    type V = SpecTerm;

    open spec fn view(&self) -> SpecTerm
        decreases self, 0int,
    {
        match self {
            Term::Atom(a) => SpecTerm::Atom(*a),
            Term::Variable(v) => SpecTerm::Variable(*v),
            Term::Tuple(ts) => SpecTerm::Tuple(seq_view(*ts)),
        }
    }
}

proof fn lemma_seq_view_from(ts: Vec<Term>, i: int)
    requires
        0 <= i <= ts@.len(),
    ensures
        seq_view_from(ts, i).len() == ts@.len() - i,
        forall|j: int| 0 <= j < ts@.len() - i ==> seq_view_from(ts, i)[j] == ts@[i + j]@,
    decreases ts@.len() - i,
{
    if i < ts@.len() {
        lemma_seq_view_from(ts, i + 1);
        let head = seq![ts@[i]@];
        assert(seq_view_from(ts, i) == head + seq_view_from(ts, i + 1));
        assert(seq_view_from(ts, i).len() == 1 + seq_view_from(ts, i + 1).len());
        assert forall|j: int| 0 <= j < ts@.len() - i implies seq_view_from(ts, i)[j] == ts@[i
            + j]@ by {
            if j == 0 {
                assert((head + seq_view_from(ts, i + 1))[0] == head[0]);
            } else {
                assert((head + seq_view_from(ts, i + 1))[j] == seq_view_from(ts, i + 1)[j - 1]);
            }
        }
    } else {
        assert(seq_view_from(ts, i) == Seq::<SpecTerm>::empty());
    }
}

/// How `seq_view` relates to the vector it models: same length, and the
/// model of each element in place.
pub broadcast proof fn lemma_seq_view(ts: Vec<Term>)
    ensures
        (#[trigger] seq_view(ts)).len() == ts@.len(),
        forall|i: int| 0 <= i < ts@.len() ==> seq_view(ts)[i] == ts@[i]@,
{
    lemma_seq_view_from(ts, 0);
    assert forall|i: int| 0 <= i < ts@.len() implies seq_view(ts)[i] == ts@[i]@ by {
        assert(seq_view_from(ts, 0)[i] == ts@[0 + i]@);
    }
}

/// Structural equality of two terms, decided without touching any
/// substitution.
pub fn term_eq(a: &Term, b: &Term) -> (r: bool)
    ensures
        r == (a@ == b@),
    decreases a,
{
    match (a, b) {
        (Term::Atom(x), Term::Atom(y)) => *x == *y,
        (Term::Variable(x), Term::Variable(y)) => *x == *y,
        (Term::Tuple(u), Term::Tuple(v)) => terms_eq(u, v),
        _ => false,
    }
}

/// Elementwise structural equality of two term vectors.
fn terms_eq(u: &Vec<Term>, v: &Vec<Term>) -> (r: bool)
    ensures
        r == (seq_view(*u) == seq_view(*v)),
    decreases u,
{
    if u.len() != v.len() {
        proof {
            lemma_seq_view(*u);
            lemma_seq_view(*v);
            assert(seq_view(*u).len() != seq_view(*v).len());
        }
        return false;
    }
    let n = u.len();
    let mut i: usize = 0;
    while i < n
        invariant
            n == u@.len() == v@.len(),
            i <= n,
            forall|j: int| 0 <= j < i ==> u@[j]@ == v@[j]@,
        decreases n - i,
    {
        if !term_eq(&u[i], &v[i]) {
            proof {
                lemma_seq_view(*u);
                lemma_seq_view(*v);
                assert(seq_view(*u)[i as int] != seq_view(*v)[i as int]);
            }
            return false;
        }
        i += 1;
    }
    proof {
        lemma_seq_view(*u);
        lemma_seq_view(*v);
        assert(seq_view(*u) =~= seq_view(*v));
    }
    true
}

impl PartialEq for Term {
    fn eq(&self, other: &Term) -> bool {
        term_eq(self, other)
    }
}

impl vstd::std_specs::cmp::PartialEqSpecImpl for Term {
    open spec fn obeys_eq_spec() -> bool {
        true
    }

    open spec fn eq_spec(&self, other: &Term) -> bool {
        self@ == other@
    }
}

/// A deep copy of a term, equal to the original in the model.
pub fn clone_term(t: &Term) -> (res: Term)
    ensures
        res@ == t@,
    decreases t,
{
    match t {
        Term::Atom(a) => Term::Atom(*a),
        Term::Variable(v) => Term::Variable(*v),
        Term::Tuple(ts) => {
            let out = clone_terms(ts);
            let res = Term::Tuple(out);
            proof {
                assert(res@ =~= t@);
            }
            res
        },
    }
}

/// A deep copy of a vector of terms.
fn clone_terms(ts: &Vec<Term>) -> (res: Vec<Term>)
    ensures
        seq_view(res) == seq_view(*ts),
    decreases ts,
{
    let n = ts.len();
    let mut out: Vec<Term> = Vec::new();
    let mut i: usize = 0;
    while i < n
        invariant
            n == ts@.len(),
            i <= n,
            out@.len() == i,
            forall|j: int| 0 <= j < i ==> out@[j]@ == ts@[j]@,
        decreases n - i,
    {
        out.push(clone_term(&ts[i]));
        i += 1;
    }
    proof {
        lemma_seq_view(out);
        lemma_seq_view(*ts);
        assert(seq_view(out) =~= seq_view(*ts));
    }
    out
}

impl Clone for Term {
    fn clone(&self) -> (res: Term)
        ensures
            res@ == self@,
    {
        clone_term(self)
    }
}

// ---------------------------------------------------------------------------
// Substitutions
// ---------------------------------------------------------------------------
/// The models of a sequence of key/term entries.
pub open spec fn pairs_view(s: Seq<(u64, Term)>) -> Seq<(u64, SpecTerm)> {
    Seq::new(s.len(), |i: int| (s[i].0, s[i].1@))
}

/// Every key occurs at most once in the entry sequence.
pub open spec fn keys_unique(s: Seq<(u64, SpecTerm)>) -> bool {
    forall|i: int, j: int| 0 <= i < j < s.len() ==> s[i].0 != s[j].0
}

/// The finite map denoted by a sequence of key/term entries; later
/// entries win, though the substitution keeps its keys unique.
pub open spec fn entries_map(s: Seq<(u64, SpecTerm)>) -> Map<u64, SpecTerm>
    decreases s.len(),
{
    if s.len() == 0 {
        Map::empty()
    } else {
        entries_map(s.drop_last()).insert(s.last().0, s.last().1)
    }
}

proof fn lemma_entries_map_contains(s: Seq<(u64, SpecTerm)>, k: u64)
    ensures
        entries_map(s).contains_key(k) <==> exists|i: int| 0 <= i < s.len() && s[i].0 == k,
    decreases s.len(),
{
    if s.len() > 0 {
        lemma_entries_map_contains(s.drop_last(), k);
        if s.last().0 == k {
            assert(s[s.len() - 1].0 == k);
        } else if entries_map(s).contains_key(k) {
            let i = choose|i: int| 0 <= i < s.len() - 1 && s.drop_last()[i].0 == k;
            assert(s[i].0 == k);
        } else if exists|i: int| 0 <= i < s.len() && s[i].0 == k {
            let i = choose|i: int| 0 <= i < s.len() && s[i].0 == k;
            assert(s.drop_last()[i].0 == k);
        }
    }
}

proof fn lemma_entries_map_value(s: Seq<(u64, SpecTerm)>, i: int)
    requires
        keys_unique(s),
        0 <= i < s.len(),
    ensures
        entries_map(s).contains_key(s[i].0),
        entries_map(s)[s[i].0] == s[i].1,
    decreases s.len(),
{
    if i == s.len() - 1 {
    } else {
        assert(s.drop_last()[i] == s[i]);
        lemma_entries_map_value(s.drop_last(), i);
    }
}

proof fn lemma_entries_map_len(s: Seq<(u64, SpecTerm)>)
    requires
        keys_unique(s),
    ensures
        entries_map(s).dom().finite(),
        entries_map(s).dom().len() == s.len(),
    decreases s.len(),
{
    if s.len() > 0 {
        lemma_entries_map_len(s.drop_last());
        lemma_entries_map_contains(s.drop_last(), s.last().0);
        assert(forall|i: int| 0 <= i < s.len() - 1 ==> s[i].0 != s.last().0);
        assert(!entries_map(s.drop_last()).contains_key(s.last().0));
    }
}

/// A substitution: a finite mapping from variable identifiers to the
/// terms they are bound to, accumulated along one derivation.
#[derive(Debug)]
pub struct Substitution {
    entries: Vec<(u64, Term)>,
}

impl View for Substitution {
    type V = Map<u64, SpecTerm>;

    closed spec fn view(&self) -> Map<u64, SpecTerm> {
        entries_map(pairs_view(self.entries@))
    }
}

impl Substitution {
    /// The keys of the stored entries are pairwise distinct.  Every
    /// substitution built through this type's own operations satisfies
    /// this invariant.
    pub closed spec fn inv(&self) -> bool {
        keys_unique(pairs_view(self.entries@))
    }

    /// Creates an empty substitution.
    pub fn new() -> (s: Substitution)
        ensures
            s@ == Map::<u64, SpecTerm>::empty(),
            s.inv(),
    {
        Substitution { entries: Vec::new() }
    }

    /// The number of bound variables.
    pub fn len(&self) -> (n: usize)
        requires
            self.inv(),
        ensures
            n == self@.dom().len(),
    {
        proof {
            lemma_entries_map_len(pairs_view(self.entries@));
        }
        self.entries.len()
    }

    /// True if no variable is bound.
    pub fn is_empty(&self) -> (r: bool)
        requires
            self.inv(),
        ensures
            r == (self@ == Map::<u64, SpecTerm>::empty()),
    {
        proof {
            lemma_entries_map_len(pairs_view(self.entries@));
            if self.entries@.len() == 0 {
                assert(self@ =~= Map::<u64, SpecTerm>::empty());
            } else {
                lemma_entries_map_value(pairs_view(self.entries@), 0);
            }
        }
        self.entries.len() == 0
    }

    /// Looks up the binding of variable `k`, if any.
    pub fn get(&self, k: &u64) -> (r: Option<&Term>)
        requires
            self.inv(),
        ensures
            match r {
                Some(t) => self@.contains_key(*k) && t@ == self@[*k],
                None => !self@.contains_key(*k),
            },
    {
        let ghost p = pairs_view(self.entries@);
        let n = self.entries.len();
        let mut i: usize = 0;
        while i < n
            invariant
                keys_unique(p),
                p == pairs_view(self.entries@),
                n == self.entries@.len(),
                i <= n,
                forall|j: int| 0 <= j < i ==> p[j].0 != *k,
            decreases n - i,
        {
            if self.entries[i].0 == *k {
                proof {
                    lemma_entries_map_value(p, i as int);
                }
                return Some(&self.entries[i].1);
            }
            i += 1;
        }
        proof {
            lemma_entries_map_contains(p, *k);
        }
        None
    }

    /// Binds variable `k` to term `t`, replacing any previous binding.
    pub fn insert(&mut self, k: u64, t: Term)
        requires
            old(self).inv(),
        ensures
            final(self)@ == old(self)@.insert(k, t@),
            final(self).inv(),
    {
        let ghost p0 = pairs_view(self.entries@);
        let n = self.entries.len();
        let mut i: usize = 0;
        while i < n
            invariant
                keys_unique(p0),
                self.entries@ == old(self).entries@,
                p0 == pairs_view(self.entries@),
                n == self.entries@.len(),
                i <= n,
                forall|j: int| 0 <= j < i ==> p0[j].0 != k,
            decreases n - i,
        {
            if self.entries[i].0 == k {
                self.entries[i] = (k, t);
                proof {
                    let p1 = pairs_view(self.entries@);
                    assert(p0[i as int].0 == k);
                    assert(p1 =~= p0.update(i as int, (p0[i as int].0, t@)));
                    lemma_entries_map_update(p0, i as int, t@);
                    assert(keys_unique(p1));
                }
                return ;
            }
            i += 1;
        }
        self.entries.push((k, t));
        proof {
            let p1 = pairs_view(self.entries@);
            assert(p1 =~= p0.push((k, t@)));
            assert(p1.drop_last() =~= p0);
            lemma_entries_map_contains(p0, k);
        }
    }

    /// Removes every binding.
    pub fn clear(&mut self)
        ensures
            final(self)@ == Map::<u64, SpecTerm>::empty(),
            final(self).inv(),
    {
        self.entries.clear();
        proof {
            assert(pairs_view(self.entries@) =~= Seq::<(u64, SpecTerm)>::empty());
        }
    }
}

impl Substitution {
    /// The stored bindings, as key/term pairs with pairwise distinct
    /// keys denoting exactly this substitution.
    pub fn items(&self) -> (r: Vec<(u64, Term)>)
        requires
            self.inv(),
        ensures
            keys_unique(pairs_view(r@)),
            entries_map(pairs_view(r@)) == self@,
    {
        let n = self.entries.len();
        let mut out: Vec<(u64, Term)> = Vec::new();
        let mut i: usize = 0;
        while i < n
            invariant
                self.inv(),
                n == self.entries@.len(),
                i <= n,
                out@.len() == i,
                forall|j: int|
                    0 <= j < i ==> out@[j].0 == self.entries@[j].0 && out@[j].1@
                        == self.entries@[j].1@,
            decreases n - i,
        {
            let k = self.entries[i].0;
            let t = clone_term(&self.entries[i].1);
            out.push((k, t));
            i += 1;
        }
        proof {
            assert(pairs_view(out@) =~= pairs_view(self.entries@));
        }
        out
    }
}

impl Clone for Substitution {
    fn clone(&self) -> (res: Substitution)
        ensures
            res@ == self@,
            self.inv() ==> res.inv(),
    {
        let n = self.entries.len();
        let mut out: Vec<(u64, Term)> = Vec::new();
        let mut i: usize = 0;
        while i < n
            invariant
                n == self.entries@.len(),
                i <= n,
                out@.len() == i,
                forall|j: int|
                    0 <= j < i ==> out@[j].0 == self.entries@[j].0 && out@[j].1@
                        == self.entries@[j].1@,
            decreases n - i,
        {
            let k = self.entries[i].0;
            let t = clone_term(&self.entries[i].1);
            out.push((k, t));
            i += 1;
        }
        proof {
            assert(pairs_view(out@) =~= pairs_view(self.entries@));
        }
        Substitution { entries: out }
    }
}

// ---------------------------------------------------------------------------
// Walking
// ---------------------------------------------------------------------------
/// `r` orders the variables so that it strictly decreases along every
/// variable-to-variable binding of `m`.
pub open spec fn rank_ok(m: Map<u64, SpecTerm>, r: spec_fn(u64) -> nat) -> bool {
    forall|v: u64| #[trigger]
        m.contains_key(v) ==> (match m[v] {
            SpecTerm::Variable(w) => m.contains_key(w) ==> r(w) < r(v),
            _ => true,
        })
}

/// A substitution is well formed when its chains of variable bindings
/// cannot loop: some ranking of the variables strictly decreases along
/// every variable-to-variable binding.  Resolving any term through such
/// a substitution terminates.
pub open spec fn wf_subst(m: Map<u64, SpecTerm>) -> bool {
    exists|r: spec_fn(u64) -> nat| rank_ok(m, r)
}

/// One ranking witnessing `wf_subst(m)`.
pub open spec fn subst_rank(m: Map<u64, SpecTerm>) -> spec_fn(u64) -> nat {
    choose|r: spec_fn(u64) -> nat| rank_ok(m, r)
}

/// An upper bound on the number of bindings `spec_walk` follows from `t`.
pub open spec fn walk_measure(m: Map<u64, SpecTerm>, t: SpecTerm) -> nat {
    match t {
        SpecTerm::Variable(v) => if m.contains_key(v) {
            subst_rank(m)(v) + 1
        } else {
            0
        },
        _ => 0,
    }
}

/// Resolves `t` through `m`: while `t` is a variable bound in `m`,
/// follow the binding; stop at an atom, a tuple, or an unbound variable.
pub open spec fn spec_walk(m: Map<u64, SpecTerm>, t: SpecTerm) -> SpecTerm
    decreases walk_measure(m, t),
    when wf_subst(m)
    via lemma_spec_walk_decreases
{
    match t {
        SpecTerm::Variable(v) => if m.contains_key(v) {
            spec_walk(m, m[v])
        } else {
            t
        },
        _ => t,
    }
}

/// Following one binding strictly shrinks the walk measure.
proof fn lemma_walk_step(m: Map<u64, SpecTerm>, v: u64)
    requires
        wf_subst(m),
        m.contains_key(v),
    ensures
        walk_measure(m, m[v]) < walk_measure(m, SpecTerm::Variable(v)),
{
    assert(rank_ok(m, subst_rank(m)));
}

#[via_fn]
proof fn lemma_spec_walk_decreases(m: Map<u64, SpecTerm>, t: SpecTerm) {
    match t {
        SpecTerm::Variable(v) => {
            if m.contains_key(v) {
                lemma_walk_step(m, v);
            }
        },
        _ => {},
    }
}

/// The result of a walk is an atom, a tuple, or an unbound variable;
/// walking it again changes nothing.
pub proof fn lemma_walk_idempotent(m: Map<u64, SpecTerm>, t: SpecTerm)
    requires
        wf_subst(m),
    ensures
        spec_walk(m, spec_walk(m, t)) == spec_walk(m, t),
        spec_walk(m, t) matches SpecTerm::Variable(v) ==> !m.contains_key(v),
    decreases walk_measure(m, t),
{
    match t {
        SpecTerm::Variable(v) => {
            if m.contains_key(v) {
                lemma_walk_step(m, v);
                lemma_walk_idempotent(m, m[v]);
            }
        },
        _ => {},
    }
}

/// The empty substitution is well formed.
pub proof fn lemma_wf_empty()
    ensures
        wf_subst(Map::<u64, SpecTerm>::empty()),
{
    let r = (|x: u64| 0nat);
    assert(rank_ok(Map::<u64, SpecTerm>::empty(), r));
}

/// A well-formed substitution never binds a variable to itself.
pub proof fn lemma_no_self_binding(m: Map<u64, SpecTerm>, v: u64)
    requires
        wf_subst(m),
        m.contains_key(v),
    ensures
        m[v] != SpecTerm::Variable(v),
{
    assert(rank_ok(m, subst_rank(m)));
}

/// Resolves `x` through the substitution, following variable bindings
/// until an atom, a tuple, or an unbound variable is reached.
pub fn walk<'a>(x: &'a Term, substs: &'a Substitution) -> (res: &'a Term)
    requires
        substs.inv(),
        wf_subst(substs@),
    ensures
        res@ == spec_walk(substs@, x@),
{
    let mut cur: &Term = x;
    loop
        invariant
            substs.inv(),
            wf_subst(substs@),
            spec_walk(substs@, cur@) == spec_walk(substs@, x@),
        decreases walk_measure(substs@, cur@),
    {
        match cur {
            Term::Variable(v) => {
                match substs.get(v) {
                    Some(t) => {
                        proof {
                            lemma_walk_step(substs@, *v);
                        }
                        cur = t;
                    },
                    None => {
                        return cur;
                    },
                }
            },
            _ => {
                return cur;
            },
        }
    }
}

proof fn lemma_entries_map_update(s: Seq<(u64, SpecTerm)>, i: int, t: SpecTerm)
    requires
        keys_unique(s),
        0 <= i < s.len(),
    ensures
        entries_map(s.update(i, (s[i].0, t))) == entries_map(s).insert(s[i].0, t),
    decreases s.len(),
{
    let k = s[i].0;
    let s2 = s.update(i, (k, t));
    if i == s.len() - 1 {
        assert(s2.drop_last() =~= s.drop_last());
        assert(entries_map(s2) == entries_map(s.drop_last()).insert(k, t));
        assert(entries_map(s).insert(k, t) =~= entries_map(s.drop_last()).insert(
            s.last().0,
            s.last().1,
        ).insert(k, t));
        assert(entries_map(s2) =~= entries_map(s).insert(k, t));
    } else {
        assert(s.drop_last()[i] == s[i]);
        lemma_entries_map_update(s.drop_last(), i, t);
        assert(s2.drop_last() =~= s.drop_last().update(i, (k, t)));
        assert(s2.last() == s.last());
        assert(entries_map(s2) == entries_map(s.drop_last()).insert(k, t).insert(
            s.last().0,
            s.last().1,
        ));
        assert(k != s.last().0);
        assert(entries_map(s2) =~= entries_map(s).insert(k, t));
    }
}

// ---------------------------------------------------------------------------
// Unification
// ---------------------------------------------------------------------------
/// Binding an unbound variable to an atom or a tuple keeps the
/// substitution well formed.
proof fn lemma_wf_insert_nonvar(m: Map<u64, SpecTerm>, v: u64, t: SpecTerm)
    requires
        wf_subst(m),
        !m.contains_key(v),
        !(t matches SpecTerm::Variable(_)),
    ensures
        wf_subst(m.insert(v, t)),
{
    let r = subst_rank(m);
    assert(rank_ok(m, r));
    let m2 = m.insert(v, t);
    let r2 = (|x: u64| if x == v { 0nat } else { (r(x) + 1) as nat });
    assert forall|u: u64| #[trigger] m2.contains_key(u) implies (match m2[u] {
        SpecTerm::Variable(w) => m2.contains_key(w) ==> r2(w) < r2(u),
        _ => true,
    }) by {
        if u != v {
            assert(m.contains_key(u));
            assert(m2[u] == m[u]);
        }
    }
    assert(rank_ok(m2, r2));
}

/// `v` resolves through `m` to the unbound variable `target`.
pub open spec fn walks_to(m: Map<u64, SpecTerm>, v: u64, target: u64) -> bool {
    spec_walk(m, SpecTerm::Variable(v)) == SpecTerm::Variable(target)
}

/// Binding an unbound variable `v` to a variable `w` whose resolution is
/// not `v` keeps the substitution well formed.
proof fn lemma_wf_insert_var(m: Map<u64, SpecTerm>, v: u64, w: u64)
    requires
        wf_subst(m),
        !m.contains_key(v),
        spec_walk(m, SpecTerm::Variable(w)) != SpecTerm::Variable(v),
    ensures
        wf_subst(m.insert(v, SpecTerm::Variable(w))),
{
    let r = subst_rank(m);
    assert(rank_ok(m, r));
    let m2 = m.insert(v, SpecTerm::Variable(w));
    assert(w != v);
    let r2 = (|x: u64|
        if x == v {
            (r(w) + 1) as nat
        } else if walks_to(m, x, v) {
            (r(x) + r(w) + 2) as nat
        } else {
            r(x)
        });
    assert forall|u: u64| #[trigger] m2.contains_key(u) implies (match m2[u] {
        SpecTerm::Variable(w2) => m2.contains_key(w2) ==> r2(w2) < r2(u),
        _ => true,
    }) by {
        if u == v {
            // the new binding v -> w; w does not resolve to v
            if m2.contains_key(w) {
                assert(m.contains_key(w));
                assert(!walks_to(m, w, v));
            }
        } else {
            assert(m.contains_key(u));
            assert(m2[u] == m[u]);
            match m[u] {
                SpecTerm::Variable(w2) => {
                    // walking u takes one step to w2
                    assert(spec_walk(m, SpecTerm::Variable(u)) == spec_walk(m, m[u]));
                    if m2.contains_key(w2) {
                        if w2 == v {
                            assert(walks_to(m, u, v));
                        } else {
                            assert(m.contains_key(w2));
                            assert(r(w2) < r(u));
                            assert(walks_to(m, u, v) == walks_to(m, w2, v));
                        }
                    }
                },
                _ => {},
            }
        }
    }
    assert(rank_ok(m2, r2));
}

/// The outcome of a unification: the terms unified and this is the
/// extended substitution; the terms clash, and the bindings made before
/// the first conflict remain; or the pairwise descent spent its budget,
/// which only a substitution made cyclic through tuple bindings can
/// cause.
pub enum UnifyOutcome {
    Unified(Map<u64, SpecTerm>),
    Clash(Map<u64, SpecTerm>),
    Spent(Map<u64, SpecTerm>),
}

/// The substitution an outcome carries.
pub open spec fn unify_map(o: UnifyOutcome) -> Map<u64, SpecTerm> {
    match o {
        UnifyOutcome::Unified(m) => m,
        UnifyOutcome::Clash(m) => m,
        UnifyOutcome::Spent(m) => m,
    }
}

/// What `unify` computes: walk each side, then apply the unification
/// rules to the walked forms.  Two equal walked variables unify with no
/// new binding; a walked variable is bound to the other walked side;
/// atoms unify when equal; equally long tuples unify pairwise, the
/// bindings accumulating left to right and one unit of fuel paying for
/// each level of tuple descent.  Without an occurs check a binding can
/// make that descent cyclic, so the fuel can run out; no finite store
/// free of such cycles comes near the engine's budget.
pub open spec fn spec_unify_fuel(
    l: SpecTerm,
    r: SpecTerm,
    m: Map<u64, SpecTerm>,
    fuel: nat,
) -> UnifyOutcome
    decreases fuel, 0int, 0int,
{
    let x = spec_walk(m, l);
    let y = spec_walk(m, r);
    match x {
        SpecTerm::Variable(a) => match y {
            SpecTerm::Variable(b) => if a == b {
                UnifyOutcome::Unified(m)
            } else {
                UnifyOutcome::Unified(m.insert(a, y))
            },
            _ => UnifyOutcome::Unified(m.insert(a, y)),
        },
        _ => match y {
            SpecTerm::Variable(b) => UnifyOutcome::Unified(m.insert(b, x)),
            _ => match x {
                SpecTerm::Atom(u) => match y {
                    SpecTerm::Atom(v) => if u == v {
                        UnifyOutcome::Unified(m)
                    } else {
                        UnifyOutcome::Clash(m)
                    },
                    _ => UnifyOutcome::Clash(m),
                },
                SpecTerm::Tuple(us) => match y {
                    SpecTerm::Tuple(vs) => if us.len() != vs.len() {
                        UnifyOutcome::Clash(m)
                    } else if fuel == 0 {
                        UnifyOutcome::Spent(m)
                    } else {
                        spec_unify_seq(us, vs, m, (fuel - 1) as nat)
                    },
                    _ => UnifyOutcome::Clash(m),
                },
                _ => UnifyOutcome::Clash(m),
            },
        },
    }
}

/// Unifies two equally long sequences of terms pairwise, threading the
/// substitution from left to right and stopping at the first conflict.
pub open spec fn spec_unify_seq(
    us: Seq<SpecTerm>,
    vs: Seq<SpecTerm>,
    m: Map<u64, SpecTerm>,
    fuel: nat,
) -> UnifyOutcome
    decreases fuel, 1int, us.len(),
{
    if us.len() == 0 {
        UnifyOutcome::Unified(m)
    } else {
        match spec_unify_fuel(us[0], vs[0], m, fuel) {
            UnifyOutcome::Unified(m2) => spec_unify_seq(us.drop_first(), vs.drop_first(), m2, fuel),
            out => out,
        }
    }
}

/// What `unify` computes, with the engine's own descent budget.
pub open spec fn spec_unify(l: SpecTerm, r: SpecTerm, m: Map<u64, SpecTerm>) -> UnifyOutcome {
    spec_unify_fuel(l, r, m, u64::MAX as nat)
}

/// `m2` keeps every binding of `m1`.
pub open spec fn submap(m1: Map<u64, SpecTerm>, m2: Map<u64, SpecTerm>) -> bool {
    forall|k: u64| #[trigger] m1.contains_key(k) ==> m2.contains_key(k) && m2[k] == m1[k]
}

proof fn lemma_submap_trans(m1: Map<u64, SpecTerm>, m2: Map<u64, SpecTerm>, m3: Map<u64, SpecTerm>)
    requires
        submap(m1, m2),
        submap(m2, m3),
    ensures
        submap(m1, m3),
{
    assert forall|k: u64| #[trigger] m1.contains_key(k) implies m3.contains_key(k) && m3[k]
        == m1[k] by {
        assert(m2.contains_key(k));
    }
}

/// Unification, whatever its outcome, only extends the substitution,
/// never rebinds, and keeps it well formed.
pub proof fn lemma_unify_wf(l: SpecTerm, r: SpecTerm, m: Map<u64, SpecTerm>, fuel: nat)
    requires
        wf_subst(m),
    ensures
        wf_subst(unify_map(spec_unify_fuel(l, r, m, fuel))),
        submap(m, unify_map(spec_unify_fuel(l, r, m, fuel))),
    decreases fuel, 0int, 0int,
{
    lemma_walk_idempotent(m, l);
    lemma_walk_idempotent(m, r);
    let x = spec_walk(m, l);
    let y = spec_walk(m, r);
    match x {
        SpecTerm::Variable(a) => {
            match y {
                SpecTerm::Variable(b) => {
                    if a != b {
                        lemma_wf_insert_var(m, a, b);
                    }
                },
                _ => {
                    lemma_wf_insert_nonvar(m, a, y);
                },
            }
        },
        _ => {
            match y {
                SpecTerm::Variable(b) => {
                    lemma_wf_insert_nonvar(m, b, x);
                },
                _ => {
                    match x {
                        SpecTerm::Tuple(us) => {
                            match y {
                                SpecTerm::Tuple(vs) => {
                                    if us.len() == vs.len() && fuel > 0 {
                                        lemma_unify_seq_wf(us, vs, m, (fuel - 1) as nat);
                                    }
                                },
                                _ => {},
                            }
                        },
                        _ => {},
                    }
                },
            }
        },
    }
}

proof fn lemma_unify_seq_wf(us: Seq<SpecTerm>, vs: Seq<SpecTerm>, m: Map<u64, SpecTerm>, fuel: nat)
    requires
        wf_subst(m),
        us.len() == vs.len(),
    ensures
        wf_subst(unify_map(spec_unify_seq(us, vs, m, fuel))),
        submap(m, unify_map(spec_unify_seq(us, vs, m, fuel))),
    decreases fuel, 1int, us.len(),
{
    if us.len() > 0 {
        lemma_unify_wf(us[0], vs[0], m, fuel);
        match spec_unify_fuel(us[0], vs[0], m, fuel) {
            UnifyOutcome::Unified(m2) => {
                lemma_unify_seq_wf(us.drop_first(), vs.drop_first(), m2, fuel);
                lemma_submap_trans(
                    m,
                    m2,
                    unify_map(spec_unify_seq(us.drop_first(), vs.drop_first(), m2, fuel)),
                );
            },
            _ => {},
        }
    }
}

// ---------------------------------------------------------------------------
// Soundness of unification
// ---------------------------------------------------------------------------
/// Fully resolves `t` through `m`: walks it and, if the result is a
/// tuple, resolves the elements, spending one unit of fuel per tuple
/// level.  Without an occurs check a substitution can make a term
/// resolve into itself forever; `None` reports that the fuel ran out.
pub open spec fn resolve(m: Map<u64, SpecTerm>, t: SpecTerm, fuel: nat) -> Option<SpecTerm>
    decreases fuel, 0int, 0int,
{
    match spec_walk(m, t) {
        SpecTerm::Tuple(ts) => if fuel == 0 {
            None
        } else {
            match resolve_seq(m, ts, (fuel - 1) as nat) {
                Some(rs) => Some(SpecTerm::Tuple(rs)),
                None => None,
            }
        },
        w => Some(w),
    }
}

/// Resolves every term of a sequence, with the same fuel for each.
pub open spec fn resolve_seq(m: Map<u64, SpecTerm>, ts: Seq<SpecTerm>, fuel: nat) -> Option<
    Seq<SpecTerm>,
>
    decreases fuel, 1int, ts.len(),
{
    if ts.len() == 0 {
        Some(Seq::empty())
    } else {
        match resolve(m, ts[0], fuel) {
            Some(h) => match resolve_seq(m, ts.drop_first(), fuel) {
                Some(r) => Some(seq![h] + r),
                None => None,
            },
            None => None,
        }
    }
}

/// Walking commutes with extending the substitution: resolving first
/// through `m` and then through a larger `m2` reaches the same term as
/// resolving through `m2` directly.
proof fn lemma_walk_ext(m: Map<u64, SpecTerm>, m2: Map<u64, SpecTerm>, t: SpecTerm)
    requires
        wf_subst(m),
        wf_subst(m2),
        submap(m, m2),
    ensures
        spec_walk(m2, spec_walk(m, t)) == spec_walk(m2, t),
    decreases walk_measure(m, t),
{
    match t {
        SpecTerm::Variable(v) => {
            if m.contains_key(v) {
                lemma_walk_step(m, v);
                lemma_walk_ext(m, m2, m[v]);
            }
        },
        _ => {},
    }
}

/// Terms with the same walk resolve identically.
proof fn lemma_resolve_same_walk(m: Map<u64, SpecTerm>, t1: SpecTerm, t2: SpecTerm, fuel: nat)
    requires
        spec_walk(m, t1) == spec_walk(m, t2),
    ensures
        resolve(m, t1, fuel) == resolve(m, t2, fuel),
{
}

/// The terms that a successful unification binds resolve to the same
/// tree through any well-formed extension of the resulting substitution,
/// whenever both resolutions terminate within the given fuel.
proof fn lemma_unify_sound_rec(
    a: SpecTerm,
    b: SpecTerm,
    m: Map<u64, SpecTerm>,
    m_fin: Map<u64, SpecTerm>,
    rfuel: nat,
    ufuel: nat,
)
    requires
        wf_subst(m),
        wf_subst(m_fin),
        spec_unify_fuel(a, b, m, ufuel) matches UnifyOutcome::Unified(_),
        submap(unify_map(spec_unify_fuel(a, b, m, ufuel)), m_fin),
        resolve(m_fin, a, rfuel) is Some,
        resolve(m_fin, b, rfuel) is Some,
    ensures
        resolve(m_fin, a, rfuel) == resolve(m_fin, b, rfuel),
    decreases ufuel, 0int, 0int,
{
    lemma_walk_idempotent(m, a);
    lemma_walk_idempotent(m, b);
    let m_next = unify_map(spec_unify_fuel(a, b, m, ufuel));
    lemma_unify_wf(a, b, m, ufuel);
    lemma_submap_trans(m, m_next, m_fin);
    lemma_walk_ext(m, m_fin, a);
    lemma_walk_ext(m, m_fin, b);
    let x = spec_walk(m, a);
    let y = spec_walk(m, b);
    match x {
        SpecTerm::Variable(av) => {
            match y {
                SpecTerm::Variable(bv) => {
                    if av == bv {
                        lemma_resolve_same_walk(m_fin, a, b, rfuel);
                    } else {
                        assert(m_next == m.insert(av, y));
                        assert(m_next.contains_key(av) && m_next[av] == y);
                        assert(m_fin.contains_key(av) && m_fin[av] == y);
                        assert(spec_walk(m_fin, x) == spec_walk(m_fin, y));
                        lemma_resolve_same_walk(m_fin, a, b, rfuel);
                    }
                },
                _ => {
                    assert(m_next == m.insert(av, y));
                    assert(m_next.contains_key(av) && m_next[av] == y);
                    assert(m_fin.contains_key(av) && m_fin[av] == y);
                    assert(spec_walk(m_fin, x) == spec_walk(m_fin, y));
                    lemma_resolve_same_walk(m_fin, a, b, rfuel);
                },
            }
        },
        _ => {
            match y {
                SpecTerm::Variable(bv) => {
                    assert(m_next == m.insert(bv, x));
                    assert(m_next.contains_key(bv) && m_next[bv] == x);
                    assert(m_fin.contains_key(bv) && m_fin[bv] == x);
                    assert(spec_walk(m_fin, y) == spec_walk(m_fin, x));
                    lemma_resolve_same_walk(m_fin, a, b, rfuel);
                },
                _ => {
                    match x {
                        SpecTerm::Atom(_) => {
                            lemma_resolve_same_walk(m_fin, a, b, rfuel);
                        },
                        SpecTerm::Tuple(us) => {
                            match y {
                                SpecTerm::Tuple(vs) => {
                                    assert(us.len() == vs.len());
                                    assert(ufuel > 0);
                                    assert(spec_walk(m_fin, a) == x);
                                    assert(spec_walk(m_fin, b) == y);
                                    assert(rfuel > 0);
                                    let inner = (rfuel - 1) as nat;
                                    assert(resolve_seq(m_fin, us, inner) is Some);
                                    assert(resolve_seq(m_fin, vs, inner) is Some);
                                    lemma_unify_seq_sound_rec(
                                        us,
                                        vs,
                                        m,
                                        m_fin,
                                        inner,
                                        (ufuel - 1) as nat,
                                    );
                                },
                                _ => {},
                            }
                        },
                        _ => {},
                    }
                },
            }
        },
    }
}

proof fn lemma_unify_seq_sound_rec(
    us: Seq<SpecTerm>,
    vs: Seq<SpecTerm>,
    m: Map<u64, SpecTerm>,
    m_fin: Map<u64, SpecTerm>,
    rfuel: nat,
    ufuel: nat,
)
    requires
        wf_subst(m),
        wf_subst(m_fin),
        us.len() == vs.len(),
        spec_unify_seq(us, vs, m, ufuel) matches UnifyOutcome::Unified(_),
        submap(unify_map(spec_unify_seq(us, vs, m, ufuel)), m_fin),
        resolve_seq(m_fin, us, rfuel) is Some,
        resolve_seq(m_fin, vs, rfuel) is Some,
    ensures
        resolve_seq(m_fin, us, rfuel) == resolve_seq(m_fin, vs, rfuel),
    decreases ufuel, 1int, us.len(),
{
    if us.len() > 0 {
        lemma_unify_wf(us[0], vs[0], m, ufuel);
        let m1 = unify_map(spec_unify_fuel(us[0], vs[0], m, ufuel));
        lemma_unify_seq_wf(us.drop_first(), vs.drop_first(), m1, ufuel);
        lemma_submap_trans(
            m1,
            unify_map(spec_unify_seq(us.drop_first(), vs.drop_first(), m1, ufuel)),
            m_fin,
        );
        lemma_unify_sound_rec(us[0], vs[0], m, m_fin, rfuel, ufuel);
        lemma_unify_seq_sound_rec(us.drop_first(), vs.drop_first(), m1, m_fin, rfuel, ufuel);
    }
}

/// Unification is sound: when `unify` succeeds, the two terms resolve
/// to the same tree through the extended substitution, whenever both
/// resolutions terminate within the given fuel.  (The engine omits the
/// occurs check, so a tuple binding such as one of a variable to a tuple
/// containing that variable can make resolution run forever; on such
/// substitutions no fuel suffices and this statement is vacuous.)
pub proof fn lemma_unify_sound(a: SpecTerm, b: SpecTerm, m: Map<u64, SpecTerm>, fuel: nat)
    requires
        wf_subst(m),
        spec_unify(a, b, m) matches UnifyOutcome::Unified(_),
        resolve(unify_map(spec_unify(a, b, m)), a, fuel) is Some,
        resolve(unify_map(spec_unify(a, b, m)), b, fuel) is Some,
    ensures
        resolve(unify_map(spec_unify(a, b, m)), a, fuel) == resolve(
            unify_map(spec_unify(a, b, m)),
            b,
            fuel,
        ),
{
    lemma_unify_wf(a, b, m, u64::MAX as nat);
    let m2 = unify_map(spec_unify(a, b, m));
    assert(submap(m2, m2));
    lemma_unify_sound_rec(a, b, m, m2, fuel, u64::MAX as nat);
}

/// Attempts to unify the left and right terms under the given
/// substitution: walks each side and applies the unification rules to
/// the walked forms, extending the substitution with the bindings they
/// demand.  Returns true exactly when the terms unify.  On failure the
/// bindings made before the first conflict remain and callers should
/// treat the substitution as unusable; in every case the old bindings
/// survive unchanged.  Without an occurs check a tuple binding can make
/// the pairwise descent cyclic; the engine bounds the descent and
/// reports failure if a store ever spends that budget.
pub fn unify(left: &Term, right: &Term, substs: &mut Substitution) -> (r: bool)
    requires
        old(substs).inv(),
        wf_subst(old(substs)@),
    ensures
        final(substs).inv(),
        wf_subst(final(substs)@),
        submap(old(substs)@, final(substs)@),
        final(substs)@ == unify_map(spec_unify(left@, right@, old(substs)@)),
        r == (spec_unify(left@, right@, old(substs)@) matches UnifyOutcome::Unified(_)),
{
    unify_rec(left, right, substs, u64::MAX)
}

fn unify_rec(left: &Term, right: &Term, substs: &mut Substitution, fuel: u64) -> (r: bool)
    requires
        old(substs).inv(),
        wf_subst(old(substs)@),
    ensures
        final(substs).inv(),
        wf_subst(final(substs)@),
        submap(old(substs)@, final(substs)@),
        final(substs)@ == unify_map(spec_unify_fuel(left@, right@, old(substs)@, fuel as nat)),
        r == (spec_unify_fuel(left@, right@, old(substs)@, fuel as nat)
            matches UnifyOutcome::Unified(_)),
    decreases fuel, 0int, 0int,
{
    proof {
        lemma_walk_idempotent(substs@, left@);
        lemma_walk_idempotent(substs@, right@);
        lemma_unify_wf(left@, right@, substs@, fuel as nat);
    }
    let x = clone_term(walk(left, substs));
    let y = clone_term(walk(right, substs));
    match &x {
        Term::Variable(a) => {
            let a: u64 = *a;
            let same = match &y {
                Term::Variable(b) => a == *b,
                _ => false,
            };
            if same {
                true
            } else {
                substs.insert(a, y);
                true
            }
        },
        _ => {
            match &y {
                Term::Variable(b) => {
                    let b: u64 = *b;
                    substs.insert(b, clone_term(&x));
                    true
                },
                _ => {
                    match (&x, &y) {
                        (Term::Atom(u), Term::Atom(v)) => *u == *v,
                        (Term::Tuple(us), Term::Tuple(vs)) => {
                            proof {
                                lemma_seq_view(*us);
                                lemma_seq_view(*vs);
                            }
                            if us.len() != vs.len() {
                                false
                            } else if fuel == 0 {
                                false
                            } else {
                                unify_terms_rec(us, vs, substs, fuel - 1)
                            }
                        },
                        _ => false,
                    }
                },
            }
        },
    }
}

/// Unifies two equally long term vectors pairwise, threading the
/// substitution from left to right; stops at the first conflict.
fn unify_terms_rec(u: &Vec<Term>, v: &Vec<Term>, substs: &mut Substitution, fuel: u64) -> (r: bool)
    requires
        old(substs).inv(),
        wf_subst(old(substs)@),
        u@.len() == v@.len(),
    ensures
        final(substs).inv(),
        wf_subst(final(substs)@),
        submap(old(substs)@, final(substs)@),
        final(substs)@ == unify_map(
            spec_unify_seq(seq_view(*u), seq_view(*v), old(substs)@, fuel as nat),
        ),
        r == (spec_unify_seq(seq_view(*u), seq_view(*v), old(substs)@, fuel as nat)
            matches UnifyOutcome::Unified(_)),
    decreases fuel, 1int, 0int,
{
    let ghost m0 = substs@;
    let ghost su = seq_view(*u);
    let ghost sv = seq_view(*v);
    proof {
        lemma_seq_view(*u);
        lemma_seq_view(*v);
        assert(su.skip(0) =~= su);
        assert(sv.skip(0) =~= sv);
    }
    let n = u.len();
    let mut i: usize = 0;
    while i < n
        invariant
            substs.inv(),
            wf_subst(substs@),
            n == u@.len() == v@.len(),
            m0 == old(substs)@,
            submap(m0, substs@),
            su == seq_view(*u),
            sv == seq_view(*v),
            su.len() == n && sv.len() == n,
            forall|j: int| 0 <= j < n ==> su[j] == u@[j]@ && sv[j] == v@[j]@,
            i <= n,
            spec_unify_seq(su, sv, m0, fuel as nat) == spec_unify_seq(
                su.skip(i as int),
                sv.skip(i as int),
                substs@,
                fuel as nat,
            ),
        decreases n - i,
    {
        let ghost m_before = substs@;
        let ok = unify_rec(&u[i], &v[i], substs, fuel);
        proof {
            assert(su.skip(i as int)[0] == u@[i as int]@);
            assert(sv.skip(i as int)[0] == v@[i as int]@);
            assert(su.skip(i as int).drop_first() =~= su.skip(i as int + 1));
            assert(sv.skip(i as int).drop_first() =~= sv.skip(i as int + 1));
            lemma_submap_trans(m0, m_before, substs@);
        }
        if !ok {
            return false;
        }
        i += 1;
    }
    proof {
        assert(su.skip(n as int) =~= Seq::<SpecTerm>::empty());
        assert(sv.skip(n as int) =~= Seq::<SpecTerm>::empty());
    }
    true
}

} // verus!
