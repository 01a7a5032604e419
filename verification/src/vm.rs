use crate::assoc::{
    assoc_keys_unique, assoc_map, lemma_assoc_contains, lemma_assoc_len, lemma_assoc_push,
    lemma_assoc_update, lemma_assoc_value,
};
use crate::errors::RuntimeError;
use crate::logic::{
    clone_goal, goal_answers, stream_answers, stream_wf, Conj2, Disj2, Goal, SpecGoal, Stream,
    Unify,
};
use crate::unification::{clone_term, seq_view, term_eq, SpecTerm, Substitution, Term};
use vstd::prelude::*;
use vstd::string::StrSliceExecFns;
use vstd::string::StringExecFns;

verus! {

broadcast use vstd::seq::group_seq_axioms;

/// The identifier type for interned atoms.
pub type AtomType = u64;

/// What a callable is: a plain function, or a relation whose returned
/// goal is wrapped against its parameters.
#[derive(Clone, Copy, Debug, PartialEq, Eq, Structural)]
pub enum CallableKind {
    Function,
    Relation,
}

/// One instruction of the virtual machine.
#[derive(Debug)]
pub enum Opcode {
    /// Push a new atom term.
    Atom(AtomType),
    /// Push a new variable term.
    Variable(u64),
    /// Pop two goals and push their conjunction.
    Conj2,
    /// Pop two goals and push their disjunction.
    Disj2,
    /// Pop two terms and push the goal that unifies them.
    Unify,
    /// Pop a goal and push the stream of its answers under the empty
    /// substitution.
    Solve,
    /// Pop a stream; push it back with the next answer as a table, or
    /// push the none value when the stream is exhausted.
    Next,
    /// Pop the top of the stack.
    Pop,
    /// Push a new empty table.
    NewTable,
    /// Pop a value and a key and insert them into the table below.
    SetTable,
    /// Pop a key and push the value stored under it in the table below.
    GetTable,
    /// Pop a value and a variable term and bind the variable to the
    /// value in the environment.
    SetEnv,
    /// Pop a variable term and push the value bound to it.
    GetEnv,
    /// Pop a callable and run it in a fresh activation frame.
    Call,
    /// Return from the current activation; a relation's returned goal is
    /// wrapped against its parameters and the call's arguments.
    Ret,
    /// Push a callable literal.
    Callable {
        kind: CallableKind,
        parameters: Vec<u64>,
        instructions: Vec<Opcode>,
        ip: usize,
    },
}

/// The mathematical value of an instruction.
pub enum SpecOp {
    Atom(u64),
    Variable(u64),
    Conj2,
    Disj2,
    Unify,
    Solve,
    Next,
    Pop,
    NewTable,
    SetTable,
    GetTable,
    SetEnv,
    GetEnv,
    Call,
    Ret,
    Callable { kind: CallableKind, parameters: Seq<u64>, instructions: Seq<SpecOp>, ip: nat },
}

/// The models of the instructions of `ops` from position `i` on.
pub open spec fn ops_view_from(ops: Vec<Opcode>, i: int) -> Seq<SpecOp>
    decreases ops, ops@.len() - i,
{
    if 0 <= i < ops@.len() {
        seq![ops@[i]@] + ops_view_from(ops, i + 1)
    } else {
        Seq::empty()
    }
}

/// The model of an instruction buffer.
pub open spec fn ops_view(ops: Vec<Opcode>) -> Seq<SpecOp>
    decreases ops, ops@.len() + 1,
{
    ops_view_from(ops, 0)
}

impl View for Opcode {
    type V = SpecOp;

    open spec fn view(&self) -> SpecOp
        decreases self, 0int,
    {
        match self {
            Opcode::Atom(a) => SpecOp::Atom(*a),
            Opcode::Variable(v) => SpecOp::Variable(*v),
            Opcode::Conj2 => SpecOp::Conj2,
            Opcode::Disj2 => SpecOp::Disj2,
            Opcode::Unify => SpecOp::Unify,
            Opcode::Solve => SpecOp::Solve,
            Opcode::Next => SpecOp::Next,
            Opcode::Pop => SpecOp::Pop,
            Opcode::NewTable => SpecOp::NewTable,
            Opcode::SetTable => SpecOp::SetTable,
            Opcode::GetTable => SpecOp::GetTable,
            Opcode::SetEnv => SpecOp::SetEnv,
            Opcode::GetEnv => SpecOp::GetEnv,
            Opcode::Call => SpecOp::Call,
            Opcode::Ret => SpecOp::Ret,
            Opcode::Callable { kind, parameters, instructions, ip } => SpecOp::Callable {
                kind: *kind,
                parameters: parameters@,
                instructions: ops_view(*instructions),
                ip: *ip as nat,
            },
        }
    }
}

proof fn lemma_ops_view_from(ops: Vec<Opcode>, i: int)
    requires
        0 <= i <= ops@.len(),
    ensures
        ops_view_from(ops, i).len() == ops@.len() - i,
        forall|j: int| 0 <= j < ops@.len() - i ==> ops_view_from(ops, i)[j] == ops@[i + j]@,
    decreases ops@.len() - i,
{
    if i < ops@.len() {
        lemma_ops_view_from(ops, i + 1);
        let head = seq![ops@[i]@];
        assert(ops_view_from(ops, i) == head + ops_view_from(ops, i + 1));
        assert forall|j: int| 0 <= j < ops@.len() - i implies ops_view_from(ops, i)[j] == ops@[i
            + j]@ by {
            if j == 0 {
                assert((head + ops_view_from(ops, i + 1))[0] == head[0]);
            } else {
                assert((head + ops_view_from(ops, i + 1))[j] == ops_view_from(ops, i + 1)[j - 1]);
            }
        }
    } else {
        assert(ops_view_from(ops, i) == Seq::<SpecOp>::empty());
    }
}

/// How `ops_view` relates to the buffer it models.
pub proof fn lemma_ops_view(ops: Vec<Opcode>)
    ensures
        ops_view(ops).len() == ops@.len(),
        forall|i: int| 0 <= i < ops@.len() ==> ops_view(ops)[i] == ops@[i]@,
{
    lemma_ops_view_from(ops, 0);
    assert forall|i: int| 0 <= i < ops@.len() implies ops_view(ops)[i] == ops@[i]@ by {
        assert(ops_view_from(ops, 0)[i] == ops@[0 + i]@);
    }
}

/// A deep copy of an instruction, equal to the original in the model.
pub fn clone_opcode(op: &Opcode) -> (res: Opcode)
    ensures
        res@ == op@,
    decreases op,
{
    match op {
        Opcode::Atom(a) => Opcode::Atom(*a),
        Opcode::Variable(v) => Opcode::Variable(*v),
        Opcode::Conj2 => Opcode::Conj2,
        Opcode::Disj2 => Opcode::Disj2,
        Opcode::Unify => Opcode::Unify,
        Opcode::Solve => Opcode::Solve,
        Opcode::Next => Opcode::Next,
        Opcode::Pop => Opcode::Pop,
        Opcode::NewTable => Opcode::NewTable,
        Opcode::SetTable => Opcode::SetTable,
        Opcode::GetTable => Opcode::GetTable,
        Opcode::SetEnv => Opcode::SetEnv,
        Opcode::GetEnv => Opcode::GetEnv,
        Opcode::Call => Opcode::Call,
        Opcode::Ret => Opcode::Ret,
        Opcode::Callable { kind, parameters, instructions, ip } => {
            let mut ps: Vec<u64> = Vec::new();
            let mut i: usize = 0;
            let n = parameters.len();
            while i < n
                invariant
                    n == parameters@.len(),
                    i <= n,
                    ps@ == parameters@.take(i as int),
                decreases n - i,
            {
                ps.push(parameters[i]);
                proof {
                    assert(ps@ =~= parameters@.take(i + 1));
                }
                i += 1;
            }
            proof {
                assert(ps@ =~= parameters@);
            }
            let ops = clone_opcodes(instructions);
            Opcode::Callable { kind: *kind, parameters: ps, instructions: ops, ip: *ip }
        },
    }
}

/// A deep copy of an instruction buffer.
pub fn clone_opcodes(ops: &Vec<Opcode>) -> (res: Vec<Opcode>)
    ensures
        ops_view(res) == ops_view(*ops),
        res@.len() == ops@.len(),
    decreases ops,
{
    let n = ops.len();
    let mut out: Vec<Opcode> = Vec::new();
    let mut i: usize = 0;
    while i < n
        invariant
            n == ops@.len(),
            i <= n,
            out@.len() == i,
            forall|j: int| 0 <= j < i ==> out@[j]@ == ops@[j]@,
        decreases n - i,
    {
        out.push(clone_opcode(&ops[i]));
        i += 1;
    }
    proof {
        lemma_ops_view(out);
        lemma_ops_view(*ops);
        assert(ops_view(out) =~= ops_view(*ops));
    }
    out
}

impl Clone for Opcode {
    fn clone(&self) -> (res: Opcode)
        ensures
            res@ == self@,
    {
        clone_opcode(self)
    }
}

// ---------------------------------------------------------------------------
// Tables
// ---------------------------------------------------------------------------
/// The models of a sequence of term/term entries.
pub open spec fn tpairs_view(s: Seq<(Term, Term)>) -> Seq<(SpecTerm, SpecTerm)> {
    Seq::new(s.len(), |i: int| (s[i].0@, s[i].1@))
}

/// A finite map from terms to terms: the encoding of one answer
/// substitution handed back to user code, and the user-facing
/// associative literal.
#[derive(Debug)]
pub struct Table {
    entries: Vec<(Term, Term)>,
}

impl View for Table {
    type V = Map<SpecTerm, SpecTerm>;

    closed spec fn view(&self) -> Map<SpecTerm, SpecTerm> {
        assoc_map(tpairs_view(self.entries@))
    }
}

impl Table {
    /// The keys of the stored entries are pairwise distinct.
    pub closed spec fn inv(&self) -> bool {
        assoc_keys_unique(tpairs_view(self.entries@))
    }

    /// Creates an empty table.
    pub fn new() -> (t: Table)
        ensures
            t@ == Map::<SpecTerm, SpecTerm>::empty(),
            t.inv(),
    {
        Table { entries: Vec::new() }
    }

    /// The number of entries.
    pub fn len(&self) -> (n: usize)
        requires
            self.inv(),
        ensures
            n == self@.dom().len(),
    {
        proof {
            lemma_assoc_len(tpairs_view(self.entries@));
        }
        self.entries.len()
    }

    /// True if the table has no entries.
    pub fn is_empty(&self) -> (r: bool)
        requires
            self.inv(),
        ensures
            r == (self@ == Map::<SpecTerm, SpecTerm>::empty()),
    {
        proof {
            lemma_assoc_len(tpairs_view(self.entries@));
            if self.entries@.len() == 0 {
                assert(self@ =~= Map::<SpecTerm, SpecTerm>::empty());
            } else {
                lemma_assoc_value(tpairs_view(self.entries@), 0);
            }
        }
        self.entries.len() == 0
    }

    /// Looks up the value stored under `k`, if any.
    pub fn get(&self, k: &Term) -> (r: Option<&Term>)
        requires
            self.inv(),
        ensures
            match r {
                Some(t) => self@.contains_key(k@) && t@ == self@[k@],
                None => !self@.contains_key(k@),
            },
    {
        let ghost p = tpairs_view(self.entries@);
        let n = self.entries.len();
        let mut i: usize = 0;
        while i < n
            invariant
                assoc_keys_unique(p),
                p == tpairs_view(self.entries@),
                n == self.entries@.len(),
                i <= n,
                forall|j: int| 0 <= j < i ==> p[j].0 != k@,
            decreases n - i,
        {
            if term_eq(&self.entries[i].0, k) {
                proof {
                    lemma_assoc_value(p, i as int);
                }
                return Some(&self.entries[i].1);
            }
            i += 1;
        }
        proof {
            lemma_assoc_contains(p, k@);
        }
        None
    }

    /// The stored rows, as key/value pairs with pairwise distinct keys
    /// denoting exactly this table.
    pub fn rows(&self) -> (r: Vec<(Term, Term)>)
        requires
            self.inv(),
        ensures
            assoc_keys_unique(tpairs_view(r@)),
            assoc_map(tpairs_view(r@)) == self@,
    {
        let n = self.entries.len();
        let mut out: Vec<(Term, Term)> = Vec::new();
        let mut i: usize = 0;
        while i < n
            invariant
                self.inv(),
                n == self.entries@.len(),
                i <= n,
                out@.len() == i,
                forall|j: int|
                    0 <= j < i ==> out@[j].0@ == self.entries@[j].0@ && out@[j].1@
                        == self.entries@[j].1@,
            decreases n - i,
        {
            let k = clone_term(&self.entries[i].0);
            let v = clone_term(&self.entries[i].1);
            out.push((k, v));
            i += 1;
        }
        proof {
            assert(tpairs_view(out@) =~= tpairs_view(self.entries@));
        }
        out
    }

    /// Stores `v` under key `k`, replacing any previous value.
    pub fn insert(&mut self, k: Term, v: Term)
        requires
            old(self).inv(),
        ensures
            final(self)@ == old(self)@.insert(k@, v@),
            final(self).inv(),
    {
        let ghost p0 = tpairs_view(self.entries@);
        let n = self.entries.len();
        let mut i: usize = 0;
        while i < n
            invariant
                assoc_keys_unique(p0),
                self.entries@ == old(self).entries@,
                p0 == tpairs_view(self.entries@),
                n == self.entries@.len(),
                i <= n,
                forall|j: int| 0 <= j < i ==> p0[j].0 != k@,
            decreases n - i,
        {
            if term_eq(&self.entries[i].0, &k) {
                let ghost kv = k@;
                let ghost vv = v@;
                self.entries[i] = (k, v);
                proof {
                    let p1 = tpairs_view(self.entries@);
                    assert(p0[i as int].0 == kv);
                    assert(p1 =~= p0.update(i as int, (p0[i as int].0, vv)));
                    lemma_assoc_update(p0, i as int, vv);
                }
                return ;
            }
            i += 1;
        }
        let ghost kv = k@;
        let ghost vv = v@;
        self.entries.push((k, v));
        proof {
            let p1 = tpairs_view(self.entries@);
            assert(p1 =~= p0.push((kv, vv)));
            lemma_assoc_push(p0, kv, vv);
        }
    }
}

// ---------------------------------------------------------------------------
// Values
// ---------------------------------------------------------------------------
/// The mathematical value of a stack element.  A stream is modelled by
/// the sequence of answers it will still yield.
pub enum SpecValue {
    Term(SpecTerm),
    Goal(SpecGoal),
    Stream(Seq<Map<u64, SpecTerm>>),
    Table(Map<SpecTerm, SpecTerm>),
    Nil,
    Callable { kind: CallableKind, parameters: Seq<u64>, instructions: Seq<SpecOp>, ip: nat },
}

/// A value of the virtual machine's heterogeneous stack.  `Nil` is the
/// distinguished no-more-answers sentinel.
pub enum Value {
    Term(Term),
    Goal(Goal),
    Stream(Stream),
    Table(Table),
    Nil,
    Callable { kind: CallableKind, parameters: Vec<u64>, instructions: Vec<Opcode>, ip: usize },
}

impl View for Value {
    type V = SpecValue;

    open spec fn view(&self) -> SpecValue {
        match self {
            Value::Term(t) => SpecValue::Term(t@),
            Value::Goal(g) => SpecValue::Goal(g@),
            Value::Stream(s) => SpecValue::Stream(stream_answers(s@)),
            Value::Table(t) => SpecValue::Table(t@),
            Value::Nil => SpecValue::Nil,
            Value::Callable { kind, parameters, instructions, ip } => SpecValue::Callable {
                kind: *kind,
                parameters: parameters@,
                instructions: ops_view(*instructions),
                ip: *ip as nat,
            },
        }
    }
}

/// The executable well-formedness a value must keep: streams carry only
/// well-formed substitutions, tables keep their keys unique.
pub open spec fn value_inv(v: Value) -> bool {
    match v {
        Value::Stream(s) => s.inv() && stream_wf(s@),
        Value::Table(t) => t.inv(),
        _ => true,
    }
}

/// The models of a sequence of values.
pub open spec fn vals_view(s: Seq<Value>) -> Seq<SpecValue> {
    Seq::new(s.len(), |i: int| s[i]@)
}

/// Every value of the sequence is well formed.
pub open spec fn vals_inv(s: Seq<Value>) -> bool {
    forall|i: int| 0 <= i < s.len() ==> value_inv(#[trigger] s[i])
}

// ---------------------------------------------------------------------------
// Environment
// ---------------------------------------------------------------------------
/// The models of a sequence of id/value entries.
pub open spec fn epairs_view(s: Seq<(u64, Value)>) -> Seq<(u64, SpecValue)> {
    Seq::new(s.len(), |i: int| (s[i].0, s[i].1@))
}

/// The global environment for `let` bindings: a finite map from variable
/// identifiers to values.
struct Environment {
    entries: Vec<(u64, Value)>,
}

impl View for Environment {
    type V = Map<u64, SpecValue>;

    closed spec fn view(&self) -> Map<u64, SpecValue> {
        assoc_map(epairs_view(self.entries@))
    }
}

impl Environment {
    /// Keys are pairwise distinct and every stored value is well formed.
    closed spec fn inv(&self) -> bool {
        assoc_keys_unique(epairs_view(self.entries@)) && forall|i: int|
            0 <= i < self.entries@.len() ==> value_inv(#[trigger] self.entries@[i].1)
    }

    fn new() -> (e: Environment)
        ensures
            e@ == Map::<u64, SpecValue>::empty(),
            e.inv(),
    {
        Environment { entries: Vec::new() }
    }

    /// Looks up the value bound to `k`, if any.
    fn get(&self, k: &u64) -> (r: Option<&Value>)
        requires
            self.inv(),
        ensures
            match r {
                Some(v) => self@.contains_key(*k) && v@ == self@[*k] && value_inv(*v),
                None => !self@.contains_key(*k),
            },
    {
        let ghost p = epairs_view(self.entries@);
        let n = self.entries.len();
        let mut i: usize = 0;
        while i < n
            invariant
                self.inv(),
                p == epairs_view(self.entries@),
                n == self.entries@.len(),
                i <= n,
                forall|j: int| 0 <= j < i ==> p[j].0 != *k,
            decreases n - i,
        {
            if self.entries[i].0 == *k {
                proof {
                    lemma_assoc_value(p, i as int);
                }
                return Some(&self.entries[i].1);
            }
            i += 1;
        }
        proof {
            lemma_assoc_contains(p, *k);
        }
        None
    }

    /// Binds `k` to `v`, replacing any previous binding.
    fn set(&mut self, k: u64, v: Value)
        requires
            old(self).inv(),
            value_inv(v),
        ensures
            final(self)@ == old(self)@.insert(k, v@),
            final(self).inv(),
    {
        let ghost p0 = epairs_view(self.entries@);
        let n = self.entries.len();
        let mut i: usize = 0;
        while i < n
            invariant
                old(self).inv(),
                value_inv(v),
                self.entries@ == old(self).entries@,
                p0 == epairs_view(self.entries@),
                n == self.entries@.len(),
                i <= n,
                forall|j: int| 0 <= j < i ==> p0[j].0 != k,
            decreases n - i,
        {
            if self.entries[i].0 == k {
                let ghost vv = v@;
                let ghost gv = v;
                self.entries[i] = (k, v);
                proof {
                    let p1 = epairs_view(self.entries@);
                    assert(p0[i as int].0 == k);
                    assert(p1 =~= p0.update(i as int, (p0[i as int].0, vv)));
                    lemma_assoc_update(p0, i as int, vv);
                    assert(self.entries@[i as int] == (k, gv));
                    assert(value_inv(gv));
                    assert forall|j: int|
                        0 <= j < self.entries@.len() implies value_inv(
                        #[trigger] self.entries@[j].1,
                    ) by {
                        if j != i {
                            assert(self.entries@[j] == old(self).entries@[j]);
                            assert(value_inv(old(self).entries@[j].1));
                        }
                    }
                }
                return ;
            }
            i += 1;
        }
        let ghost vv = v@;
        let ghost gv = v;
        self.entries.push((k, v));
        proof {
            let p1 = epairs_view(self.entries@);
            assert(p1 =~= p0.push((k, vv)));
            lemma_assoc_push(p0, k, vv);
            assert(self.entries@[self.entries@.len() - 1] == (k, gv));
            assert(value_inv(gv));
            assert forall|j: int|
                0 <= j < self.entries@.len() implies value_inv(
                #[trigger] self.entries@[j].1,
            ) by {
                if j < self.entries@.len() - 1 {
                    assert(self.entries@[j] == old(self).entries@[j]);
                    assert(value_inv(old(self).entries@[j].1));
                }
            }
        }
    }
}

// ---------------------------------------------------------------------------
// The machine
// ---------------------------------------------------------------------------
/// The models of a sequence of id/name entries.
pub open spec fn spairs_view(s: Seq<(u64, String)>) -> Seq<(u64, Seq<char>)> {
    Seq::new(s.len(), |i: int| (s[i].0, s[i].1@))
}

/// The mathematical state of the virtual machine.
#[verifier::ext_equal]
pub struct SpecVm {
    pub stack: Seq<SpecValue>,
    pub callstack: Seq<SpecValue>,
    pub env: Map<u64, SpecValue>,
    pub interned: Map<u64, Seq<char>>,
    pub next_id: u64,
}

/// The virtual machine: a value stack, a call stack of activation
/// frames, an intern table mapping identifiers to source names, and a
/// global environment for `let` bindings.
pub struct VirtualMachine {
    next_id: u64,
    interned: Vec<(u64, String)>,
    pub stack: Vec<Value>,
    pub callstack: Vec<Value>,
    env: Environment,
}

impl View for VirtualMachine {
    type V = SpecVm;

    closed spec fn view(&self) -> SpecVm {
        SpecVm {
            stack: vals_view(self.stack@),
            callstack: vals_view(self.callstack@),
            env: self.env@,
            interned: assoc_map(spairs_view(self.interned@)),
            next_id: self.next_id,
        }
    }
}

impl VirtualMachine {
    /// Every value on the stacks and in the environment is well formed,
    /// the call stack holds only callables, and the intern table's keys
    /// are distinct.
    pub closed spec fn inv(&self) -> bool {
        &&& vals_inv(self.stack@)
        &&& vals_inv(self.callstack@)
        &&& (forall|i: int|
            0 <= i < self.callstack@.len() ==> (#[trigger] self.callstack@[i]) matches Value::Callable { .. })
        &&& self.env.inv()
        &&& assoc_keys_unique(spairs_view(self.interned@))
    }

    /// Creates a machine with empty stacks, an empty environment, and an
    /// empty intern table.
    pub fn new() -> (vm: VirtualMachine)
        ensures
            vm@.stack == Seq::<SpecValue>::empty(),
            vm@.callstack == Seq::<SpecValue>::empty(),
            vm@.env == Map::<u64, SpecValue>::empty(),
            vm@.interned == Map::<u64, Seq<char>>::empty(),
            vm@.next_id == 0,
            vm.inv(),
    {
        let vm = VirtualMachine {
            next_id: 0,
            interned: Vec::new(),
            stack: Vec::new(),
            callstack: Vec::new(),
            env: Environment::new(),
        };
        proof {
            assert(vals_view(vm.stack@) =~= Seq::<SpecValue>::empty());
            assert(vals_view(vm.callstack@) =~= Seq::<SpecValue>::empty());
            assert(spairs_view(vm.interned@) =~= Seq::<(u64, Seq<char>)>::empty());
        }
        vm
    }

    /// Allocates a fresh identifier and records its source name.  Every
    /// call returns a new identifier, one larger than the last.
    pub fn intern(&mut self, s: &String) -> (id: u64)
        requires
            old(self).inv(),
            old(self)@.next_id < u64::MAX,
            forall|k: u64| old(self)@.interned.contains_key(k) ==> k <= old(self)@.next_id,
        ensures
            final(self).inv(),
            id == old(self)@.next_id + 1,
            final(self)@.next_id == id,
            final(self)@.interned == old(self)@.interned.insert(id, s@),
            final(self)@.stack == old(self)@.stack,
            final(self)@.callstack == old(self)@.callstack,
            final(self)@.env == old(self)@.env,
            forall|k: u64| final(self)@.interned.contains_key(k) ==> k <= final(self)@.next_id,
    {
        let ghost p0 = spairs_view(self.interned@);
        self.next_id = self.next_id + 1;
        let name = clone_string(s);
        proof {
            assert forall|i: int| 0 <= i < p0.len() implies (#[trigger] p0[i]).0
                != self.next_id by {
                lemma_assoc_value(p0, i);
                assert(old(self)@.interned.contains_key(p0[i].0));
            }
        }
        self.interned.push((self.next_id, name));
        proof {
            let p1 = spairs_view(self.interned@);
            assert(p1 =~= p0.push((self.next_id as u64, s@)));
            lemma_assoc_push(p0, self.next_id as u64, s@);
            assert(vals_view(self.stack@) =~= vals_view(old(self).stack@));
            assert(vals_view(self.callstack@) =~= vals_view(old(self).callstack@));
            let fin = self@.interned;
            assert forall|k: u64| fin.contains_key(k) implies k <= self.next_id by {
                if k != self.next_id {
                    assert(old(self)@.interned.contains_key(k));
                }
            }
        }
        self.next_id
    }

    /// Pushes a value onto the value stack, keeping the machine's
    /// invariant for verified callers.
    pub fn push_stack(&mut self, v: Value)
        requires
            old(self).inv(),
            value_inv(v),
        ensures
            final(self).inv(),
            final(self)@.stack == old(self)@.stack.push(v@),
            final(self)@.callstack == old(self)@.callstack,
            final(self)@.env == old(self)@.env,
            final(self)@.interned == old(self)@.interned,
            final(self)@.next_id == old(self)@.next_id,
    {
        let ghost vv = v@;
        proof {
            lemma_vals_inv_push(self.stack@, v);
        }
        self.stack.push(v);
        proof {
            assert(vals_view(self.stack@) =~= old(self)@.stack.push(vv));
            assert(vals_view(self.callstack@) =~= vals_view(old(self).callstack@));
        }
    }

    /// Looks up the source name recorded for an identifier.
    pub fn lookup_interned(&self, id: &u64) -> (r: Option<&String>)
        requires
            self.inv(),
        ensures
            match r {
                Some(name) => self@.interned.contains_key(*id) && name@ == self@.interned[*id],
                None => !self@.interned.contains_key(*id),
            },
    {
        let ghost p = spairs_view(self.interned@);
        let n = self.interned.len();
        let mut i: usize = 0;
        while i < n
            invariant
                self.inv(),
                p == spairs_view(self.interned@),
                n == self.interned@.len(),
                i <= n,
                forall|j: int| 0 <= j < i ==> p[j].0 != *id,
            decreases n - i,
        {
            if self.interned[i].0 == *id {
                proof {
                    lemma_assoc_value(p, i as int);
                }
                return Some(&self.interned[i].1);
            }
            i += 1;
        }
        proof {
            lemma_assoc_contains(p, *id);
        }
        None
    }
}

// ---------------------------------------------------------------------------
// The machine's small-step semantics
// ---------------------------------------------------------------------------
/// The table that encodes an answer substitution: each binding becomes a
/// row from the variable term to the term bound to it.
pub open spec fn table_of_subst(m: Map<u64, SpecTerm>) -> Map<SpecTerm, SpecTerm> {
    Map::new(
        |t: SpecTerm|
            match t {
                SpecTerm::Variable(k) => m.contains_key(k),
                _ => false,
            },
        |t: SpecTerm|
            match t {
                SpecTerm::Variable(k) => m[k],
                _ => t,
            },
    )
}

/// The outcome of one step of the machine: keep running, halt normally,
/// or fail with a diagnostic message and the failing instruction pointer.
pub enum SpecStep {
    Cont(SpecVm),
    Halt(SpecVm),
    Fail(Seq<char>, nat),
}

/// Wrapping a relation's returned goal: for each declared parameter,
/// right to left, pop an argument term and conjoin a unification of the
/// parameter with the argument.
pub open spec fn spec_wrap(params: Seq<u64>, stack: Seq<SpecValue>, acc: SpecGoal) -> Result<
    (SpecGoal, Seq<SpecValue>),
    Seq<char>,
>
    decreases params.len(),
{
    if params.len() == 0 {
        Ok((acc, stack))
    } else if stack.len() == 0 {
        Err("Stack underflow."@)
    } else {
        match stack.last() {
            SpecValue::Term(t) => spec_wrap(
                params.drop_last(),
                stack.drop_last(),
                SpecGoal::Conj2(
                    Box::new(SpecGoal::Unify(SpecTerm::Variable(params.last()), t)),
                    Box::new(acc),
                ),
            ),
            _ => Err("TypeError: Expected term as argument to relation."@),
        }
    }
}

/// What one instruction does to the machine's state, before the
/// instruction pointer advances.  `Ok((state, jumped))` gives the new
/// state; `jumped` reports that a call installed a new activation frame,
/// whose instruction pointer must not be advanced.  `Err` carries the
/// diagnostic message of a runtime failure.
pub open spec fn spec_dispatch(s: SpecVm, op: SpecOp) -> Result<(SpecVm, bool), Seq<char>> {
    match op {
        SpecOp::Atom(a) => Ok(
            (
                SpecVm { stack: s.stack.push(SpecValue::Term(SpecTerm::Atom(a))), ..s },
                false,
            ),
        ),
        SpecOp::Variable(v) => Ok(
            (
                SpecVm { stack: s.stack.push(SpecValue::Term(SpecTerm::Variable(v))), ..s },
                false,
            ),
        ),
        SpecOp::Conj2 => {
            if s.stack.len() == 0 {
                Err("Stack underflow."@)
            } else {
                match s.stack.last() {
                    SpecValue::Goal(right) => {
                        if s.stack.len() == 1 {
                            Err("Stack underflow."@)
                        } else {
                            match s.stack[s.stack.len() - 2] {
                                SpecValue::Goal(left) => Ok(
                                    (
                                        SpecVm {
                                            stack: s.stack.drop_last().drop_last().push(
                                                SpecValue::Goal(
                                                    SpecGoal::Conj2(Box::new(left), Box::new(right)),
                                                ),
                                            ),
                                            ..s
                                        },
                                        false,
                                    ),
                                ),
                                _ => Err("Expected term."@),
                            }
                        }
                    },
                    _ => Err("Expected term."@),
                }
            }
        },
        SpecOp::Disj2 => {
            if s.stack.len() == 0 {
                Err("Stack underflow."@)
            } else {
                match s.stack.last() {
                    SpecValue::Goal(right) => {
                        if s.stack.len() == 1 {
                            Err("Stack underflow."@)
                        } else {
                            match s.stack[s.stack.len() - 2] {
                                SpecValue::Goal(left) => Ok(
                                    (
                                        SpecVm {
                                            stack: s.stack.drop_last().drop_last().push(
                                                SpecValue::Goal(
                                                    SpecGoal::Disj2(Box::new(left), Box::new(right)),
                                                ),
                                            ),
                                            ..s
                                        },
                                        false,
                                    ),
                                ),
                                _ => Err("Expected term."@),
                            }
                        }
                    },
                    _ => Err("Expected term."@),
                }
            }
        },
        SpecOp::Unify => {
            if s.stack.len() == 0 {
                Err("Stack underflow."@)
            } else {
                match s.stack.last() {
                    SpecValue::Term(right) => {
                        if s.stack.len() == 1 {
                            Err("Stack underflow."@)
                        } else {
                            match s.stack[s.stack.len() - 2] {
                                SpecValue::Term(left) => Ok(
                                    (
                                        SpecVm {
                                            stack: s.stack.drop_last().drop_last().push(
                                                SpecValue::Goal(SpecGoal::Unify(left, right)),
                                            ),
                                            ..s
                                        },
                                        false,
                                    ),
                                ),
                                _ => Err("Expected term."@),
                            }
                        }
                    },
                    _ => Err("Expected term."@),
                }
            }
        },
        SpecOp::Solve => {
            if s.stack.len() == 0 {
                Err("Stack underflow."@)
            } else {
                match s.stack.last() {
                    SpecValue::Goal(g) => Ok(
                        (
                            SpecVm {
                                stack: s.stack.drop_last().push(
                                    SpecValue::Stream(
                                        goal_answers(g, Map::<u64, SpecTerm>::empty()),
                                    ),
                                ),
                                ..s
                            },
                            false,
                        ),
                    ),
                    _ => Err("TypeError: Expected goal."@),
                }
            }
        },
        SpecOp::Next => {
            if s.stack.len() == 0 {
                Err("Stack underflow."@)
            } else {
                match s.stack.last() {
                    SpecValue::Stream(answers) => {
                        if answers.len() > 0 {
                            Ok(
                                (
                                    SpecVm {
                                        stack: s.stack.drop_last().push(
                                            SpecValue::Stream(answers.drop_first()),
                                        ).push(SpecValue::Table(table_of_subst(answers[0]))),
                                        ..s
                                    },
                                    false,
                                ),
                            )
                        } else {
                            Ok(
                                (
                                    SpecVm {
                                        stack: s.stack.drop_last().push(SpecValue::Nil),
                                        ..s
                                    },
                                    false,
                                ),
                            )
                        }
                    },
                    _ => Err("Unexpected value."@),
                }
            }
        },
        SpecOp::Pop => {
            if s.stack.len() == 0 {
                Err("Stack underflow."@)
            } else {
                Ok((SpecVm { stack: s.stack.drop_last(), ..s }, false))
            }
        },
        SpecOp::NewTable => Ok(
            (
                SpecVm {
                    stack: s.stack.push(SpecValue::Table(Map::<SpecTerm, SpecTerm>::empty())),
                    ..s
                },
                false,
            ),
        ),
        SpecOp::SetTable => {
            if s.stack.len() == 0 {
                Err("Stack underflow."@)
            } else {
                match s.stack.last() {
                    SpecValue::Term(v) => {
                        if s.stack.len() == 1 {
                            Err("Stack underflow."@)
                        } else {
                            match s.stack[s.stack.len() - 2] {
                                SpecValue::Term(k) => {
                                    if s.stack.len() == 2 {
                                        Err("Stack underflow."@)
                                    } else {
                                        match s.stack[s.stack.len() - 3] {
                                            SpecValue::Table(t) => Ok(
                                                (
                                                    SpecVm {
                                                        stack: s.stack.drop_last().drop_last().update(
                                                            s.stack.len() - 3,
                                                            SpecValue::Table(t.insert(k, v)),
                                                        ),
                                                        ..s
                                                    },
                                                    false,
                                                ),
                                            ),
                                            _ => Err("Expected table."@),
                                        }
                                    }
                                },
                                _ => Err("TypeError: Expected term."@),
                            }
                        }
                    },
                    _ => Err("TypeError: Expected term."@),
                }
            }
        },
        SpecOp::GetTable => {
            if s.stack.len() == 0 {
                Err("Stack underflow."@)
            } else {
                match s.stack.last() {
                    SpecValue::Term(k) => {
                        if s.stack.len() == 1 {
                            Err("Stack underflow."@)
                        } else {
                            match s.stack[s.stack.len() - 2] {
                                SpecValue::Table(t) => {
                                    if t.contains_key(k) {
                                        Ok(
                                            (
                                                SpecVm {
                                                    stack: s.stack.drop_last().push(
                                                        SpecValue::Term(t[k]),
                                                    ),
                                                    ..s
                                                },
                                                false,
                                            ),
                                        )
                                    } else {
                                        Ok(
                                            (
                                                SpecVm {
                                                    stack: s.stack.drop_last().push(SpecValue::Nil),
                                                    ..s
                                                },
                                                false,
                                            ),
                                        )
                                    }
                                },
                                _ => Err("TypeError: Expected table."@),
                            }
                        }
                    },
                    _ => Err("TypeError: Expected Term."@),
                }
            }
        },
        SpecOp::SetEnv => {
            if s.stack.len() == 0 {
                Err("Stack underflow."@)
            } else {
                let value = s.stack.last();
                if s.stack.len() == 1 {
                    Err("Stack underflow."@)
                } else {
                    match s.stack[s.stack.len() - 2] {
                        SpecValue::Term(SpecTerm::Variable(id)) => Ok(
                            (
                                SpecVm {
                                    stack: s.stack.drop_last().drop_last(),
                                    env: s.env.insert(id, value),
                                    ..s
                                },
                                false,
                            ),
                        ),
                        _ => Err("TypeError: Expected variable."@),
                    }
                }
            }
        },
        SpecOp::GetEnv => {
            if s.stack.len() == 0 {
                Err("Stack underflow."@)
            } else {
                match s.stack.last() {
                    SpecValue::Term(SpecTerm::Variable(id)) => {
                        if s.env.contains_key(id) {
                            match s.env[id] {
                                SpecValue::Stream(_) => Err(
                                    "Accessing streams through variables is not implemented."@,
                                ),
                                v => Ok(
                                    (
                                        SpecVm { stack: s.stack.drop_last().push(v), ..s },
                                        false,
                                    ),
                                ),
                            }
                        } else {
                            Err("Undefined variable."@)
                        }
                    },
                    _ => Err("TypeError: Expected variable."@),
                }
            }
        },
        SpecOp::Call => {
            if s.stack.len() == 0 {
                Err("Stack underflow."@)
            } else {
                match s.stack.last() {
                    SpecValue::Callable { kind, parameters, instructions, ip } => Ok(
                        (
                            SpecVm {
                                stack: s.stack.drop_last(),
                                callstack: s.callstack.push(
                                    SpecValue::Callable { kind, parameters, instructions, ip },
                                ),
                                ..s
                            },
                            true,
                        ),
                    ),
                    _ => Err("TypeError: Expected callable."@),
                }
            }
        },
        SpecOp::Ret => {
            match s.callstack.last() {
                SpecValue::Callable { kind, parameters, .. } => {
                    let s1 = SpecVm { callstack: s.callstack.drop_last(), ..s };
                    if kind == CallableKind::Relation {
                        if s1.stack.len() == 0 {
                            Err("Stack underflow."@)
                        } else {
                            match s1.stack.last() {
                                SpecValue::Goal(g) => {
                                    match spec_wrap(parameters, s1.stack.drop_last(), g) {
                                        Ok((wrapped, stack2)) => Ok(
                                            (
                                                SpecVm {
                                                    stack: stack2.push(SpecValue::Goal(wrapped)),
                                                    ..s1
                                                },
                                                false,
                                            ),
                                        ),
                                        Err(msg) => Err(msg),
                                    }
                                },
                                _ => Err("TypeError: Unexpected type returned from relation."@),
                            }
                        }
                    } else {
                        Ok((s1, false))
                    }
                },
                _ => Err("TypeError: Expected callable."@),
            }
        },
        SpecOp::Callable { kind, parameters, instructions, ip } => Ok(
            (
                SpecVm {
                    stack: s.stack.push(
                        SpecValue::Callable { kind, parameters, instructions, ip },
                    ),
                    ..s
                },
                false,
            ),
        ),
    }
}

/// After an instruction runs, the instruction pointer of whatever frame
/// is now on top advances; a frame that reaches the end of its buffer
/// returns implicitly.
pub open spec fn spec_post(s: SpecVm) -> SpecVm {
    if s.callstack.len() == 0 {
        s
    } else {
        match s.callstack.last() {
            SpecValue::Callable { kind, parameters, instructions, ip } => {
                if ip + 1 >= instructions.len() {
                    SpecVm { callstack: s.callstack.drop_last(), ..s }
                } else {
                    SpecVm {
                        callstack: s.callstack.drop_last().push(
                            SpecValue::Callable { kind, parameters, instructions, ip: ip + 1 },
                        ),
                        ..s
                    }
                }
            },
            _ => s,
        }
    }
}

/// One step of the machine: an empty call stack halts execution; a frame
/// with nothing left to run returns implicitly; otherwise the frame's
/// current instruction runs and the instruction pointer advances.
pub open spec fn spec_step(s: SpecVm) -> SpecStep {
    if s.callstack.len() == 0 {
        SpecStep::Halt(s)
    } else {
        match s.callstack.last() {
            SpecValue::Callable { instructions, ip, .. } => {
                if ip >= instructions.len() {
                    SpecStep::Cont(SpecVm { callstack: s.callstack.drop_last(), ..s })
                } else {
                    match spec_dispatch(s, instructions[ip as int]) {
                        Ok((s2, jumped)) => if jumped {
                            SpecStep::Cont(s2)
                        } else {
                            SpecStep::Cont(spec_post(s2))
                        },
                        Err(msg) => SpecStep::Fail(msg, ip),
                    }
                }
            },
            _ => SpecStep::Fail("Callstack must only contain callables."@, 0),
        }
    }
}

/// Up to `n` steps of the machine: the first halt or failure within `n`
/// steps, or the state still running after `n` steps.
pub open spec fn spec_run(s: SpecVm, n: nat) -> SpecStep
    decreases n,
{
    if n == 0 {
        SpecStep::Cont(s)
    } else {
        match spec_step(s) {
            SpecStep::Cont(s2) => spec_run(s2, (n - 1) as nat),
            outcome => outcome,
        }
    }
}

/// Running one more step from a still-running state.
proof fn lemma_spec_run_snoc(s0: SpecVm, n: nat, s: SpecVm)
    requires
        spec_run(s0, n) == SpecStep::Cont(s),
    ensures
        spec_run(s0, n + 1) == spec_step(s),
    decreases n,
{
    if n > 0 {
        match spec_step(s0) {
            SpecStep::Cont(s2) => {
                lemma_spec_run_snoc(s2, (n - 1) as nat, s);
            },
            _ => {},
        }
    } else {
        assert(s == s0);
        match spec_step(s) {
            SpecStep::Cont(s2) => {
                assert(spec_run(s, 1) == spec_run(s2, 0));
                assert(spec_run(s2, 0) == SpecStep::Cont(s2));
            },
            _ => {
                assert(spec_run(s, 1) == spec_step(s));
            },
        }
    }
}

/// Once the machine has halted or failed, further steps change nothing.
pub proof fn lemma_spec_run_stable(s: SpecVm, n: nat, n2: nat)
    requires
        n <= n2,
        !(spec_run(s, n) matches SpecStep::Cont(_)),
    ensures
        spec_run(s, n2) == spec_run(s, n),
    decreases n,
{
    if n == 0 {
        assert(spec_run(s, 0) == SpecStep::Cont(s));
        assert(false);
    } else {
        match spec_step(s) {
            SpecStep::Cont(s2) => {
                lemma_spec_run_stable(s2, (n - 1) as nat, (n2 - 1) as nat);
            },
            _ => {},
        }
    }
}

// ---------------------------------------------------------------------------
// Value presentation
// ---------------------------------------------------------------------------
/// The decimal digit characters.
pub open spec fn digit_char(d: int) -> char {
    if d == 0 {
        '0'
    } else if d == 1 {
        '1'
    } else if d == 2 {
        '2'
    } else if d == 3 {
        '3'
    } else if d == 4 {
        '4'
    } else if d == 5 {
        '5'
    } else if d == 6 {
        '6'
    } else if d == 7 {
        '7'
    } else if d == 8 {
        '8'
    } else {
        '9'
    }
}

/// The decimal text of a number.
pub open spec fn spec_decimal(n: nat) -> Seq<char>
    decreases n,
{
    if n < 10 {
        seq![digit_char(n as int)]
    } else {
        spec_decimal(n / 10).push(digit_char((n % 10) as int))
    }
}

fn digit_text(d: u64) -> (s: &'static str)
    requires
        d < 10,
    ensures
        s@ == seq![digit_char(d as int)],
{
    if d == 0 {
        proof {
            reveal_strlit("0");
            assert("0"@ =~= seq!['0']);
        }
        "0"
    } else if d == 1 {
        proof {
            reveal_strlit("1");
            assert("1"@ =~= seq!['1']);
        }
        "1"
    } else if d == 2 {
        proof {
            reveal_strlit("2");
            assert("2"@ =~= seq!['2']);
        }
        "2"
    } else if d == 3 {
        proof {
            reveal_strlit("3");
            assert("3"@ =~= seq!['3']);
        }
        "3"
    } else if d == 4 {
        proof {
            reveal_strlit("4");
            assert("4"@ =~= seq!['4']);
        }
        "4"
    } else if d == 5 {
        proof {
            reveal_strlit("5");
            assert("5"@ =~= seq!['5']);
        }
        "5"
    } else if d == 6 {
        proof {
            reveal_strlit("6");
            assert("6"@ =~= seq!['6']);
        }
        "6"
    } else if d == 7 {
        proof {
            reveal_strlit("7");
            assert("7"@ =~= seq!['7']);
        }
        "7"
    } else if d == 8 {
        proof {
            reveal_strlit("8");
            assert("8"@ =~= seq!['8']);
        }
        "8"
    } else {
        proof {
            reveal_strlit("9");
            assert("9"@ =~= seq!['9']);
        }
        "9"
    }
}

/// The decimal text of a number.
pub fn u64_text(n: u64) -> (s: String)
    ensures
        s@ == spec_decimal(n as nat),
    decreases n,
{
    if n < 10 {
        digit_text(n).to_owned()
    } else {
        let mut rest = u64_text(n / 10);
        rest.append(digit_text(n % 10));
        proof {
            assert(rest@ =~= spec_decimal(n as nat));
        }
        rest
    }
}

/// The presented text of a term: identifiers are rehydrated through the
/// intern table, unknown identifiers fall back to their decimal value,
/// and a tuple brackets its comma-separated elements.
pub open spec fn spec_render_term(interned: Map<u64, Seq<char>>, t: SpecTerm) -> Seq<char>
    decreases t, 0int,
{
    match t {
        SpecTerm::Atom(a) => if interned.contains_key(a) {
            interned[a]
        } else {
            spec_decimal(a as nat)
        },
        SpecTerm::Variable(v) => if interned.contains_key(v) {
            interned[v]
        } else {
            spec_decimal(v as nat)
        },
        SpecTerm::Tuple(ts) => seq!['['] + spec_render_terms(interned, ts) + seq![']'],
    }
}

/// The presented text of a sequence of terms, comma separated.
pub open spec fn spec_render_terms(interned: Map<u64, Seq<char>>, ts: Seq<SpecTerm>) -> Seq<char>
    decreases ts, 1int,
{
    if ts.len() == 0 {
        Seq::empty()
    } else if ts.len() == 1 {
        spec_render_term(interned, ts[0])
    } else {
        spec_render_term(interned, ts[0]) + seq![',', ' '] + spec_render_terms(
            interned,
            ts.drop_first(),
        )
    }
}

impl VirtualMachine {
    /// Renders a term for presentation: interned identifiers are
    /// replaced by their source names, unknown identifiers fall back to
    /// their decimal value, and tuples bracket their elements.
    pub fn render_term(&self, t: &Term) -> (s: String)
        requires
            self.inv(),
        ensures
            s@ == spec_render_term(self@.interned, t@),
        decreases t, 0int,
    {
        match t {
            Term::Atom(a) => match self.lookup_interned(a) {
                Some(name) => clone_string(name),
                None => u64_text(*a),
            },
            Term::Variable(v) => match self.lookup_interned(v) {
                Some(name) => clone_string(name),
                None => u64_text(*v),
            },
            Term::Tuple(ts) => {
                let mut out = "[".to_owned();
                out.append(self.render_terms(ts).as_str());
                out.append("]");
                proof {
                    reveal_strlit("[");
                    reveal_strlit("]");
                    assert("["@ =~= seq!['[']);
                    assert("]"@ =~= seq![']']);
                    assert(out@ =~= spec_render_term(self@.interned, t@));
                }
                out
            },
        }
    }

    /// Renders the elements of a tuple, comma separated.
    fn render_terms(&self, ts: &Vec<Term>) -> (s: String)
        requires
            self.inv(),
        ensures
            s@ == spec_render_terms(self@.interned, seq_view(*ts)),
        decreases ts, 1int,
    {
        let ghost tv = seq_view(*ts);
        proof {
            crate::unification::lemma_seq_view(*ts);
            assert(tv.skip(0) =~= tv);
        }
        let mut out = String::new();
        let n = ts.len();
        let mut i: usize = 0;
        while i < n
            invariant
                self.inv(),
                n == ts@.len(),
                i <= n,
                tv == seq_view(*ts),
                tv.len() == n,
                forall|j: int| 0 <= j < n ==> tv[j] == ts@[j]@,
                spec_render_terms(self@.interned, tv) == out@ + spec_render_terms(
                    self@.interned,
                    tv.skip(i as int),
                ),
            decreases n - i,
        {
            proof {
                assert(tv.skip(i as int)[0] == tv[i as int]);
                assert(tv.skip(i as int).drop_first() =~= tv.skip(i + 1));
            }
            let ghost before = out@;
            out.append(self.render_term(&ts[i]).as_str());
            if i + 1 < n {
                out.append(", ");
                proof {
                    reveal_strlit(", ");
                    assert(", "@ =~= seq![',', ' ']);
                    assert(spec_render_terms(self@.interned, tv.skip(i as int)) =~= spec_render_term(
                        self@.interned,
                        tv[i as int],
                    ) + seq![',', ' '] + spec_render_terms(self@.interned, tv.skip(i + 1)));
                    assert(spec_render_terms(self@.interned, tv) =~= out@ + spec_render_terms(
                        self@.interned,
                        tv.skip(i + 1),
                    ));
                }
            } else {
                proof {
                    assert(tv.skip(i + 1) =~= Seq::<SpecTerm>::empty());
                    assert(spec_render_terms(self@.interned, tv) =~= out@ + spec_render_terms(
                        self@.interned,
                        tv.skip(i + 1),
                    ));
                }
            }
            i += 1;
        }
        proof {
            assert(tv.skip(n as int) =~= Seq::<SpecTerm>::empty());
            assert(out@ =~= spec_render_terms(self@.interned, tv));
        }
        out
    }
}

/// A copy of a string with the same characters.
pub fn clone_string(s: &String) -> (res: String)
    ensures
        res@ == s@,
{
    s.clone()
}

/// An owned copy of a message literal.
fn msg_of(s: &str) -> (r: String)
    ensures
        r@ == s@,
{
    s.to_owned()
}

/// A copy of a vector of identifiers.
fn copy_ids(v: &Vec<u64>) -> (r: Vec<u64>)
    ensures
        r@ == v@,
{
    let mut out: Vec<u64> = Vec::new();
    let mut i: usize = 0;
    let n = v.len();
    while i < n
        invariant
            n == v@.len(),
            i <= n,
            out@ == v@.take(i as int),
        decreases n - i,
    {
        out.push(v[i]);
        proof {
            assert(out@ =~= v@.take(i + 1));
        }
        i += 1;
    }
    proof {
        assert(out@ =~= v@);
    }
    out
}

proof fn lemma_vals_inv_push(s: Seq<Value>, v: Value)
    requires
        vals_inv(s),
        value_inv(v),
    ensures
        vals_inv(s.push(v)),
{
    assert forall|i: int| 0 <= i < s.push(v).len() implies value_inv(#[trigger] s.push(v)[i]) by {
        if i < s.len() {
            assert(s.push(v)[i] == s[i]);
            assert(value_inv(s[i]));
        } else {
            assert(s.push(v)[i] == v);
        }
    }
}

proof fn lemma_vals_inv_drop(s: Seq<Value>)
    requires
        vals_inv(s),
        s.len() > 0,
    ensures
        vals_inv(s.drop_last()),
        value_inv(s.last()),
{
    assert(value_inv(s[s.len() - 1]));
    assert forall|i: int| 0 <= i < s.drop_last().len() implies value_inv(
        #[trigger] s.drop_last()[i],
    ) by {
        assert(s.drop_last()[i] == s[i]);
        assert(value_inv(s[i]));
    }
}

/// Inserting a binding into a substitution adds one row to its table.
proof fn lemma_table_of_insert(m: Map<u64, SpecTerm>, k: u64, t: SpecTerm)
    ensures
        table_of_subst(m.insert(k, t)) == table_of_subst(m).insert(SpecTerm::Variable(k), t),
{
    assert(table_of_subst(m.insert(k, t)) =~= table_of_subst(m).insert(SpecTerm::Variable(k), t));
}

/// The table that encodes one answer substitution: one row per binding,
/// from the variable term to the term bound to it.
fn build_answer_table(substs: &Substitution) -> (t: Table)
    requires
        substs.inv(),
    ensures
        t.inv(),
        t@ == table_of_subst(substs@),
{
    let items = substs.items();
    let ghost p = crate::unification::pairs_view(items@);
    let mut table = Table::new();
    proof {
        assert(p.take(0) =~= Seq::<(u64, SpecTerm)>::empty());
        assert(table@ =~= table_of_subst(crate::unification::entries_map(p.take(0))));
    }
    let n = items.len();
    let mut i: usize = 0;
    while i < n
        invariant
            n == items@.len(),
            i <= n,
            p == crate::unification::pairs_view(items@),
            crate::unification::entries_map(p) == substs@,
            table.inv(),
            table@ == table_of_subst(crate::unification::entries_map(p.take(i as int))),
        decreases n - i,
    {
        let k = items[i].0;
        let v = clone_term(&items[i].1);
        table.insert(Term::Variable(k), v);
        proof {
            let pm = crate::unification::entries_map(p.take(i as int));
            assert(p.take(i + 1).drop_last() =~= p.take(i as int));
            assert(p.take(i + 1).last() == p[i as int]);
            assert(crate::unification::entries_map(p.take(i + 1)) == pm.insert(
                p[i as int].0,
                p[i as int].1,
            ));
            lemma_table_of_insert(pm, p[i as int].0, p[i as int].1);
        }
        i += 1;
    }
    proof {
        assert(p.take(n as int) =~= p);
    }
    table
}

impl VirtualMachine {
    /// Executes one instruction against the machine state; `Ok` reports
    /// whether a call installed a new activation frame, `Err` a runtime
    /// failure at instruction pointer `ip`.
    #[verifier::rlimit(100)]
    fn dispatch(&mut self, op: Opcode, ip: usize) -> (r: Result<bool, RuntimeError>)
        requires
            old(self).inv(),
            old(self)@.callstack.len() > 0,
        ensures
            final(self).inv(),
            match r {
                Ok(jumped) => spec_dispatch(old(self)@, op@) == Ok::<(SpecVm, bool), Seq<char>>(
                    (final(self)@, jumped),
                ),
                Err(e) => spec_dispatch(old(self)@, op@) == Err::<(SpecVm, bool), Seq<char>>(
                    e.msg@,
                ) && e.ip == ip,
            },
    {
        let ghost pre = old(self)@;
        match op {
            Opcode::Atom(a) => {
                proof {
                    lemma_vals_inv_push(self.stack@, Value::Term(Term::Atom(a)));
                }
                self.stack.push(Value::Term(Term::Atom(a)));
                proof {
                    assert(vals_view(self.stack@) =~= pre.stack.push(
                        SpecValue::Term(SpecTerm::Atom(a)),
                    ));
                    assert(self@ =~= SpecVm {
                        stack: pre.stack.push(SpecValue::Term(SpecTerm::Atom(a))),
                        ..pre
                    });
                }
                Ok(false)
            },
            Opcode::Variable(v) => {
                proof {
                    lemma_vals_inv_push(self.stack@, Value::Term(Term::Variable(v)));
                }
                self.stack.push(Value::Term(Term::Variable(v)));
                proof {
                    assert(vals_view(self.stack@) =~= pre.stack.push(
                        SpecValue::Term(SpecTerm::Variable(v)),
                    ));
                    assert(self@ =~= SpecVm {
                        stack: pre.stack.push(SpecValue::Term(SpecTerm::Variable(v))),
                        ..pre
                    });
                }
                Ok(false)
            },
            Opcode::Conj2 => {
                proof {
                    if self.stack@.len() > 0 {
                        lemma_vals_inv_drop(self.stack@);
                    }
                }
                match self.stack.pop() {
                    Some(Value::Goal(right)) => {
                        proof {
                            if self.stack@.len() > 0 {
                                lemma_vals_inv_drop(self.stack@);
                            }
                            assert(vals_view(self.stack@) =~= pre.stack.drop_last());
                        }
                        match self.stack.pop() {
                            Some(Value::Goal(left)) => {
                                let g = Goal::Conj2(Conj2::new(left, right));
                                let ghost gv = g@;
                                proof {
                                    lemma_vals_inv_push(self.stack@, Value::Goal(g));
                                }
                                self.stack.push(Value::Goal(g));
                                proof {
                                    assert(vals_view(self.stack@)
                                        =~= pre.stack.drop_last().drop_last().push(
                                        SpecValue::Goal(gv),
                                    ));
                                    assert(self@ =~= SpecVm {
                                        stack: pre.stack.drop_last().drop_last().push(
                                            SpecValue::Goal(gv),
                                        ),
                                        ..pre
                                    });
                                }
                                Ok(false)
                            },
                            Some(_) => Err(
                                RuntimeError { msg: msg_of("Expected term."), ip },
                            ),
                            None => Err(
                                RuntimeError { msg: msg_of("Stack underflow."), ip },
                            ),
                        }
                    },
                    Some(_) => Err(RuntimeError { msg: msg_of("Expected term."), ip }),
                    None => Err(RuntimeError { msg: msg_of("Stack underflow."), ip }),
                }
            },
            Opcode::Disj2 => {
                proof {
                    if self.stack@.len() > 0 {
                        lemma_vals_inv_drop(self.stack@);
                    }
                }
                match self.stack.pop() {
                    Some(Value::Goal(right)) => {
                        proof {
                            if self.stack@.len() > 0 {
                                lemma_vals_inv_drop(self.stack@);
                            }
                            assert(vals_view(self.stack@) =~= pre.stack.drop_last());
                        }
                        match self.stack.pop() {
                            Some(Value::Goal(left)) => {
                                let g = Goal::Disj2(Disj2::new(left, right));
                                let ghost gv = g@;
                                proof {
                                    lemma_vals_inv_push(self.stack@, Value::Goal(g));
                                }
                                self.stack.push(Value::Goal(g));
                                proof {
                                    assert(vals_view(self.stack@)
                                        =~= pre.stack.drop_last().drop_last().push(
                                        SpecValue::Goal(gv),
                                    ));
                                    assert(self@ =~= SpecVm {
                                        stack: pre.stack.drop_last().drop_last().push(
                                            SpecValue::Goal(gv),
                                        ),
                                        ..pre
                                    });
                                }
                                Ok(false)
                            },
                            Some(_) => Err(
                                RuntimeError { msg: msg_of("Expected term."), ip },
                            ),
                            None => Err(
                                RuntimeError { msg: msg_of("Stack underflow."), ip },
                            ),
                        }
                    },
                    Some(_) => Err(RuntimeError { msg: msg_of("Expected term."), ip }),
                    None => Err(RuntimeError { msg: msg_of("Stack underflow."), ip }),
                }
            },
            Opcode::Unify => {
                proof {
                    if self.stack@.len() > 0 {
                        lemma_vals_inv_drop(self.stack@);
                    }
                }
                match self.stack.pop() {
                    Some(Value::Term(right)) => {
                        proof {
                            if self.stack@.len() > 0 {
                                lemma_vals_inv_drop(self.stack@);
                            }
                            assert(vals_view(self.stack@) =~= pre.stack.drop_last());
                        }
                        match self.stack.pop() {
                            Some(Value::Term(left)) => {
                                let g = Goal::Unify(Unify::new(left, right));
                                let ghost gv = g@;
                                proof {
                                    lemma_vals_inv_push(self.stack@, Value::Goal(g));
                                }
                                self.stack.push(Value::Goal(g));
                                proof {
                                    assert(vals_view(self.stack@)
                                        =~= pre.stack.drop_last().drop_last().push(
                                        SpecValue::Goal(gv),
                                    ));
                                    assert(self@ =~= SpecVm {
                                        stack: pre.stack.drop_last().drop_last().push(
                                            SpecValue::Goal(gv),
                                        ),
                                        ..pre
                                    });
                                }
                                Ok(false)
                            },
                            Some(_) => Err(
                                RuntimeError { msg: msg_of("Expected term."), ip },
                            ),
                            None => Err(
                                RuntimeError { msg: msg_of("Stack underflow."), ip },
                            ),
                        }
                    },
                    Some(_) => Err(RuntimeError { msg: msg_of("Expected term."), ip }),
                    None => Err(RuntimeError { msg: msg_of("Stack underflow."), ip }),
                }
            },
            Opcode::Solve => {
                proof {
                    if self.stack@.len() > 0 {
                        lemma_vals_inv_drop(self.stack@);
                    }
                }
                match self.stack.pop() {
                    Some(Value::Goal(goal)) => {
                        let substs = Substitution::new();
                        proof {
                            crate::unification::lemma_wf_empty();
                        }
                        let stream = goal.solve(&substs);
                        proof {
                            crate::logic::lemma_solve_answers(goal@, Map::<u64, SpecTerm>::empty());
                            lemma_vals_inv_push(self.stack@, Value::Stream(stream));
                        }
                        self.stack.push(Value::Stream(stream));
                        proof {
                            assert(vals_view(self.stack@) =~= pre.stack.drop_last().push(
                                SpecValue::Stream(
                                    goal_answers(
                                        pre.stack.last()->Goal_0,
                                        Map::<u64, SpecTerm>::empty(),
                                    ),
                                ),
                            ));
                            assert(self@ =~= SpecVm {
                                stack: pre.stack.drop_last().push(
                                    SpecValue::Stream(
                                        goal_answers(
                                            pre.stack.last()->Goal_0,
                                            Map::<u64, SpecTerm>::empty(),
                                        ),
                                    ),
                                ),
                                ..pre
                            });
                        }
                        Ok(false)
                    },
                    Some(_) => Err(RuntimeError { msg: msg_of("TypeError: Expected goal."), ip }),
                    None => Err(RuntimeError { msg: msg_of("Stack underflow."), ip }),
                }
            },
            Opcode::Next => {
                proof {
                    if self.stack@.len() > 0 {
                        lemma_vals_inv_drop(self.stack@);
                    }
                }
                match self.stack.pop() {
                    Some(Value::Stream(mut stream)) => {
                        let ghost ans = stream_answers(stream@);
                        match stream.next() {
                            Some(substs) => {
                                let table = build_answer_table(&substs);
                                proof {
                                    lemma_vals_inv_push(self.stack@, Value::Stream(stream));
                                }
                                self.stack.push(Value::Stream(stream));
                                proof {
                                    lemma_vals_inv_push(self.stack@, Value::Table(table));
                                }
                                self.stack.push(Value::Table(table));
                                proof {
                                    assert(vals_view(self.stack@) =~= pre.stack.drop_last().push(
                                        SpecValue::Stream(ans.drop_first()),
                                    ).push(SpecValue::Table(table_of_subst(ans[0]))));
                                    assert(self@ =~= SpecVm {
                                        stack: pre.stack.drop_last().push(
                                            SpecValue::Stream(ans.drop_first()),
                                        ).push(SpecValue::Table(table_of_subst(ans[0]))),
                                        ..pre
                                    });
                                }
                                Ok(false)
                            },
                            None => {
                                proof {
                                    lemma_vals_inv_push(self.stack@, Value::Nil);
                                }
                                self.stack.push(Value::Nil);
                                proof {
                                    assert(vals_view(self.stack@) =~= pre.stack.drop_last().push(
                                        SpecValue::Nil,
                                    ));
                                    assert(self@ =~= SpecVm {
                                        stack: pre.stack.drop_last().push(SpecValue::Nil),
                                        ..pre
                                    });
                                }
                                Ok(false)
                            },
                        }
                    },
                    Some(_) => Err(RuntimeError { msg: msg_of("Unexpected value."), ip }),
                    None => Err(RuntimeError { msg: msg_of("Stack underflow."), ip }),
                }
            },
            Opcode::Pop => {
                proof {
                    if self.stack@.len() > 0 {
                        lemma_vals_inv_drop(self.stack@);
                    }
                }
                match self.stack.pop() {
                    Some(_) => {
                        proof {
                            assert(vals_view(self.stack@) =~= pre.stack.drop_last());
                            assert(self@ =~= SpecVm { stack: pre.stack.drop_last(), ..pre });
                        }
                        Ok(false)
                    },
                    None => Err(RuntimeError { msg: msg_of("Stack underflow."), ip }),
                }
            },
            Opcode::NewTable => {
                let table = Table::new();
                proof {
                    lemma_vals_inv_push(self.stack@, Value::Table(table));
                }
                self.stack.push(Value::Table(table));
                proof {
                    assert(vals_view(self.stack@) =~= pre.stack.push(
                        SpecValue::Table(Map::<SpecTerm, SpecTerm>::empty()),
                    ));
                    assert(self@ =~= SpecVm {
                        stack: pre.stack.push(
                            SpecValue::Table(Map::<SpecTerm, SpecTerm>::empty()),
                        ),
                        ..pre
                    });
                }
                Ok(false)
            },
            Opcode::SetTable => {
                proof {
                    if self.stack@.len() > 0 {
                        lemma_vals_inv_drop(self.stack@);
                    }
                }
                match self.stack.pop() {
                    Some(Value::Term(value)) => {
                        proof {
                            if self.stack@.len() > 0 {
                                lemma_vals_inv_drop(self.stack@);
                            }
                            assert(vals_view(self.stack@) =~= pre.stack.drop_last());
                        }
                        match self.stack.pop() {
                            Some(Value::Term(key)) => {
                                let n = self.stack.len();
                                if n == 0 {
                                    return Err(
                                        RuntimeError { msg: msg_of("Stack underflow."), ip },
                                    );
                                }
                                proof {
                                    assert(vals_view(self.stack@) =~= pre.stack.drop_last().drop_last());
                                    assert(value_inv(self.stack@[n - 1]));
                                }
                                let ghost kv = key@;
                                let ghost vv = value@;
                                let top = &mut self.stack[n - 1];
                                match top {
                                    Value::Table(t) => {
                                        t.insert(key, value);
                                        proof {
                                            assert(vals_view(self.stack@) =~= pre.stack.drop_last().drop_last().update(
                                                pre.stack.len() - 3,
                                                self.stack@[n - 1]@,
                                            ));
                                            assert forall|i: int|
                                                0 <= i < self.stack@.len() implies value_inv(
                                                #[trigger] self.stack@[i],
                                            ) by {
                                                if i != n - 1 {
                                                    assert(self.stack@[i] == old(self).stack@.drop_last().drop_last()[i]);
                                                }
                                            }
                                            assert(self@ =~= SpecVm {
                                                stack: pre.stack.drop_last().drop_last().update(
                                                    pre.stack.len() - 3,
                                                    SpecValue::Table(
                                                        (pre.stack[pre.stack.len() - 3])->Table_0.insert(kv, vv),
                                                    ),
                                                ),
                                                ..pre
                                            });
                                        }
                                        Ok(false)
                                    },
                                    _ => Err(RuntimeError { msg: msg_of("Expected table."), ip }),
                                }
                            },
                            Some(_) => Err(
                                RuntimeError { msg: msg_of("TypeError: Expected term."), ip },
                            ),
                            None => Err(
                                RuntimeError { msg: msg_of("Stack underflow."), ip },
                            ),
                        }
                    },
                    Some(_) => Err(
                        RuntimeError { msg: msg_of("TypeError: Expected term."), ip },
                    ),
                    None => Err(RuntimeError { msg: msg_of("Stack underflow."), ip }),
                }
            },
            Opcode::GetTable => {
                proof {
                    if self.stack@.len() > 0 {
                        lemma_vals_inv_drop(self.stack@);
                    }
                }
                match self.stack.pop() {
                    Some(Value::Term(key)) => {
                        let n = self.stack.len();
                        if n == 0 {
                            return Err(RuntimeError { msg: msg_of("Stack underflow."), ip });
                        }
                        proof {
                            assert(vals_view(self.stack@) =~= pre.stack.drop_last());
                            assert(value_inv(self.stack@[n - 1]));
                        }
                        let found: Option<Term> = match &self.stack[n - 1] {
                            Value::Table(t) => {
                                match t.get(&key) {
                                    Some(term) => Some(clone_term(term)),
                                    None => None,
                                }
                            },
                            _ => {
                                return Err(
                                    RuntimeError { msg: msg_of("TypeError: Expected table."), ip },
                                );
                            },
                        };
                        match found {
                            Some(term) => {
                                proof {
                                    lemma_vals_inv_push(self.stack@, Value::Term(term));
                                }
                                let ghost tv = term@;
                                self.stack.push(Value::Term(term));
                                proof {
                                    assert(vals_view(self.stack@) =~= pre.stack.drop_last().push(
                                        SpecValue::Term(tv),
                                    ));
                                    assert(self@ =~= SpecVm {
                                        stack: pre.stack.drop_last().push(SpecValue::Term(tv)),
                                        ..pre
                                    });
                                }
                                Ok(false)
                            },
                            None => {
                                proof {
                                    lemma_vals_inv_push(self.stack@, Value::Nil);
                                }
                                self.stack.push(Value::Nil);
                                proof {
                                    assert(vals_view(self.stack@) =~= pre.stack.drop_last().push(
                                        SpecValue::Nil,
                                    ));
                                    assert(self@ =~= SpecVm {
                                        stack: pre.stack.drop_last().push(SpecValue::Nil),
                                        ..pre
                                    });
                                }
                                Ok(false)
                            },
                        }
                    },
                    Some(_) => Err(
                        RuntimeError { msg: msg_of("TypeError: Expected Term."), ip },
                    ),
                    None => Err(RuntimeError { msg: msg_of("Stack underflow."), ip }),
                }
            },
            Opcode::SetEnv => {
                proof {
                    if self.stack@.len() > 0 {
                        lemma_vals_inv_drop(self.stack@);
                    }
                }
                match self.stack.pop() {
                    Some(value) => {
                        let ghost vv = value@;
                        proof {
                            if self.stack@.len() > 0 {
                                lemma_vals_inv_drop(self.stack@);
                            }
                            assert(vals_view(self.stack@) =~= pre.stack.drop_last());
                        }
                        match self.stack.pop() {
                            Some(Value::Term(Term::Variable(id))) => {
                                self.env.set(id, value);
                                proof {
                                    assert(vals_view(self.stack@)
                                        =~= pre.stack.drop_last().drop_last());
                                    assert(self@ =~= SpecVm {
                                        stack: pre.stack.drop_last().drop_last(),
                                        env: pre.env.insert(id, vv),
                                        ..pre
                                    });
                                }
                                Ok(false)
                            },
                            Some(_) => Err(
                                RuntimeError { msg: msg_of("TypeError: Expected variable."), ip },
                            ),
                            None => Err(
                                RuntimeError { msg: msg_of("Stack underflow."), ip },
                            ),
                        }
                    },
                    None => Err(RuntimeError { msg: msg_of("Stack underflow."), ip }),
                }
            },
            Opcode::GetEnv => {
                proof {
                    if self.stack@.len() > 0 {
                        lemma_vals_inv_drop(self.stack@);
                    }
                }
                match self.stack.pop() {
                    Some(Value::Term(Term::Variable(id))) => {
                        proof {
                            assert(vals_view(self.stack@) =~= pre.stack.drop_last());
                        }
                        let copied: Value = match self.env.get(&id) {
                            Some(stored) => {
                                match stored {
                                    Value::Term(t) => Value::Term(clone_term(t)),
                                    Value::Goal(g) => Value::Goal(clone_goal(g)),
                                    Value::Table(t) => Value::Table(t.clone()),
                                    Value::Nil => Value::Nil,
                                    Value::Callable { kind, parameters, instructions, ip: cip } => {
                                        Value::Callable {
                                            kind: *kind,
                                            parameters: copy_ids(parameters),
                                            instructions: clone_opcodes(instructions),
                                            ip: *cip,
                                        }
                                    },
                                    Value::Stream(_) => {
                                        return Err(
                                            RuntimeError {
                                                msg: msg_of(
                                                    "Accessing streams through variables is not implemented.",
                                                ),
                                                ip,
                                            },
                                        );
                                    },
                                }
                            },
                            None => {
                                return Err(
                                    RuntimeError { msg: msg_of("Undefined variable."), ip },
                                );
                            },
                        };
                        let ghost cv = copied@;
                        proof {
                            lemma_vals_inv_push(self.stack@, copied);
                        }
                        self.stack.push(copied);
                        proof {
                            assert(cv == pre.env[id]);
                            assert(vals_view(self.stack@) =~= pre.stack.drop_last().push(cv));
                            assert(self@ =~= SpecVm {
                                stack: pre.stack.drop_last().push(pre.env[id]),
                                ..pre
                            });
                        }
                        Ok(false)
                    },
                    Some(_) => Err(
                        RuntimeError { msg: msg_of("TypeError: Expected variable."), ip },
                    ),
                    None => Err(RuntimeError { msg: msg_of("Stack underflow."), ip }),
                }
            },
            Opcode::Call => {
                proof {
                    if self.stack@.len() > 0 {
                        lemma_vals_inv_drop(self.stack@);
                    }
                }
                match self.stack.pop() {
                    Some(v) => {
                        let is_callable = match &v {
                            Value::Callable { .. } => true,
                            _ => false,
                        };
                        if is_callable {
                            let ghost cv = v@;
                            proof {
                                lemma_vals_inv_push(self.callstack@, v);
                            }
                            self.callstack.push(v);
                            proof {
                                assert(vals_view(self.stack@) =~= pre.stack.drop_last());
                                assert(vals_view(self.callstack@) =~= pre.callstack.push(cv));
                                assert(self@ =~= SpecVm {
                                    stack: pre.stack.drop_last(),
                                    callstack: pre.callstack.push(cv),
                                    ..pre
                                });
                                assert forall|i: int|
                                    0 <= i < self.callstack@.len() implies (
                                #[trigger] self.callstack@[i]) matches Value::Callable { .. } by {
                                    if i < self.callstack@.len() - 1 {
                                        assert(self.callstack@[i] == old(self).callstack@[i]);
                                    }
                                }
                            }
                            Ok(true)
                        } else {
                            Err(RuntimeError { msg: msg_of("TypeError: Expected callable."), ip })
                        }
                    },
                    None => Err(RuntimeError { msg: msg_of("Stack underflow."), ip }),
                }
            },
            Opcode::Ret => {
                proof {
                    lemma_vals_inv_drop(self.callstack@);
                    assert(self.callstack@.last() matches Value::Callable { .. });
                }
                match self.callstack.pop() {
                    Some(Value::Callable { kind, parameters, instructions: frame_instrs, ip: frame_ip }) => {
                        let ghost frame_sv = SpecValue::Callable {
                            kind,
                            parameters: parameters@,
                            instructions: ops_view(frame_instrs),
                            ip: frame_ip as nat,
                        };
                        proof {
                            assert(pre.callstack.last() == frame_sv);
                        }
                        proof {
                            assert(vals_view(self.callstack@) =~= pre.callstack.drop_last());
                            assert forall|i: int|
                                0 <= i < self.callstack@.len() implies (
                            #[trigger] self.callstack@[i]) matches Value::Callable { .. } by {
                                assert(self.callstack@[i] == old(self).callstack@[i]);
                            }
                        }
                        if kind == CallableKind::Relation {
                            proof {
                                if self.stack@.len() > 0 {
                                    lemma_vals_inv_drop(self.stack@);
                                }
                            }
                            match self.stack.pop() {
                                Some(Value::Goal(goal)) => {
                                    let ghost stack0 = pre.stack.drop_last();
                                    let ghost g0 = goal@;
                                    proof {
                                        assert(vals_view(self.stack@) =~= stack0);
                                    }
                                    let mut result = goal;
                                    let mut j = parameters.len();
                                    proof {
                                        assert(parameters@.take(j as int) =~= parameters@);
                                    }
                                    while j > 0
                                        invariant
                                            self.inv(),
                                            j <= parameters@.len(),
                                            op@ == SpecOp::Ret,
                                            pre == old(self)@,
                                            pre.callstack.len() > 0,
                                            pre.callstack.last() == (SpecValue::Callable {
                                                kind,
                                                parameters: parameters@,
                                                instructions: ops_view(frame_instrs),
                                                ip: frame_ip as nat,
                                            }),
                                            kind == CallableKind::Relation,
                                            pre.stack.len() > 0,
                                            pre.stack.last() == SpecValue::Goal(g0),
                                            stack0 == pre.stack.drop_last(),
                                            self@.callstack == pre.callstack.drop_last(),
                                            self@.env == pre.env,
                                            self@.interned == pre.interned,
                                            self@.next_id == pre.next_id,
                                            spec_wrap(
                                                parameters@.take(j as int),
                                                vals_view(self.stack@),
                                                result@,
                                            ) == spec_wrap(parameters@, stack0, g0),
                                        decreases j,
                                    {
                                        j -= 1;
                                        let pj = parameters[j];
                                        let ghost sb = vals_view(self.stack@);
                                        let ghost accb = result@;
                                        proof {
                                            assert(parameters@.take(j + 1).last() == parameters@[j as int]);
                                            assert(parameters@.take(j + 1).drop_last() =~= parameters@.take(j as int));
                                            if self.stack@.len() > 0 {
                                                lemma_vals_inv_drop(self.stack@);
                                            }
                                        }
                                        match self.stack.pop() {
                                            Some(Value::Term(term)) => {
                                                let ghost tv = term@;
                                                proof {
                                                    assert(sb.last() == SpecValue::Term(tv));
                                                    assert(vals_view(self.stack@) =~= sb.drop_last());
                                                }
                                                result = Goal::Conj2(
                                                    Conj2::new(
                                                        Goal::Unify(
                                                            Unify::new(Term::Variable(pj), term),
                                                        ),
                                                        result,
                                                    ),
                                                );
                                                proof {
                                                    assert(result@ == SpecGoal::Conj2(
                                                        Box::new(
                                                            SpecGoal::Unify(
                                                                SpecTerm::Variable(
                                                                    parameters@.take(j + 1).last(),
                                                                ),
                                                                tv,
                                                            ),
                                                        ),
                                                        Box::new(accb),
                                                    ));
                                                    assert(spec_wrap(
                                                        parameters@.take(j as int),
                                                        vals_view(self.stack@),
                                                        result@,
                                                    ) == spec_wrap(parameters@.take(j + 1), sb, accb));
                                                }
                                            },
                                            Some(_) => {
                                                proof {
                                                    assert(spec_wrap(parameters@.take(j + 1), sb, accb)
                                                        == Err::<(SpecGoal, Seq<SpecValue>), Seq<char>>(
                                                        "TypeError: Expected term as argument to relation."@,
                                                    ));
                                                }
                                                return Err(
                                                    RuntimeError {
                                                        msg: msg_of(
                                                            "TypeError: Expected term as argument to relation.",
                                                        ),
                                                        ip,
                                                    },
                                                );
                                            },
                                            None => {
                                                proof {
                                                    assert(sb.len() == 0);
                                                    assert(spec_wrap(parameters@.take(j + 1), sb, accb)
                                                        == Err::<(SpecGoal, Seq<SpecValue>), Seq<char>>(
                                                        "Stack underflow."@,
                                                    ));
                                                }
                                                return Err(
                                                    RuntimeError {
                                                        msg: msg_of("Stack underflow."),
                                                        ip,
                                                    },
                                                );
                                            },
                                        }
                                    }
                                    proof {
                                        assert(parameters@.take(0) =~= Seq::<u64>::empty());
                                        lemma_vals_inv_push(self.stack@, Value::Goal(result));
                                    }
                                    let ghost rv = result@;
                                    let ghost stack2 = vals_view(self.stack@);
                                    self.stack.push(Value::Goal(result));
                                    proof {
                                        assert(vals_view(self.stack@) =~= stack2.push(
                                            SpecValue::Goal(rv),
                                        ));
                                        assert(self@ =~= SpecVm {
                                            stack: stack2.push(SpecValue::Goal(rv)),
                                            callstack: pre.callstack.drop_last(),
                                            ..pre
                                        });
                                    }
                                    Ok(false)
                                },
                                Some(_) => Err(
                                    RuntimeError {
                                        msg: msg_of(
                                            "TypeError: Unexpected type returned from relation.",
                                        ),
                                        ip,
                                    },
                                ),
                                None => Err(
                                    RuntimeError { msg: msg_of("Stack underflow."), ip },
                                ),
                            }
                        } else {
                            proof {
                                assert(self@ =~= SpecVm {
                                    callstack: pre.callstack.drop_last(),
                                    ..pre
                                });
                            }
                            Ok(false)
                        }
                    },
                    Some(v) => {
                        proof {
                            assert(false);
                        }
                        Err(RuntimeError { msg: msg_of("TypeError: Expected callable."), ip })
                    },
                    None => {
                        proof {
                            assert(false);
                        }
                        Err(RuntimeError { msg: msg_of("Call stack underflow."), ip })
                    },
                }
            },
            Opcode::Callable { kind, parameters, instructions, ip: cip } => {
                let v = Value::Callable { kind, parameters, instructions, ip: cip };
                let ghost cv = v@;
                proof {
                    lemma_vals_inv_push(self.stack@, v);
                }
                self.stack.push(v);
                proof {
                    assert(vals_view(self.stack@) =~= pre.stack.push(cv));
                    assert(self@ =~= SpecVm { stack: pre.stack.push(cv), ..pre });
                }
                Ok(false)
            },
        }
    }
}

impl VirtualMachine {
    /// Runs an instruction buffer in a fresh activation frame until the
    /// call stack empties (success), an instruction fails (the error
    /// names the failure and the instruction pointer), or the step
    /// budget of the machine is spent.  Execution follows the machine's
    /// small-step semantics exactly, step by step.
    pub fn run(&mut self, instr: Vec<Opcode>) -> (r: Result<(), RuntimeError>)
        requires
            old(self).inv(),
        ensures
            final(self).inv(),
            ({
                let boot = SpecVm {
                    callstack: old(self)@.callstack.push(
                        SpecValue::Callable {
                            kind: CallableKind::Function,
                            parameters: Seq::empty(),
                            instructions: ops_view(instr),
                            ip: 0,
                        },
                    ),
                    ..old(self)@
                };
                match r {
                    Ok(()) => exists|n: nat| spec_run(boot, n) == SpecStep::Halt(final(self)@),
                    Err(e) => (exists|n: nat|
                        #[trigger] spec_run(boot, n) matches SpecStep::Fail(msg, fip) && e.msg@
                            == msg && e.ip == fip) || (e.msg@ == "Execution budget exhausted."@
                        && e.ip == 0 && spec_run(boot, u64::MAX as nat) matches SpecStep::Cont(_)),
                }
            }),
    {
        let ghost old_vm = self@;
        let frame = Value::Callable {
            kind: CallableKind::Function,
            parameters: Vec::new(),
            instructions: instr,
            ip: 0,
        };
        let ghost frame_v = frame@;
        proof {
            lemma_vals_inv_push(self.callstack@, frame);
        }
        self.callstack.push(frame);
        proof {
            assert(vals_view(self.callstack@) =~= old_vm.callstack.push(frame_v));
            assert forall|i: int|
                0 <= i < self.callstack@.len() implies (#[trigger] self.callstack@[i]) matches Value::Callable { .. } by {
                if i < self.callstack@.len() - 1 {
                    assert(self.callstack@[i] == old(self).callstack@[i]);
                }
            }
        }
        let ghost boot = self@;
        proof {
            assert(boot =~= SpecVm {
                callstack: old_vm.callstack.push(
                    SpecValue::Callable {
                        kind: CallableKind::Function,
                        parameters: Seq::empty(),
                        instructions: ops_view(instr),
                        ip: 0,
                    },
                ),
                ..old_vm
            });
        }
        let ghost mut steps: nat = 0;
        let mut fuel: u64 = u64::MAX;
        loop
            invariant
                self.inv(),
                boot == (SpecVm {
                    callstack: old(self)@.callstack.push(
                        SpecValue::Callable {
                            kind: CallableKind::Function,
                            parameters: Seq::empty(),
                            instructions: ops_view(instr),
                            ip: 0,
                        },
                    ),
                    ..old(self)@
                }),
                steps + fuel == u64::MAX,
                spec_run(boot, steps) == SpecStep::Cont(self@),
            decreases fuel,
        {
            if fuel == 0 {
                proof {
                    assert(steps == u64::MAX as nat);
                    assert(spec_run(boot, u64::MAX as nat) matches SpecStep::Cont(_));
                }
                return Err(RuntimeError { msg: msg_of("Execution budget exhausted."), ip: 0 });
            }
            fuel = fuel - 1;
            let ghost cur = self@;
            let cs_len = self.callstack.len();
            if cs_len == 0 {
                proof {
                    lemma_spec_run_snoc(boot, steps, cur);
                    assert(spec_step(cur) == SpecStep::Halt(cur));
                    assert(spec_run(boot, steps + 1) == SpecStep::Halt(self@));
                }
                return Ok(());
            }
            // fetch the current frame's instruction
            let mut frame_ip: usize = 0;
            let mut frame_len: usize = 0;
            let ghost mut iv: Seq<SpecOp> = Seq::empty();
            let ghost mut fk: CallableKind = CallableKind::Function;
            let ghost mut fp: Seq<u64> = Seq::empty();
            let mut fetched: Option<Opcode> = None;
            match &self.callstack[cs_len - 1] {
                Value::Callable { kind, parameters, instructions, ip } => {
                    proof {
                        lemma_ops_view(*instructions);
                        iv = ops_view(*instructions);
                        fk = *kind;
                        fp = parameters@;
                    }
                    frame_ip = *ip;
                    frame_len = instructions.len();
                    if frame_ip < frame_len {
                        fetched = Some(clone_opcode(&instructions[frame_ip]));
                    }
                },
                _ => {
                    proof {
                        assert(false);
                    }
                },
            }
            proof {
                assert(cur.callstack.last() == (SpecValue::Callable {
                    kind: fk,
                    parameters: fp,
                    instructions: iv,
                    ip: frame_ip as nat,
                }));
                assert(iv.len() == frame_len);
            }
            if frame_ip >= frame_len {
                // a frame with nothing left to run returns implicitly
                let ghost cs_before = self.callstack@;
                proof {
                    lemma_vals_inv_drop(self.callstack@);
                }
                self.callstack.pop();
                proof {
                    assert(vals_view(self.callstack@) =~= cur.callstack.drop_last());
                    assert forall|i: int|
                        0 <= i < self.callstack@.len() implies (#[trigger] self.callstack@[i]) matches Value::Callable { .. } by {
                        assert(self.callstack@[i] == cs_before[i]);
                    }
                    assert(self@ =~= SpecVm { callstack: cur.callstack.drop_last(), ..cur });
                    assert(spec_step(cur) == SpecStep::Cont(self@));
                    lemma_spec_run_snoc(boot, steps, cur);
                    steps = steps + 1;
                }
                continue ;
            }
            let op = match fetched {
                Some(o) => o,
                None => {
                    proof {
                        assert(false);
                    }
                    Opcode::Pop
                },
            };
            proof {
                assert(op@ == iv[frame_ip as int]);
            }
            let res = self.dispatch(op, frame_ip);
            match res {
                Err(e) => {
                    proof {
                        assert(spec_step(cur) == SpecStep::Fail(e.msg@, frame_ip as nat));
                        lemma_spec_run_snoc(boot, steps, cur);
                        assert(spec_run(boot, steps + 1) matches SpecStep::Fail(msg, fip) && e.msg@
                            == msg && e.ip == fip);
                    }
                    return Err(e);
                },
                Ok(jumped) => {
                    let ghost mid = self@;
                    if jumped {
                        proof {
                            assert(spec_step(cur) == SpecStep::Cont(mid));
                            lemma_spec_run_snoc(boot, steps, cur);
                            steps = steps + 1;
                        }
                    } else {
                        // the instruction pointer of the frame now on top
                        // advances; a finished frame returns implicitly
                        let cs2 = self.callstack.len();
                        if cs2 > 0 {
                            let ghost cs_mid = self.callstack@;
                            let ghost mut e_ip: nat = 0;
                            let ghost mut e_iv: Seq<SpecOp> = Seq::empty();
                            let ghost mut e_k: CallableKind = CallableKind::Function;
                            let ghost mut e_p: Seq<u64> = Seq::empty();
                            let mut do_pop = false;
                            match &mut self.callstack[cs2 - 1] {
                                Value::Callable { kind, parameters, instructions, ip } => {
                                    proof {
                                        lemma_ops_view(*instructions);
                                        e_ip = *ip as nat;
                                        e_iv = ops_view(*instructions);
                                        e_k = *kind;
                                        e_p = parameters@;
                                    }
                                    let l = instructions.len();
                                    if l == 0 {
                                        do_pop = true;
                                    } else if *ip >= l - 1 {
                                        do_pop = true;
                                    } else {
                                        *ip = *ip + 1;
                                    }
                                    proof {
                                        lemma_ops_view(*instructions);
                                    }
                                },
                                _ => {
                                    proof {
                                        assert(false);
                                    }
                                },
                            }
                            proof {
                                assert(mid.callstack.last() == (SpecValue::Callable {
                                    kind: e_k,
                                    parameters: e_p,
                                    instructions: e_iv,
                                    ip: e_ip,
                                }));
                            }
                            if do_pop {
                                let ghost cs_before = self.callstack@;
                                proof {
                                    assert(vals_view(self.callstack@) =~= mid.callstack);
                                    lemma_vals_inv_drop(self.callstack@);
                                }
                                self.callstack.pop();
                                proof {
                                    assert(vals_view(self.callstack@) =~= mid.callstack.drop_last());
                                    assert forall|i: int|
                                        0 <= i < self.callstack@.len() implies (
                                    #[trigger] self.callstack@[i]) matches Value::Callable { .. } by {
                                        assert(self.callstack@[i] == cs_before[i]);
                                    }
                                    assert(self@ =~= SpecVm {
                                        callstack: mid.callstack.drop_last(),
                                        ..mid
                                    });
                                    assert(self@ =~= spec_post(mid));
                                }
                            } else {
                                proof {
                                    assert(vals_view(self.callstack@) =~= mid.callstack.drop_last().push(
                                        SpecValue::Callable {
                                            kind: e_k,
                                            parameters: e_p,
                                            instructions: e_iv,
                                            ip: e_ip + 1,
                                        },
                                    ));
                                    assert forall|i: int|
                                        0 <= i < self.callstack@.len() implies (
                                    #[trigger] self.callstack@[i]) matches Value::Callable { .. } by {
                                        if i < self.callstack@.len() - 1 {
                                            assert(self.callstack@[i] == cs_mid[i]);
                                        } else {
                                            assert(self.callstack@[i] matches Value::Callable { .. });
                                        }
                                    }
                                    assert(self@ =~= SpecVm {
                                        callstack: mid.callstack.drop_last().push(
                                            SpecValue::Callable {
                                                kind: e_k,
                                                parameters: e_p,
                                                instructions: e_iv,
                                                ip: e_ip + 1,
                                            },
                                        ),
                                        ..mid
                                    });
                                    assert(self@ =~= spec_post(mid));
                                }
                            }
                        } else {
                            proof {
                                assert(self@ =~= spec_post(mid));
                            }
                        }
                        proof {
                            assert(spec_step(cur) == SpecStep::Cont(spec_post(mid)));
                            assert(spec_step(cur) == SpecStep::Cont(self@));
                            lemma_spec_run_snoc(boot, steps, cur);
                            steps = steps + 1;
                        }
                    }
                },
            }
        }
    }
}

impl Clone for Table {
    fn clone(&self) -> (res: Table)
        ensures
            res@ == self@,
            self.inv() ==> res.inv(),
    {
        let n = self.entries.len();
        let mut out: Vec<(Term, Term)> = Vec::new();
        let mut i: usize = 0;
        while i < n
            invariant
                n == self.entries@.len(),
                i <= n,
                out@.len() == i,
                forall|j: int|
                    0 <= j < i ==> out@[j].0@ == self.entries@[j].0@ && out@[j].1@
                        == self.entries@[j].1@,
            decreases n - i,
        {
            let k = clone_term(&self.entries[i].0);
            let v = clone_term(&self.entries[i].1);
            out.push((k, v));
            i += 1;
        }
        proof {
            assert(tpairs_view(out@) =~= tpairs_view(self.entries@));
        }
        Table { entries: out }
    }
}

} // verus!
