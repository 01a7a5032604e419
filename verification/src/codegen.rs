use crate::assoc::{
    assoc_keys_unique, assoc_map, lemma_assoc_contains, lemma_assoc_push, lemma_assoc_update,
    lemma_assoc_value,
};
use crate::errors::SyntaxError;
use crate::parser::{
    ast_list_size, ast_list_vars, ast_list_wf, ast_size, ast_wf, asts_view, lemma_asts_view, SpecAst,
    AST,
};
use crate::vm::{clone_string, lemma_ops_view, ops_view, CallableKind, Opcode, SpecOp, VirtualMachine};
use vstd::prelude::*;
use vstd::string::StrSliceExecFns;
use vstd::string::StringExecFns;

verus! {

broadcast use vstd::std_specs::vec::axiom_vec_index_decreases, vstd::seq::group_seq_axioms;

/// The models of one scope's entries.
pub open spec fn scope_view(s: Seq<(String, u64)>) -> Seq<(Seq<char>, u64)> {
    Seq::new(s.len(), |i: int| (s[i].0@, s[i].1))
}

/// The lexical scoping stack the code generator carries: name-to-id
/// maps, innermost scope last.
pub struct Context {
    bindings: Vec<Vec<(String, u64)>>,
}

impl View for Context {
    type V = Seq<Map<Seq<char>, u64>>;

    closed spec fn view(&self) -> Seq<Map<Seq<char>, u64>> {
        Seq::new(self.bindings@.len(), |i: int| assoc_map(scope_view(self.bindings@[i]@)))
    }
}

/// Resolving a name: scopes are searched from the innermost outward.
pub open spec fn spec_ctx_lookup(scopes: Seq<Map<Seq<char>, u64>>, name: Seq<char>) -> Option<u64>
    decreases scopes.len(),
{
    if scopes.len() == 0 {
        None
    } else if scopes.last().contains_key(name) {
        Some(scopes.last()[name])
    } else {
        spec_ctx_lookup(scopes.drop_last(), name)
    }
}

impl Context {
    /// Every scope keeps its names distinct.
    pub closed spec fn inv(&self) -> bool {
        forall|i: int|
            0 <= i < self.bindings@.len() ==> assoc_keys_unique(
                scope_view(#[trigger] self.bindings@[i]@),
            )
    }

    /// Creates a context with a single empty scope.
    pub fn new() -> (ctx: Context)
        ensures
            ctx@ =~= seq![Map::<Seq<char>, u64>::empty()],
            ctx.inv(),
    {
        let mut bindings: Vec<Vec<(String, u64)>> = Vec::new();
        bindings.push(Vec::new());
        let ctx = Context { bindings };
        proof {
            assert(scope_view(ctx.bindings@[0]@) =~= Seq::<(Seq<char>, u64)>::empty());
            assert(ctx@[0] =~= Map::<Seq<char>, u64>::empty());
        }
        ctx
    }

    /// Resolves a name, searching the scopes from the innermost outward.
    pub fn lookup(&self, s: &str) -> (r: Option<u64>)
        requires
            self.inv(),
        ensures
            r == spec_ctx_lookup(self@, s@),
    {
        let owned = s.to_owned();
        let depth = self.bindings.len();
        proof {
            assert(self@.len() == depth);
            assert(self@.take(depth as int) =~= self@);
        }
        let mut si: usize = depth;
        while si > 0
            invariant
                self.inv(),
                si <= depth,
                depth == self.bindings@.len(),
                owned@ == s@,
                spec_ctx_lookup(self@, s@) == spec_ctx_lookup(self@.take(si as int), s@),
            decreases si,
        {
            si -= 1;
            proof {
                assert(self@.len() == depth);
                assert(self@.take(si + 1).last() == self@[si as int]);
                assert(self@.take(si + 1).drop_last() =~= self@.take(si as int));
            }
            let scope = &self.bindings[si];
            let ghost sv = scope_view(scope@);
            proof {
                assert(self@[si as int] == assoc_map(sv));
            }
            let m = scope.len();
            let mut j: usize = 0;
            while j < m
                invariant
                    assoc_keys_unique(sv),
                    sv == scope_view(scope@),
                    m == scope@.len(),
                    j <= m,
                    owned@ == s@,
                    si < depth == self.bindings@.len(),
                    scope == &self.bindings@[si as int],
                    spec_ctx_lookup(self@, s@) == spec_ctx_lookup(self@.take(si + 1), s@),
                    self@.take(si + 1).last() == self@[si as int],
                    self@[si as int] == assoc_map(sv),
                    forall|k: int| 0 <= k < j ==> sv[k].0 != s@,
                decreases m - j,
            {
                if scope[j].0 == owned {
                    proof {
                        assert(sv[j as int].0 == s@);
                        lemma_assoc_value(sv, j as int);
                        assert(self@[si as int].contains_key(s@));
                        assert(sv[j as int].1 == scope@[j as int].1);
                    }
                    return Some(scope[j].1);
                }
                j += 1;
            }
            proof {
                lemma_assoc_contains(sv, s@);
                assert(!self@[si as int].contains_key(s@));
            }
        }
        proof {
            assert(self@.take(0) =~= Seq::<Map<Seq<char>, u64>>::empty());
        }
        None
    }

    /// Opens a fresh innermost scope.
    pub fn push(&mut self)
        requires
            old(self).inv(),
        ensures
            final(self).inv(),
            final(self)@ == old(self)@.push(Map::<Seq<char>, u64>::empty()),
    {
        let ghost pre = self@;
        self.bindings.push(Vec::new());
        proof {
            assert(scope_view(self.bindings@.last()@) =~= Seq::<(Seq<char>, u64)>::empty());
            assert forall|i: int|
                0 <= i < self.bindings@.len() implies assoc_keys_unique(
                scope_view(#[trigger] self.bindings@[i]@),
            ) by {
                if i < self.bindings@.len() - 1 {
                    assert(self.bindings@[i] == old(self).bindings@[i]);
                }
            }
            assert(self@ =~= pre.push(Map::<Seq<char>, u64>::empty()));
        }
    }

    /// Closes the innermost scope.  At least the outermost scope always
    /// remains.
    pub fn pop(&mut self)
        requires
            old(self).inv(),
            old(self)@.len() >= 2,
        ensures
            final(self).inv(),
            final(self)@ == old(self)@.drop_last(),
    {
        let ghost pre = self@;
        self.bindings.pop();
        proof {
            assert forall|i: int|
                0 <= i < self.bindings@.len() implies assoc_keys_unique(
                scope_view(#[trigger] self.bindings@[i]@),
            ) by {
                assert(self.bindings@[i] == old(self).bindings@[i]);
            }
            assert(self@ =~= pre.drop_last());
        }
    }

    /// Records that `value` resolves to `id` in the innermost scope.
    pub fn insert(&mut self, id: u64, value: &str)
        requires
            old(self).inv(),
            old(self)@.len() >= 1,
        ensures
            final(self).inv(),
            final(self)@ == old(self)@.update(
                old(self)@.len() - 1,
                old(self)@.last().insert(value@, id),
            ),
    {
        let ghost pre = self@;
        let owned = value.to_owned();
        let mut scope = match self.bindings.pop() {
            Some(sc) => sc,
            None => {
                proof {
                    assert(false);
                }
                Vec::new()
            },
        };
        let ghost sv0 = scope_view(scope@);
        proof {
            assert(pre.last() == assoc_map(sv0));
        }
        let m = scope.len();
        let mut j: usize = 0;
        let mut replaced = false;
        while j < m && !replaced
            invariant
                assoc_keys_unique(sv0),
                !replaced ==> sv0 == scope_view(scope@),
                replaced ==> scope_view(scope@) =~= sv0.update(
                    j - 1,
                    (value@, id),
                ) && 0 < j <= m && sv0[j - 1].0 == value@,
                m == sv0.len(),
                j <= m,
                owned@ == value@,
                !replaced ==> forall|k: int| 0 <= k < j ==> sv0[k].0 != value@,
            decreases m - j,
        {
            if scope[j].0 == owned {
                let ghost jv = j as int;
                let name_copy = clone_string(&owned);
                scope[j] = (name_copy, id);
                proof {
                    assert(scope_view(scope@) =~= sv0.update(jv, (value@, id)));
                }
                replaced = true;
            }
            j += 1;
        }
        let ghost svf = scope_view(scope@);
        if !replaced {
            scope.push((owned, id));
            proof {
                assert(scope_view(scope@) =~= sv0.push((value@, id)));
                lemma_assoc_push(sv0, value@, id);
            }
        } else {
            proof {
                assert(sv0[j - 1].0 == value@);
                lemma_assoc_update(sv0, j - 1, id);
                assert(sv0.update(j - 1, (value@, id)) == sv0.update(
                    j - 1,
                    (sv0[j - 1].0, id),
                ));
            }
        }
        proof {
            assert(assoc_map(scope_view(scope@)) == pre.last().insert(value@, id));
            assert(assoc_keys_unique(scope_view(scope@)));
        }
        self.bindings.push(scope);
        proof {
            assert forall|i: int|
                0 <= i < self.bindings@.len() implies assoc_keys_unique(
                scope_view(#[trigger] self.bindings@[i]@),
            ) by {
                if i < self.bindings@.len() - 1 {
                    assert(self.bindings@[i] == old(self).bindings@[i]);
                }
            }
            assert(self@ =~= pre.update(pre.len() - 1, pre.last().insert(value@, id)));
        }
    }
}

// ---------------------------------------------------------------------------
// Code generation
// ---------------------------------------------------------------------------
/// The state code generation threads: the scope stack, the interner
/// counter and table, and the instructions emitted so far.
#[verifier::ext_equal]
pub struct GenState {
    pub ctx: Seq<Map<Seq<char>, u64>>,
    pub next_id: u64,
    pub interned: Map<u64, Seq<char>>,
    pub instr: Seq<SpecOp>,
}

/// Resolving a name during code generation: a known name keeps its id;
/// an unknown one is interned fresh and recorded in the innermost scope.
pub open spec fn spec_resolve(name: Seq<char>, st: GenState) -> (u64, GenState) {
    match spec_ctx_lookup(st.ctx, name) {
        Some(id) => (id, st),
        None => {
            let id = (st.next_id + 1) as u64;
            (
                id,
                GenState {
                    ctx: st.ctx.update(st.ctx.len() - 1, st.ctx.last().insert(name, id)),
                    next_id: id,
                    interned: st.interned.insert(id, name),
                    ..st
                },
            )
        },
    }
}

/// The separator a goal list compiles to.
pub open spec fn sep_op(conj: bool) -> SpecOp {
    if conj {
        SpecOp::Conj2
    } else {
        SpecOp::Disj2
    }
}

/// What code generation emits for a tree, and how it changes the scopes
/// and the interner; an unknown built-in name is the one failure.
pub open spec fn spec_gen(a: SpecAst, st: GenState) -> Result<GenState, (Seq<char>, nat)>
    decreases a,
{
    match a {
        SpecAst::Conj(children) => spec_gen_goals(children, st, true, true),
        SpecAst::Disj(children) => spec_gen_goals(children, st, true, false),
        SpecAst::Equals(l, r) => match spec_gen(*l, st) {
            Ok(st1) => match spec_gen(*r, st1) {
                Ok(st2) => Ok(GenState { instr: st2.instr.push(SpecOp::Unify), ..st2 }),
                Err(e) => Err(e),
            },
            Err(e) => Err(e),
        },
        SpecAst::Var(decls, body) => {
            let st1 = GenState { ctx: st.ctx.push(Map::empty()), ..st };
            let st2 = spec_declare(decls, st1);
            match spec_gen(*body, st2) {
                Ok(st3) => Ok(GenState { ctx: st3.ctx.drop_last(), ..st3 }),
                Err(e) => Err(e),
            }
        },
        SpecAst::Atom(name) => {
            let (id, st1) = spec_resolve(name, st);
            Ok(GenState { instr: st1.instr.push(SpecOp::Atom(id)), ..st1 })
        },
        SpecAst::Variable(name) => {
            let (id, st1) = spec_resolve(name, st);
            Ok(GenState { instr: st1.instr.push(SpecOp::Variable(id)), ..st1 })
        },
        SpecAst::FnCall(name, args, offset) => match spec_gen_list(args, st) {
            Ok(st1) => if name == "solve"@ {
                Ok(GenState { instr: st1.instr.push(SpecOp::Solve), ..st1 })
            } else if name == "next"@ {
                Ok(GenState { instr: st1.instr.push(SpecOp::Next), ..st1 })
            } else {
                Err(("Undefined function: "@ + name, offset))
            },
            Err(e) => Err(e),
        },
        SpecAst::Program(stmts) => spec_gen_list(stmts, st),
        SpecAst::Table(fields) => {
            let st1 = GenState { instr: st.instr.push(SpecOp::NewTable), ..st };
            spec_gen_table(fields, st1, false)
        },
        SpecAst::LetBinding(name, value) => {
            let (id, st1) = spec_resolve(name, st);
            let st2 = GenState { instr: st1.instr.push(SpecOp::Variable(id)), ..st1 };
            match spec_gen(*value, st2) {
                Ok(st3) => Ok(GenState { instr: st3.instr.push(SpecOp::SetEnv), ..st3 }),
                Err(e) => Err(e),
            }
        },
        SpecAst::BindingRef(name) => {
            let (id, st1) = spec_resolve(name, st);
            Ok(
                GenState {
                    instr: st1.instr.push(SpecOp::Variable(id)).push(SpecOp::GetEnv),
                    ..st1
                },
            )
        },
        SpecAst::Relation(params, body) => {
            let (ids, pscope, st1) = spec_params(params, st);
            let body_st = GenState {
                ctx: seq![pscope],
                next_id: st1.next_id,
                interned: st1.interned,
                instr: Seq::empty(),
            };
            match spec_gen(*body, body_st) {
                Ok(stb) => Ok(
                    GenState {
                        ctx: st.ctx,
                        next_id: stb.next_id,
                        interned: stb.interned,
                        instr: st.instr.push(
                            SpecOp::Callable {
                                kind: CallableKind::Relation,
                                parameters: ids,
                                instructions: stb.instr,
                                ip: 0,
                            },
                        ),
                    },
                ),
                Err(e) => Err(e),
            }
        },
    }
}

/// A list of goals, a separator instruction after every goal but the
/// first: the left-folded encoding of an n-ary conjunction or
/// disjunction.
pub open spec fn spec_gen_goals(children: Seq<SpecAst>, st: GenState, first: bool, conj: bool) -> Result<
    GenState,
    (Seq<char>, nat),
>
    decreases children,
{
    if children.len() == 0 {
        Ok(st)
    } else {
        match spec_gen(children[0], st) {
            Ok(st1) => {
                let st2 = if first {
                    st1
                } else {
                    GenState { instr: st1.instr.push(sep_op(conj)), ..st1 }
                };
                spec_gen_goals(children.drop_first(), st2, false, conj)
            },
            Err(e) => Err(e),
        }
    }
}

/// A list of trees generated one after the other.
pub open spec fn spec_gen_list(items: Seq<SpecAst>, st: GenState) -> Result<
    GenState,
    (Seq<char>, nat),
>
    decreases items,
{
    if items.len() == 0 {
        Ok(st)
    } else {
        match spec_gen(items[0], st) {
            Ok(st1) => spec_gen_list(items.drop_first(), st1),
            Err(e) => Err(e),
        }
    }
}

/// The alternating keys and values of a table literal, a `SetTable`
/// after every value.
pub open spec fn spec_gen_table(fields: Seq<SpecAst>, st: GenState, set_after: bool) -> Result<
    GenState,
    (Seq<char>, nat),
>
    decreases fields,
{
    if fields.len() == 0 {
        Ok(st)
    } else {
        match spec_gen(fields[0], st) {
            Ok(st1) => {
                let st2 = if set_after {
                    GenState { instr: st1.instr.push(SpecOp::SetTable), ..st1 }
                } else {
                    st1
                };
                spec_gen_table(fields.drop_first(), st2, !set_after)
            },
            Err(e) => Err(e),
        }
    }
}

/// Interning the declarations of a fresh-variable block, each into the
/// innermost scope.
pub open spec fn spec_declare(decls: Seq<SpecAst>, st: GenState) -> GenState
    decreases decls,
{
    if decls.len() == 0 {
        st
    } else {
        let st1 = match decls[0] {
            SpecAst::Variable(name) => {
                let id = (st.next_id + 1) as u64;
                GenState {
                    ctx: st.ctx.update(st.ctx.len() - 1, st.ctx.last().insert(name, id)),
                    next_id: id,
                    interned: st.interned.insert(id, name),
                    ..st
                }
            },
            _ => st,
        };
        spec_declare(decls.drop_first(), st1)
    }
}

/// Interning the parameters of a relation literal: their fresh ids in
/// order, and the scope their body is generated under.
pub open spec fn spec_params(params: Seq<SpecAst>, st: GenState) -> (
    Seq<u64>,
    Map<Seq<char>, u64>,
    GenState,
)
    decreases params,
{
    if params.len() == 0 {
        (Seq::empty(), Map::empty(), st)
    } else {
        let (ids, m, st1) = spec_params(params.drop_last(), st);
        match params.last() {
            SpecAst::Variable(name) => {
                let id = (st1.next_id + 1) as u64;
                (
                    ids.push(id),
                    m.insert(name, id),
                    GenState { next_id: id, interned: st1.interned.insert(id, name), ..st1 },
                )
            },
            _ => (ids, m, st1),
        }
    }
}

/// Every identifier the interner knows is at most its counter.
pub open spec fn ids_ok(next_id: u64, interned: Map<u64, Seq<char>>) -> bool {
    forall|k: u64| #[trigger] interned.contains_key(k) ==> k <= next_id
}

/// Code generation only counts the interner upward, keeps every
/// identifier at most the counter, spends at most one fresh identifier
/// per tree node, and leaves the scope stack as deep as it found it.
pub proof fn lemma_spec_gen_bounds(a: SpecAst, st: GenState)
    requires
        st.ctx.len() >= 1,
        st.next_id + ast_size(a) <= u64::MAX,
    ensures
        spec_gen(a, st) matches Ok(g) ==> st.next_id <= g.next_id <= st.next_id + ast_size(a)
            && g.ctx.len() == st.ctx.len() && (ids_ok(st.next_id, st.interned) ==> ids_ok(
            g.next_id,
            g.interned,
        )),
    decreases a,
{
    match a {
        SpecAst::Conj(children) => {
            lemma_spec_gen_goals_bounds(children, st, true, true);
        },
        SpecAst::Disj(children) => {
            lemma_spec_gen_goals_bounds(children, st, true, false);
        },
        SpecAst::Equals(l, r) => {
            lemma_spec_gen_bounds(*l, st);
            match spec_gen(*l, st) {
                Ok(st1) => {
                    lemma_spec_gen_bounds(*r, st1);
                },
                Err(_) => {},
            }
        },
        SpecAst::Var(decls, body) => {
            let st1 = GenState { ctx: st.ctx.push(Map::empty()), ..st };
            lemma_spec_declare_bounds(decls, st1);
            let st2 = spec_declare(decls, st1);
            lemma_spec_gen_bounds(*body, st2);
        },
        SpecAst::Atom(_) => {},
        SpecAst::Variable(_) => {},
        SpecAst::FnCall(_, args, _) => {
            lemma_spec_gen_list_bounds(args, st);
        },
        SpecAst::Program(stmts) => {
            lemma_spec_gen_list_bounds(stmts, st);
        },
        SpecAst::Table(fields) => {
            let st1 = GenState { instr: st.instr.push(SpecOp::NewTable), ..st };
            lemma_spec_gen_table_bounds(fields, st1, false);
        },
        SpecAst::LetBinding(name, value) => {
            let (id, st1) = spec_resolve(name, st);
            let st2 = GenState { instr: st1.instr.push(SpecOp::Variable(id)), ..st1 };
            lemma_spec_gen_bounds(*value, st2);
        },
        SpecAst::BindingRef(_) => {},
        SpecAst::Relation(params, body) => {
            lemma_spec_params_bounds(params, st);
            let (ids, pscope, st1) = spec_params(params, st);
            let body_st = GenState {
                ctx: seq![pscope],
                next_id: st1.next_id,
                interned: st1.interned,
                instr: Seq::empty(),
            };
            lemma_spec_gen_bounds(*body, body_st);
        },
    }
}

proof fn lemma_spec_gen_goals_bounds(children: Seq<SpecAst>, st: GenState, first: bool, conj: bool)
    requires
        st.ctx.len() >= 1,
        st.next_id + ast_list_size(children) <= u64::MAX,
    ensures
        spec_gen_goals(children, st, first, conj) matches Ok(g) ==> st.next_id <= g.next_id
            <= st.next_id + ast_list_size(children) && g.ctx.len() == st.ctx.len() && (ids_ok(
            st.next_id,
            st.interned,
        ) ==> ids_ok(g.next_id, g.interned)),
    decreases children,
{
    if children.len() > 0 {
        lemma_spec_gen_bounds(children[0], st);
        match spec_gen(children[0], st) {
            Ok(st1) => {
                let st2 = if first {
                    st1
                } else {
                    GenState { instr: st1.instr.push(sep_op(conj)), ..st1 }
                };
                lemma_spec_gen_goals_bounds(children.drop_first(), st2, false, conj);
            },
            Err(_) => {},
        }
    }
}

proof fn lemma_spec_gen_list_bounds(items: Seq<SpecAst>, st: GenState)
    requires
        st.ctx.len() >= 1,
        st.next_id + ast_list_size(items) <= u64::MAX,
    ensures
        spec_gen_list(items, st) matches Ok(g) ==> st.next_id <= g.next_id <= st.next_id
            + ast_list_size(items) && g.ctx.len() == st.ctx.len() && (ids_ok(
            st.next_id,
            st.interned,
        ) ==> ids_ok(g.next_id, g.interned)),
    decreases items,
{
    if items.len() > 0 {
        lemma_spec_gen_bounds(items[0], st);
        match spec_gen(items[0], st) {
            Ok(st1) => {
                lemma_spec_gen_list_bounds(items.drop_first(), st1);
            },
            Err(_) => {},
        }
    }
}

proof fn lemma_spec_gen_table_bounds(fields: Seq<SpecAst>, st: GenState, set_after: bool)
    requires
        st.ctx.len() >= 1,
        st.next_id + ast_list_size(fields) <= u64::MAX,
    ensures
        spec_gen_table(fields, st, set_after) matches Ok(g) ==> st.next_id <= g.next_id
            <= st.next_id + ast_list_size(fields) && g.ctx.len() == st.ctx.len() && (ids_ok(
            st.next_id,
            st.interned,
        ) ==> ids_ok(g.next_id, g.interned)),
    decreases fields,
{
    if fields.len() > 0 {
        lemma_spec_gen_bounds(fields[0], st);
        match spec_gen(fields[0], st) {
            Ok(st1) => {
                let st2 = if set_after {
                    GenState { instr: st1.instr.push(SpecOp::SetTable), ..st1 }
                } else {
                    st1
                };
                lemma_spec_gen_table_bounds(fields.drop_first(), st2, !set_after);
            },
            Err(_) => {},
        }
    }
}

proof fn lemma_spec_declare_bounds(decls: Seq<SpecAst>, st: GenState)
    requires
        st.ctx.len() >= 1,
        st.next_id + ast_list_size(decls) <= u64::MAX,
    ensures
        ({
            let g = spec_declare(decls, st);
            st.next_id <= g.next_id <= st.next_id + ast_list_size(decls) && g.ctx.len()
                == st.ctx.len() && g.instr == st.instr && (ids_ok(st.next_id, st.interned)
                ==> ids_ok(g.next_id, g.interned))
        }),
    decreases decls,
{
    if decls.len() > 0 {
        crate::parser::lemma_ast_size_pos(decls[0]);
        let st1 = match decls[0] {
            SpecAst::Variable(name) => {
                let id = (st.next_id + 1) as u64;
                GenState {
                    ctx: st.ctx.update(st.ctx.len() - 1, st.ctx.last().insert(name, id)),
                    next_id: id,
                    interned: st.interned.insert(id, name),
                    ..st
                }
            },
            _ => st,
        };
        assert(ids_ok(st.next_id, st.interned) ==> ids_ok(st1.next_id, st1.interned)) by {
            if ids_ok(st.next_id, st.interned) {
                assert forall|k: u64| #[trigger] st1.interned.contains_key(k) implies k
                    <= st1.next_id by {
                    if st.interned.contains_key(k) {
                    }
                }
            }
        }
        lemma_spec_declare_bounds(decls.drop_first(), st1);
    }
}

proof fn lemma_spec_params_bounds(params: Seq<SpecAst>, st: GenState)
    requires
        st.next_id + ast_list_size(params) <= u64::MAX,
    ensures
        ({
            let (ids, m, g) = spec_params(params, st);
            st.next_id <= g.next_id <= st.next_id + ast_list_size(params) && g.ctx == st.ctx
                && g.instr == st.instr && (ids_ok(st.next_id, st.interned) ==> ids_ok(
                g.next_id,
                g.interned,
            ))
        }),
    decreases params,
{
    if params.len() > 0 {
        crate::parser::lemma_ast_size_pos(params.last());
        crate::parser::lemma_ast_list_size_drop_last(params);
        lemma_spec_params_bounds(params.drop_last(), st);
        let (ids, m, st1) = spec_params(params.drop_last(), st);
        match params.last() {
            SpecAst::Variable(name) => {
                let id = (st1.next_id + 1) as u64;
                assert(ids_ok(st.next_id, st.interned) ==> ids_ok(
                    id,
                    st1.interned.insert(id, name),
                )) by {
                    if ids_ok(st.next_id, st.interned) {
                        assert forall|k: u64| #[trigger]
                            st1.interned.insert(id, name).contains_key(k) implies k <= id by {
                            if st1.interned.contains_key(k) {
                            }
                        }
                    }
                }
            },
            _ => {},
        }
    }
}

/// A prefix of a prefix is a prefix.
proof fn lemma_prefix_trans(a: Seq<SpecOp>, b: Seq<SpecOp>, c: Seq<SpecOp>)
    requires
        a.is_prefix_of(b),
        b.is_prefix_of(c),
    ensures
        a.is_prefix_of(c),
{
    assert(a =~= c.subrange(0, a.len() as int));
}

/// A sequence is a prefix of itself extended by one element.
proof fn lemma_prefix_push(a: Seq<SpecOp>, op: SpecOp)
    ensures
        a.is_prefix_of(a.push(op)),
{
    assert(a =~= a.push(op).subrange(0, a.len() as int));
}

/// A sequence is a prefix of itself.
proof fn lemma_prefix_refl(a: Seq<SpecOp>)
    ensures
        a.is_prefix_of(a),
{
    assert(a =~= a.subrange(0, a.len() as int));
}

/// Appends one instruction to the buffer.
fn emit(instr: &mut Vec<Opcode>, op: Opcode)
    ensures
        ops_view(*final(instr)) == ops_view(*old(instr)).push(op@),
        ops_view(*old(instr)).is_prefix_of(ops_view(*final(instr))),
{
    proof {
        lemma_ops_view(*instr);
    }
    instr.push(op);
    proof {
        lemma_ops_view(*instr);
        assert(ops_view(*instr) =~= ops_view(*old(instr)).push(op@));
        lemma_prefix_push(ops_view(*old(instr)), op@);
    }
}

/// The generation state the executable pieces carry.
pub open spec fn gen_state(ctx: &Context, vm: &VirtualMachine, instr: &Vec<Opcode>) -> GenState {
    GenState { ctx: ctx@, next_id: vm@.next_id, interned: vm@.interned, instr: ops_view(*instr) }
}

/// Resolves a name: looks it up through the scopes, interning it fresh
/// into the innermost scope when it is unknown.
fn resolve_name(
    ctx: &mut Context,
    vm: &mut VirtualMachine,
    instr: &Vec<Opcode>,
    name: &String,
) -> (id: u64)
    requires
        old(ctx).inv(),
        old(ctx)@.len() >= 1,
        old(vm).inv(),
        ids_ok(old(vm)@.next_id, old(vm)@.interned),
        old(vm)@.next_id < u64::MAX,
    ensures
        final(ctx).inv(),
        final(vm).inv(),
        final(vm)@.stack == old(vm)@.stack,
        final(vm)@.callstack == old(vm)@.callstack,
        final(vm)@.env == old(vm)@.env,
        (id, gen_state(final(ctx), final(vm), instr)) == spec_resolve(
            name@,
            gen_state(old(ctx), old(vm), instr),
        ),
{
    let ghost st0 = gen_state(ctx, vm, instr);
    match ctx.lookup(name.as_str()) {
        Some(id) => {
            proof {
                assert(gen_state(ctx, vm, instr) =~= st0);
            }
            id
        },
        None => {
            let id = vm.intern(name);
            ctx.insert(id, name.as_str());
            proof {
                assert(gen_state(ctx, vm, instr) =~= spec_resolve(name@, st0).1);
            }
            id
        },
    }
}

/// Generates code for one tree: appends its instructions to the buffer,
/// resolving and interning names as the tree demands.  The one failure
/// is a call of an unknown built-in function.
pub fn generate(ast: &AST, ctx: &mut Context, vm: &mut VirtualMachine, instr: &mut Vec<Opcode>) -> (r:
    Result<(), SyntaxError>)
    requires
        old(ctx).inv(),
        old(ctx)@.len() >= 1,
        old(vm).inv(),
        ids_ok(old(vm)@.next_id, old(vm)@.interned),
        ast_wf(ast@),
        old(vm)@.next_id + ast_size(ast@) <= u64::MAX,
    ensures
        final(ctx).inv(),
        final(ctx)@.len() >= 1,
        final(vm).inv(),
        ids_ok(final(vm)@.next_id, final(vm)@.interned),
        old(vm)@.next_id <= final(vm)@.next_id,
        final(vm)@.stack == old(vm)@.stack,
        final(vm)@.callstack == old(vm)@.callstack,
        final(vm)@.env == old(vm)@.env,
        ops_view(*old(instr)).is_prefix_of(ops_view(*final(instr))),
        match r {
            Ok(()) => spec_gen(ast@, gen_state(old(ctx), old(vm), old(instr))) == Ok::<
                GenState,
                (Seq<char>, nat),
            >(gen_state(final(ctx), final(vm), final(instr))),
            Err(e) => spec_gen(ast@, gen_state(old(ctx), old(vm), old(instr))) matches Err(
                (m, off),
            ) && e.msg@ == m && e.offset == off,
        },
    decreases ast,
{
    let ghost st0 = gen_state(ctx, vm, instr);
    proof {
        lemma_spec_gen_bounds(ast@, st0);
    }
    match ast {
        AST::Conj(nodes) => gen_goals(nodes, ctx, vm, instr, true),
        AST::Disj(nodes) => gen_goals(nodes, ctx, vm, instr, false),
        AST::Equals(left, right) => {
            match generate(left, ctx, vm, instr) {
                Ok(()) => {},
                Err(e) => {
                    return Err(e);
                },
            }
            proof {
                lemma_spec_gen_bounds((*left)@, st0);
            }
            match generate(right, ctx, vm, instr) {
                Ok(()) => {},
                Err(e) => {
                    return Err(e);
                },
            }
            emit(instr, Opcode::Unify);
            Ok(())
        },
        AST::Var(declarations, body) => {
            ctx.push();
            let ghost st1 = GenState { ctx: st0.ctx.push(Map::empty()), ..st0 };
            proof {
                assert(gen_state(ctx, vm, instr) =~= st1);
            }
            let n = declarations.len();
            let ghost dv = asts_view(*declarations);
            proof {
                lemma_asts_view(*declarations);
                assert(dv.skip(0) =~= dv);
            }
            let mut i: usize = 0;
            while i < n
                invariant
                    ctx.inv(),
                    ctx@.len() >= 2,
                    vm.inv(),
                    ids_ok(vm@.next_id, vm@.interned),
                    n == declarations@.len(),
                    i <= n,
                    dv == asts_view(*declarations),
                    dv.len() == n,
                    forall|j: int| 0 <= j < n ==> dv[j] == declarations@[j]@,
                    ast_list_vars(dv),
                    vm@.next_id + ast_list_size(dv.skip(i as int)) + ast_size((*body)@) + 1
                        <= u64::MAX,
                    old(vm)@.next_id <= vm@.next_id,
                    st1 == (GenState { ctx: st0.ctx.push(Map::empty()), ..st0 }),
                    st0 == gen_state(old(ctx), old(vm), old(instr)),
                    vm@.stack == old(vm)@.stack,
                    vm@.callstack == old(vm)@.callstack,
                    vm@.env == old(vm)@.env,
                    spec_declare(dv.skip(i as int), gen_state(ctx, vm, instr)) == spec_declare(
                        dv,
                        st1,
                    ),
                decreases n - i,
            {
                proof {
                    assert(dv.skip(i as int)[0] == dv[i as int]);
                    assert(dv.skip(i as int).drop_first() =~= dv.skip(i + 1));
                    crate::parser::lemma_ast_size_pos(dv[i as int]);
                }
                let ghost st_here = gen_state(ctx, vm, instr);
                match &declarations[i] {
                    AST::Variable(v) => {
                        let id = vm.intern(v);
                        ctx.insert(id, v.as_str());
                        proof {
                            assert(dv[i as int] == SpecAst::Variable(v@));
                            let stepped = GenState {
                                ctx: st_here.ctx.update(
                                    st_here.ctx.len() - 1,
                                    st_here.ctx.last().insert(v@, (st_here.next_id + 1) as u64),
                                ),
                                next_id: (st_here.next_id + 1) as u64,
                                interned: st_here.interned.insert(
                                    (st_here.next_id + 1) as u64,
                                    v@,
                                ),
                                ..st_here
                            };
                            assert(gen_state(ctx, vm, instr) =~= stepped);
                            assert(spec_declare(dv.skip(i as int), st_here) == spec_declare(
                                dv.skip(i + 1),
                                stepped,
                            ));
                        }
                    },
                    _ => {
                        proof {
                            assert(false);
                        }
                    },
                }
                i += 1;
            }
            proof {
                assert(dv.skip(n as int) =~= Seq::<SpecAst>::empty());
            }
            let ghost st2 = spec_declare(dv, st1);
            proof {
                lemma_spec_declare_bounds(dv, st1);
            }
            match generate(body, ctx, vm, instr) {
                Ok(()) => {},
                Err(e) => {
                    return Err(e);
                },
            }
            proof {
                lemma_spec_gen_bounds((*body)@, st2);
            }
            ctx.pop();
            Ok(())
        },
        AST::Atom(s) => {
            let id = resolve_name(ctx, vm, instr, s);
            emit(instr, Opcode::Atom(id));
            Ok(())
        },
        AST::Variable(s) => {
            let id = resolve_name(ctx, vm, instr, s);
            emit(instr, Opcode::Variable(id));
            Ok(())
        },
        AST::FnCall(name, args, offset) => {
            match gen_list(args, ctx, vm, instr) {
                Ok(()) => {},
                Err(e) => {
                    return Err(e);
                },
            }
            if *name == "solve".to_owned() {
                emit(instr, Opcode::Solve);
                Ok(())
            } else if *name == "next".to_owned() {
                emit(instr, Opcode::Next);
                Ok(())
            } else {
                let msg = "Undefined function: ".to_owned().concat(name.as_str());
                Err(SyntaxError { msg, offset: *offset })
            }
        },
        AST::Program(statements) => gen_list(statements, ctx, vm, instr),
        AST::Table(fields) => {
            emit(instr, Opcode::NewTable);
            gen_table(fields, ctx, vm, instr)
        },
        AST::LetBinding(name, value) => {
            let id = resolve_name(ctx, vm, instr, name);
            emit(instr, Opcode::Variable(id));
            match generate(value, ctx, vm, instr) {
                Ok(()) => {},
                Err(e) => {
                    return Err(e);
                },
            }
            emit(instr, Opcode::SetEnv);
            Ok(())
        },
        AST::BindingRef(name) => {
            let id = resolve_name(ctx, vm, instr, name);
            emit(instr, Opcode::Variable(id));
            emit(instr, Opcode::GetEnv);
            Ok(())
        },
        AST::Relation(parameters, body) => {
            let n = parameters.len();
            let ghost pv = asts_view(*parameters);
            proof {
                lemma_asts_view(*parameters);
                assert(pv.take(0) =~= Seq::<SpecAst>::empty());
            }
            proof {
                assert(pv.skip(0) =~= pv);
            }
            let mut params: Vec<u64> = Vec::new();
            let mut body_ctx = Context::new();
            let mut i: usize = 0;
            while i < n
                invariant
                    vm.inv(),
                    body_ctx.inv(),
                    body_ctx@.len() == 1,
                    ids_ok(vm@.next_id, vm@.interned),
                    n == parameters@.len(),
                    i <= n,
                    pv == asts_view(*parameters),
                    pv.len() == n,
                    forall|j: int| 0 <= j < n ==> pv[j] == parameters@[j]@,
                    ast_list_vars(pv),
                    st0.next_id + ast_list_size(pv.take(i as int)) >= vm@.next_id,
                    old(vm)@.next_id <= vm@.next_id,
                    st0 == gen_state(old(ctx), old(vm), old(instr)),
                    vm@.next_id + ast_list_size(pv.skip(i as int)) + ast_size((*body)@) + 1
                        <= u64::MAX,
                    vm@.stack == old(vm)@.stack,
                    vm@.callstack == old(vm)@.callstack,
                    vm@.env == old(vm)@.env,
                    ({
                        let (ids, m, stp) = spec_params(pv.take(i as int), st0);
                        params@ == ids && body_ctx@ =~= seq![m] && stp.next_id == vm@.next_id
                            && stp.interned == vm@.interned
                    }),
                decreases n - i,
            {
                proof {
                    assert(pv.take(i + 1).drop_last() =~= pv.take(i as int));
                    assert(pv.take(i + 1).last() == pv[i as int]);
                    crate::parser::lemma_ast_size_pos(pv[i as int]);
                    crate::parser::lemma_ast_list_size_drop_last(pv.take(i + 1));
                    assert(pv.skip(i as int)[0] == pv[i as int]);
                    assert(pv.skip(i as int).drop_first() =~= pv.skip(i + 1));
                }
                match &parameters[i] {
                    AST::Variable(p) => {
                        let id = vm.intern(p);
                        params.push(id);
                        body_ctx.insert(id, p.as_str());
                        proof {
                            let (ids1, m1, stp1) = spec_params(pv.take(i + 1), st0);
                            assert(params@ =~= ids1);
                            assert(body_ctx@ =~= seq![m1]);
                        }
                    },
                    _ => {
                        proof {
                            assert(false);
                        }
                    },
                }
                i += 1;
            }
            proof {
                assert(pv.take(n as int) =~= pv);
            }
            let ghost trip = spec_params(pv, st0);
            let mut body_instr: Vec<Opcode> = Vec::new();
            proof {
                lemma_ops_view(body_instr);
                assert(ops_view(body_instr) =~= Seq::<SpecOp>::empty());
                assert(gen_state(&body_ctx, vm, &body_instr) =~= GenState {
                    ctx: seq![trip.1],
                    next_id: trip.2.next_id,
                    interned: trip.2.interned,
                    instr: Seq::empty(),
                });
            }
            match generate(body, &mut body_ctx, vm, &mut body_instr) {
                Ok(()) => {},
                Err(e) => {
                    return Err(e);
                },
            }
            emit(
                instr,
                Opcode::Callable {
                    kind: CallableKind::Relation,
                    parameters: params,
                    instructions: body_instr,
                    ip: 0,
                },
            );
            Ok(())
        },
    }
}

/// Generates a list of goals, a separator after every goal but the
/// first: the left-folded encoding of `conj` and `disj` blocks.
fn gen_goals(
    nodes: &Vec<AST>,
    ctx: &mut Context,
    vm: &mut VirtualMachine,
    instr: &mut Vec<Opcode>,
    conj: bool,
) -> (r: Result<(), SyntaxError>)
    requires
        old(ctx).inv(),
        old(ctx)@.len() >= 1,
        old(vm).inv(),
        ids_ok(old(vm)@.next_id, old(vm)@.interned),
        ast_list_wf(asts_view(*nodes)),
        old(vm)@.next_id + ast_list_size(asts_view(*nodes)) <= u64::MAX,
    ensures
        final(ctx).inv(),
        final(ctx)@.len() >= 1,
        final(vm).inv(),
        ids_ok(final(vm)@.next_id, final(vm)@.interned),
        old(vm)@.next_id <= final(vm)@.next_id,
        final(vm)@.stack == old(vm)@.stack,
        final(vm)@.callstack == old(vm)@.callstack,
        final(vm)@.env == old(vm)@.env,
        ops_view(*old(instr)).is_prefix_of(ops_view(*final(instr))),
        match r {
            Ok(()) => spec_gen_goals(
                asts_view(*nodes),
                gen_state(old(ctx), old(vm), old(instr)),
                true,
                conj,
            ) == Ok::<GenState, (Seq<char>, nat)>(gen_state(final(ctx), final(vm), final(instr))),
            Err(e) => spec_gen_goals(
                asts_view(*nodes),
                gen_state(old(ctx), old(vm), old(instr)),
                true,
                conj,
            ) matches Err((m, off)) && e.msg@ == m && e.offset == off,
        },
    decreases nodes,
{
    let ghost st0 = gen_state(ctx, vm, instr);
    let ghost nv = asts_view(*nodes);
    proof {
        lemma_asts_view(*nodes);
        assert(nv.skip(0) =~= nv);
        lemma_prefix_refl(ops_view(*instr));
    }
    let n = nodes.len();
    let mut first = true;
    let mut i: usize = 0;
    while i < n
        invariant
            ctx.inv(),
            ctx@.len() >= 1,
            vm.inv(),
            ids_ok(vm@.next_id, vm@.interned),
            n == nodes@.len(),
            i <= n,
            first == (i == 0),
            nv == asts_view(*nodes),
            nv.len() == n,
            forall|j: int| 0 <= j < n ==> nv[j] == nodes@[j]@,
            ast_list_wf(nv.skip(i as int)),
            vm@.next_id + ast_list_size(nv.skip(i as int)) <= u64::MAX,
            old(vm)@.next_id <= vm@.next_id,
            vm@.stack == old(vm)@.stack,
            vm@.callstack == old(vm)@.callstack,
            vm@.env == old(vm)@.env,
            st0 == gen_state(old(ctx), old(vm), old(instr)),
            ops_view(*old(instr)).is_prefix_of(ops_view(*instr)),
            spec_gen_goals(nv.skip(i as int), gen_state(ctx, vm, instr), i == 0, conj)
                == spec_gen_goals(nv, st0, true, conj),
        decreases n - i,
    {
        proof {
            assert(nv.skip(i as int)[0] == nv[i as int]);
            assert(nv.skip(i as int).drop_first() =~= nv.skip(i + 1));
        }
        let ghost st_here = gen_state(ctx, vm, instr);
        match generate(&nodes[i], ctx, vm, instr) {
            Ok(()) => {
                proof {
                    lemma_prefix_trans(ops_view(*old(instr)), st_here.instr, ops_view(*instr));
                }
            },
            Err(e) => {
                proof {
                    lemma_prefix_trans(ops_view(*old(instr)), st_here.instr, ops_view(*instr));
                }
                return Err(e);
            },
        }
        proof {
            lemma_spec_gen_bounds(nv[i as int], st_here);
        }
        if !first {
            let ghost before_sep = ops_view(*instr);
            if conj {
                emit(instr, Opcode::Conj2);
            } else {
                emit(instr, Opcode::Disj2);
            }
            proof {
                lemma_prefix_trans(ops_view(*old(instr)), before_sep, ops_view(*instr));
            }
        }
        first = false;
        i += 1;
    }
    proof {
        assert(nv.skip(n as int) =~= Seq::<SpecAst>::empty());
    }
    Ok(())
}

/// Generates a list of trees one after the other.
fn gen_list(nodes: &Vec<AST>, ctx: &mut Context, vm: &mut VirtualMachine, instr: &mut Vec<Opcode>) -> (r:
    Result<(), SyntaxError>)
    requires
        old(ctx).inv(),
        old(ctx)@.len() >= 1,
        old(vm).inv(),
        ids_ok(old(vm)@.next_id, old(vm)@.interned),
        ast_list_wf(asts_view(*nodes)),
        old(vm)@.next_id + ast_list_size(asts_view(*nodes)) <= u64::MAX,
    ensures
        final(ctx).inv(),
        final(ctx)@.len() >= 1,
        final(vm).inv(),
        ids_ok(final(vm)@.next_id, final(vm)@.interned),
        old(vm)@.next_id <= final(vm)@.next_id,
        final(vm)@.stack == old(vm)@.stack,
        final(vm)@.callstack == old(vm)@.callstack,
        final(vm)@.env == old(vm)@.env,
        ops_view(*old(instr)).is_prefix_of(ops_view(*final(instr))),
        match r {
            Ok(()) => spec_gen_list(asts_view(*nodes), gen_state(old(ctx), old(vm), old(instr)))
                == Ok::<GenState, (Seq<char>, nat)>(gen_state(final(ctx), final(vm), final(instr))),
            Err(e) => spec_gen_list(asts_view(*nodes), gen_state(old(ctx), old(vm), old(instr)))
                matches Err((m, off)) && e.msg@ == m && e.offset == off,
        },
    decreases nodes,
{
    let ghost st0 = gen_state(ctx, vm, instr);
    let ghost nv = asts_view(*nodes);
    proof {
        lemma_asts_view(*nodes);
        assert(nv.skip(0) =~= nv);
        lemma_prefix_refl(ops_view(*instr));
    }
    let n = nodes.len();
    let mut i: usize = 0;
    while i < n
        invariant
            ctx.inv(),
            ctx@.len() >= 1,
            vm.inv(),
            ids_ok(vm@.next_id, vm@.interned),
            n == nodes@.len(),
            i <= n,
            nv == asts_view(*nodes),
            nv.len() == n,
            forall|j: int| 0 <= j < n ==> nv[j] == nodes@[j]@,
            ast_list_wf(nv.skip(i as int)),
            vm@.next_id + ast_list_size(nv.skip(i as int)) <= u64::MAX,
            old(vm)@.next_id <= vm@.next_id,
            vm@.stack == old(vm)@.stack,
            vm@.callstack == old(vm)@.callstack,
            vm@.env == old(vm)@.env,
            st0 == gen_state(old(ctx), old(vm), old(instr)),
            ops_view(*old(instr)).is_prefix_of(ops_view(*instr)),
            spec_gen_list(nv.skip(i as int), gen_state(ctx, vm, instr)) == spec_gen_list(nv, st0),
        decreases n - i,
    {
        proof {
            assert(nv.skip(i as int)[0] == nv[i as int]);
            assert(nv.skip(i as int).drop_first() =~= nv.skip(i + 1));
        }
        let ghost st_here = gen_state(ctx, vm, instr);
        match generate(&nodes[i], ctx, vm, instr) {
            Ok(()) => {
                proof {
                    lemma_prefix_trans(ops_view(*old(instr)), st_here.instr, ops_view(*instr));
                }
            },
            Err(e) => {
                proof {
                    lemma_prefix_trans(ops_view(*old(instr)), st_here.instr, ops_view(*instr));
                }
                return Err(e);
            },
        }
        proof {
            lemma_spec_gen_bounds(nv[i as int], st_here);
        }
        i += 1;
    }
    proof {
        assert(nv.skip(n as int) =~= Seq::<SpecAst>::empty());
    }
    Ok(())
}

/// Generates the alternating keys and values of a table literal, a
/// `SetTable` after every value.
fn gen_table(nodes: &Vec<AST>, ctx: &mut Context, vm: &mut VirtualMachine, instr: &mut Vec<Opcode>) -> (r:
    Result<(), SyntaxError>)
    requires
        old(ctx).inv(),
        old(ctx)@.len() >= 1,
        old(vm).inv(),
        ids_ok(old(vm)@.next_id, old(vm)@.interned),
        ast_list_wf(asts_view(*nodes)),
        old(vm)@.next_id + ast_list_size(asts_view(*nodes)) <= u64::MAX,
    ensures
        final(ctx).inv(),
        final(ctx)@.len() >= 1,
        final(vm).inv(),
        ids_ok(final(vm)@.next_id, final(vm)@.interned),
        old(vm)@.next_id <= final(vm)@.next_id,
        final(vm)@.stack == old(vm)@.stack,
        final(vm)@.callstack == old(vm)@.callstack,
        final(vm)@.env == old(vm)@.env,
        ops_view(*old(instr)).is_prefix_of(ops_view(*final(instr))),
        match r {
            Ok(()) => spec_gen_table(
                asts_view(*nodes),
                gen_state(old(ctx), old(vm), old(instr)),
                false,
            ) == Ok::<GenState, (Seq<char>, nat)>(gen_state(final(ctx), final(vm), final(instr))),
            Err(e) => spec_gen_table(
                asts_view(*nodes),
                gen_state(old(ctx), old(vm), old(instr)),
                false,
            ) matches Err((m, off)) && e.msg@ == m && e.offset == off,
        },
    decreases nodes,
{
    let ghost st0 = gen_state(ctx, vm, instr);
    let ghost nv = asts_view(*nodes);
    proof {
        lemma_asts_view(*nodes);
        assert(nv.skip(0) =~= nv);
    }
    let n = nodes.len();
    proof {
        lemma_prefix_refl(ops_view(*instr));
    }
    let mut gen_set_table = false;
    let mut i: usize = 0;
    while i < n
        invariant
            ctx.inv(),
            ctx@.len() >= 1,
            vm.inv(),
            ids_ok(vm@.next_id, vm@.interned),
            n == nodes@.len(),
            i <= n,
            gen_set_table == (i % 2 == 1),
            nv == asts_view(*nodes),
            nv.len() == n,
            forall|j: int| 0 <= j < n ==> nv[j] == nodes@[j]@,
            ast_list_wf(nv.skip(i as int)),
            vm@.next_id + ast_list_size(nv.skip(i as int)) <= u64::MAX,
            old(vm)@.next_id <= vm@.next_id,
            vm@.stack == old(vm)@.stack,
            vm@.callstack == old(vm)@.callstack,
            vm@.env == old(vm)@.env,
            st0 == gen_state(old(ctx), old(vm), old(instr)),
            ops_view(*old(instr)).is_prefix_of(ops_view(*instr)),
            spec_gen_table(nv.skip(i as int), gen_state(ctx, vm, instr), gen_set_table)
                == spec_gen_table(nv, st0, false),
        decreases n - i,
    {
        proof {
            assert(nv.skip(i as int)[0] == nv[i as int]);
            assert(nv.skip(i as int).drop_first() =~= nv.skip(i + 1));
        }
        let ghost st_here = gen_state(ctx, vm, instr);
        match generate(&nodes[i], ctx, vm, instr) {
            Ok(()) => {
                proof {
                    lemma_prefix_trans(ops_view(*old(instr)), st_here.instr, ops_view(*instr));
                }
            },
            Err(e) => {
                proof {
                    lemma_prefix_trans(ops_view(*old(instr)), st_here.instr, ops_view(*instr));
                }
                return Err(e);
            },
        }
        proof {
            lemma_spec_gen_bounds(nv[i as int], st_here);
        }
        if gen_set_table {
            let ghost before_set = ops_view(*instr);
            emit(instr, Opcode::SetTable);
            proof {
                lemma_prefix_trans(ops_view(*old(instr)), before_set, ops_view(*instr));
            }
        }
        gen_set_table = !gen_set_table;
        i += 1;
    }
    proof {
        assert(nv.skip(n as int) =~= Seq::<SpecAst>::empty());
    }
    Ok(())
}

/// Code generation is deterministic: one tree, generated twice from the
/// same scope stack, interner state and instruction buffer, yields the
/// same instructions, identifiers and scopes — the only variation
/// between runs is the starting point of the monotonic id allocation,
/// which is part of the state.
pub proof fn lemma_generate_deterministic(a1: SpecAst, a2: SpecAst, st1: GenState, st2: GenState)
    requires
        a1 == a2,
        st1 == st2,
    ensures
        spec_gen(a1, st1) == spec_gen(a2, st2),
{
}

} // verus!
