use crate::errors::SyntaxError;
use crate::tokenizer::{Token, TokenKind};
use vstd::prelude::*;
use vstd::string::StrSliceExecFns;
use vstd::string::StringExecFns;

verus! {

broadcast use vstd::std_specs::vec::axiom_vec_index_decreases, vstd::seq::group_seq_axioms;

/// The mathematical value of a syntax tree.
pub enum SpecAst {
    Conj(Seq<SpecAst>),
    Disj(Seq<SpecAst>),
    Equals(Box<SpecAst>, Box<SpecAst>),
    Var(Seq<SpecAst>, Box<SpecAst>),
    Atom(Seq<char>),
    Variable(Seq<char>),
    FnCall(Seq<char>, Seq<SpecAst>, nat),
    Program(Seq<SpecAst>),
    Table(Seq<SpecAst>),
    LetBinding(Seq<char>, Box<SpecAst>),
    BindingRef(Seq<char>),
    Relation(Seq<SpecAst>, Box<SpecAst>),
}

/// A node of the abstract syntax tree that the parser produces and the
/// code generator walks.
#[derive(Debug)]
pub enum AST {
    /// A conjunction of goals.
    Conj(Vec<AST>),
    /// A disjunction of goals.
    Disj(Vec<AST>),
    /// An equality of two terms, compiled to a unification goal.
    Equals(Box<AST>, Box<AST>),
    /// A fresh-variable block: declared variables and a body goal.
    Var(Vec<AST>, Box<AST>),
    /// An atom literal.
    Atom(String),
    /// A variable reference.
    Variable(String),
    /// A built-in call, with the source offset of its name.
    FnCall(String, Vec<AST>, usize),
    /// A sequence of statements.
    Program(Vec<AST>),
    /// A table literal: keys and values, alternating.
    Table(Vec<AST>),
    /// A let binding of a name to an expression.
    LetBinding(String, Box<AST>),
    /// A reference to a let binding.
    BindingRef(String),
    /// A relation literal: parameter variables and a body goal.
    Relation(Vec<AST>, Box<AST>),
}

/// The models of the nodes of `v` from position `i` on.
pub open spec fn asts_view_from(v: Vec<AST>, i: int) -> Seq<SpecAst>
    decreases v, v@.len() - i,
{
    if 0 <= i < v@.len() {
        seq![v@[i]@] + asts_view_from(v, i + 1)
    } else {
        Seq::empty()
    }
}

/// The model of a vector of nodes.
pub open spec fn asts_view(v: Vec<AST>) -> Seq<SpecAst>
    decreases v, v@.len() + 1,
{
    asts_view_from(v, 0)
}

impl View for AST {
    type V = SpecAst;

    open spec fn view(&self) -> SpecAst
        decreases self, 0int,
    {
        match self {
            AST::Conj(v) => SpecAst::Conj(asts_view(*v)),
            AST::Disj(v) => SpecAst::Disj(asts_view(*v)),
            AST::Equals(a, b) => SpecAst::Equals(Box::new((**a)@), Box::new((**b)@)),
            AST::Var(d, b) => SpecAst::Var(asts_view(*d), Box::new((**b)@)),
            AST::Atom(s) => SpecAst::Atom(s@),
            AST::Variable(s) => SpecAst::Variable(s@),
            AST::FnCall(s, a, o) => SpecAst::FnCall(s@, asts_view(*a), *o as nat),
            AST::Program(v) => SpecAst::Program(asts_view(*v)),
            AST::Table(v) => SpecAst::Table(asts_view(*v)),
            AST::LetBinding(s, b) => SpecAst::LetBinding(s@, Box::new((**b)@)),
            AST::BindingRef(s) => SpecAst::BindingRef(s@),
            AST::Relation(p, b) => SpecAst::Relation(asts_view(*p), Box::new((**b)@)),
        }
    }
}

proof fn lemma_asts_view_from(v: Vec<AST>, i: int)
    requires
        0 <= i <= v@.len(),
    ensures
        asts_view_from(v, i).len() == v@.len() - i,
        forall|j: int| 0 <= j < v@.len() - i ==> asts_view_from(v, i)[j] == v@[i + j]@,
    decreases v@.len() - i,
{
    if i < v@.len() {
        lemma_asts_view_from(v, i + 1);
        let head = seq![v@[i]@];
        assert(asts_view_from(v, i) == head + asts_view_from(v, i + 1));
        assert forall|j: int| 0 <= j < v@.len() - i implies asts_view_from(v, i)[j] == v@[i
            + j]@ by {
            if j == 0 {
                assert((head + asts_view_from(v, i + 1))[0] == head[0]);
            } else {
                assert((head + asts_view_from(v, i + 1))[j] == asts_view_from(v, i + 1)[j - 1]);
            }
        }
    } else {
        assert(asts_view_from(v, i) == Seq::<SpecAst>::empty());
    }
}

/// How `asts_view` relates to the vector it models.
pub proof fn lemma_asts_view(v: Vec<AST>)
    ensures
        asts_view(v).len() == v@.len(),
        forall|i: int| 0 <= i < v@.len() ==> asts_view(v)[i] == v@[i]@,
{
    lemma_asts_view_from(v, 0);
    assert forall|i: int| 0 <= i < v@.len() implies asts_view(v)[i] == v@[i]@ by {
        assert(asts_view_from(v, 0)[i] == v@[0 + i]@);
    }
}

/// The trees the code generator accepts: the declarations of a
/// fresh-variable block and the parameters of a relation literal are
/// plain variables.
pub open spec fn ast_wf(a: SpecAst) -> bool
    decreases a,
{
    match a {
        SpecAst::Conj(v) => ast_list_wf(v),
        SpecAst::Disj(v) => ast_list_wf(v),
        SpecAst::Equals(l, r) => ast_wf(*l) && ast_wf(*r),
        SpecAst::Var(d, b) => ast_list_vars(d) && ast_wf(*b),
        SpecAst::Atom(_) => true,
        SpecAst::Variable(_) => true,
        SpecAst::FnCall(_, args, _) => ast_list_wf(args),
        SpecAst::Program(v) => ast_list_wf(v),
        SpecAst::Table(v) => ast_list_wf(v),
        SpecAst::LetBinding(_, b) => ast_wf(*b),
        SpecAst::BindingRef(_) => true,
        SpecAst::Relation(p, b) => ast_list_vars(p) && ast_wf(*b),
    }
}

/// Every tree of the list is well formed.
pub open spec fn ast_list_wf(v: Seq<SpecAst>) -> bool
    decreases v,
{
    if v.len() == 0 {
        true
    } else {
        ast_wf(v[0]) && ast_list_wf(v.drop_first())
    }
}

/// Every tree of the list is a variable reference.
pub open spec fn ast_list_vars(v: Seq<SpecAst>) -> bool {
    forall|i: int| 0 <= i < v.len() ==> (#[trigger] v[i]) matches SpecAst::Variable(_)
}

/// The number of nodes of a tree: a bound on how many identifiers its
/// code generation interns.
pub open spec fn ast_size(a: SpecAst) -> nat
    decreases a,
{
    match a {
        SpecAst::Conj(v) => ast_list_size(v) + 1,
        SpecAst::Disj(v) => ast_list_size(v) + 1,
        SpecAst::Equals(l, r) => ast_size(*l) + ast_size(*r) + 1,
        SpecAst::Var(d, b) => ast_list_size(d) + ast_size(*b) + 1,
        SpecAst::Atom(_) => 1,
        SpecAst::Variable(_) => 1,
        SpecAst::FnCall(_, args, _) => ast_list_size(args) + 1,
        SpecAst::Program(v) => ast_list_size(v) + 1,
        SpecAst::Table(v) => ast_list_size(v) + 1,
        SpecAst::LetBinding(_, b) => ast_size(*b) + 1,
        SpecAst::BindingRef(_) => 1,
        SpecAst::Relation(p, b) => ast_list_size(p) + ast_size(*b) + 1,
    }
}

/// The summed size of a list of trees.
pub open spec fn ast_list_size(v: Seq<SpecAst>) -> nat
    decreases v,
{
    if v.len() == 0 {
        0
    } else {
        ast_size(v[0]) + ast_list_size(v.drop_first())
    }
}

/// Every tree has at least one node.
pub proof fn lemma_ast_size_pos(a: SpecAst)
    ensures
        ast_size(a) >= 1,
{
}

/// The size of a list with its last tree set aside.
pub proof fn lemma_ast_list_size_drop_last(v: Seq<SpecAst>)
    requires
        v.len() > 0,
    ensures
        ast_list_size(v) == ast_list_size(v.drop_last()) + ast_size(v.last()),
    decreases v.len(),
{
    if v.len() == 1 {
        assert(v.drop_last() =~= Seq::<SpecAst>::empty());
        assert(v.drop_first() =~= Seq::<SpecAst>::empty());
    } else {
        lemma_ast_list_size_drop_last(v.drop_first());
        assert(v.drop_first().drop_last() =~= v.drop_last().drop_first());
        assert(v.drop_last()[0] == v[0]);
        assert(v.drop_first().last() == v.last());
    }
}

/// The source text a tree renders back to.
pub open spec fn spec_ast_text(a: SpecAst) -> Seq<char>
    decreases a, 0int,
{
    match a {
        SpecAst::Conj(v) => "conj { "@ + spec_list_text(v, " , "@) + " }"@,
        SpecAst::Disj(v) => "disj { "@ + spec_list_text(v, " | "@) + " }"@,
        SpecAst::Equals(l, r) => spec_ast_text(*l) + " == "@ + spec_ast_text(*r),
        SpecAst::Var(d, b) => "var ("@ + spec_list_text(d, ", "@) + ") { "@ + spec_ast_text(*b)
            + " }"@,
        SpecAst::Atom(name) => "'"@ + name,
        SpecAst::Variable(name) => name,
        SpecAst::FnCall(name, args, _) => name + "("@ + spec_list_text(args, ", "@) + ")"@,
        SpecAst::Program(v) => spec_list_text(v, ""@),
        SpecAst::Table(v) => "{"@ + spec_table_text(v) + "}"@,
        SpecAst::LetBinding(name, e) => "let "@ + name + " = "@ + spec_ast_text(*e),
        SpecAst::BindingRef(name) => name,
        SpecAst::Relation(p, b) => "rel("@ + spec_list_text(p, ", "@) + ") { "@ + spec_ast_text(*b)
            + " }"@,
    }
}

/// The texts of a list of trees with a separator between neighbours.
pub open spec fn spec_list_text(v: Seq<SpecAst>, sep: Seq<char>) -> Seq<char>
    decreases v, 1int,
{
    if v.len() == 0 {
        Seq::empty()
    } else if v.len() == 1 {
        spec_ast_text(v[0])
    } else {
        spec_ast_text(v[0]) + sep + spec_list_text(v.drop_first(), sep)
    }
}

/// The `key: value` rows of a table literal, comma separated; a
/// dangling key without a value renders alone.
pub open spec fn spec_table_text(v: Seq<SpecAst>) -> Seq<char>
    decreases v, 1int,
{
    if v.len() == 0 {
        Seq::empty()
    } else if v.len() == 1 {
        spec_ast_text(v[0])
    } else {
        spec_ast_text(v[0]) + ": "@ + spec_ast_text(v[1]) + (if v.len() == 2 {
            Seq::<char>::empty()
        } else {
            ", "@
        }) + spec_table_text(v.skip(2))
    }
}

impl AST {
    /// Renders the tree back as source text.
    pub fn to_text(&self) -> (s: String)
        ensures
            s@ == spec_ast_text(self@),
        decreases self, 0int,
    {
        match self {
            AST::Conj(terms) => {
                let mut out = "conj { ".to_owned();
                out.append(list_text(terms, " , ").as_str());
                out.append(" }");
                proof {
                    assert(out@ =~= spec_ast_text(self@));
                }
                out
            },
            AST::Disj(terms) => {
                let mut out = "disj { ".to_owned();
                out.append(list_text(terms, " | ").as_str());
                out.append(" }");
                proof {
                    assert(out@ =~= spec_ast_text(self@));
                }
                out
            },
            AST::Equals(left, right) => {
                let mut out = left.to_text();
                out.append(" == ");
                out.append(right.to_text().as_str());
                proof {
                    assert(out@ =~= spec_ast_text(self@));
                }
                out
            },
            AST::Var(declarations, body) => {
                let mut out = "var (".to_owned();
                out.append(list_text(declarations, ", ").as_str());
                out.append(") { ");
                out.append(body.to_text().as_str());
                out.append(" }");
                proof {
                    assert(out@ =~= spec_ast_text(self@));
                }
                out
            },
            AST::Atom(atom) => {
                let mut out = "'".to_owned();
                out.append(atom.as_str());
                proof {
                    assert(out@ =~= spec_ast_text(self@));
                }
                out
            },
            AST::Variable(name) => crate::vm::clone_string(name),
            AST::FnCall(name, arguments, _) => {
                let mut out = crate::vm::clone_string(name);
                out.append("(");
                out.append(list_text(arguments, ", ").as_str());
                out.append(")");
                proof {
                    assert(out@ =~= spec_ast_text(self@));
                }
                out
            },
            AST::Program(statements) => {
                let out = list_text(statements, "");
                proof {
                    reveal_strlit("");
                    assert(""@ =~= Seq::<char>::empty());
                    assert(out@ =~= spec_ast_text(self@));
                }
                out
            },
            AST::Table(members) => {
                let mut out = "{".to_owned();
                out.append(table_text(members).as_str());
                out.append("}");
                proof {
                    assert(out@ =~= spec_ast_text(self@));
                }
                out
            },
            AST::LetBinding(name, expr) => {
                let mut out = "let ".to_owned();
                out.append(name.as_str());
                out.append(" = ");
                out.append(expr.to_text().as_str());
                proof {
                    assert(out@ =~= spec_ast_text(self@));
                }
                out
            },
            AST::BindingRef(name) => crate::vm::clone_string(name),
            AST::Relation(parameters, body) => {
                let mut out = "rel(".to_owned();
                out.append(list_text(parameters, ", ").as_str());
                out.append(") { ");
                out.append(body.to_text().as_str());
                out.append(" }");
                proof {
                    assert(out@ =~= spec_ast_text(self@));
                }
                out
            },
        }
    }
}

/// The trees of a list rendered with a separator between neighbours.
fn list_text(items: &Vec<AST>, sep: &str) -> (s: String)
    ensures
        s@ == spec_list_text(asts_view(*items), sep@),
    decreases items, 1int,
{
    let ghost iv = asts_view(*items);
    proof {
        lemma_asts_view(*items);
        assert(iv.skip(0) =~= iv);
    }
    let mut out = String::new();
    let n = items.len();
    let mut i: usize = 0;
    while i < n
        invariant
            n == items@.len(),
            i <= n,
            iv == asts_view(*items),
            iv.len() == n,
            forall|j: int| 0 <= j < n ==> iv[j] == items@[j]@,
            spec_list_text(iv, sep@) == out@ + spec_list_text(iv.skip(i as int), sep@),
        decreases n - i,
    {
        proof {
            assert(iv.skip(i as int)[0] == iv[i as int]);
            assert(iv.skip(i as int).drop_first() =~= iv.skip(i + 1));
        }
        out.append(items[i].to_text().as_str());
        if i + 1 < n {
            out.append(sep);
            proof {
                assert(spec_list_text(iv, sep@) =~= out@ + spec_list_text(iv.skip(i + 1), sep@));
            }
        } else {
            proof {
                assert(iv.skip(i + 1) =~= Seq::<SpecAst>::empty());
                assert(spec_list_text(iv, sep@) =~= out@ + spec_list_text(iv.skip(i + 1), sep@));
            }
        }
        i += 1;
    }
    proof {
        assert(iv.skip(n as int) =~= Seq::<SpecAst>::empty());
        assert(out@ =~= spec_list_text(iv, sep@));
    }
    out
}

/// The key/value pairs of a table literal rendered as `key: value`
/// rows separated by commas.
fn table_text(members: &Vec<AST>) -> (s: String)
    ensures
        s@ == spec_table_text(asts_view(*members)),
    decreases members, 1int,
{
    let ghost mv = asts_view(*members);
    proof {
        lemma_asts_view(*members);
        assert(mv.skip(0) =~= mv);
    }
    let mut out = String::new();
    let n = members.len();
    let mut i: usize = 0;
    while i < n
        invariant
            n == members@.len(),
            i <= n,
            mv == asts_view(*members),
            mv.len() == n,
            forall|j: int| 0 <= j < n ==> mv[j] == members@[j]@,
            spec_table_text(mv) == out@ + spec_table_text(mv.skip(i as int)),
        decreases n - i,
    {
        proof {
            assert(mv.skip(i as int)[0] == mv[i as int]);
        }
        out.append(members[i].to_text().as_str());
        if i + 1 < n {
            proof {
                assert(mv.skip(i as int)[1] == mv[i + 1]);
                assert(mv.skip(i as int).skip(2) =~= mv.skip(i + 2));
            }
            out.append(": ");
            out.append(members[i + 1].to_text().as_str());
            if i + 2 != n {
                out.append(", ");
            }
            proof {
                assert(spec_table_text(mv) =~= out@ + spec_table_text(mv.skip(i + 2)));
            }
            i += 2;
        } else {
            proof {
                assert(mv.skip(i as int).len() == 1);
                assert(mv.skip(i + 1) =~= Seq::<SpecAst>::empty());
                assert(spec_table_text(mv) =~= out@ + spec_table_text(mv.skip(i + 1)));
            }
            i += 1;
        }
    }
    proof {
        assert(mv.skip(n as int) =~= Seq::<SpecAst>::empty());
        assert(out@ =~= spec_table_text(mv));
    }
    out
}

/// A tree that stands for a term: an atom or a variable.
pub open spec fn ast_term_shaped(a: SpecAst) -> bool {
    a matches SpecAst::Atom(_) || a matches SpecAst::Variable(_)
}

/// A tree that stands for a goal: an equality of terms, a conjunction or
/// disjunction of goals, or a fresh-variable block over a goal.
pub open spec fn ast_goal_shaped(a: SpecAst) -> bool
    decreases a,
{
    match a {
        SpecAst::Equals(l, r) => ast_term_shaped(*l) && ast_term_shaped(*r),
        SpecAst::Conj(v) => ast_goals_shaped(v),
        SpecAst::Disj(v) => ast_goals_shaped(v),
        SpecAst::Var(_, b) => ast_goal_shaped(*b),
        _ => false,
    }
}

/// Every tree of the list stands for a goal.
pub open spec fn ast_goals_shaped(v: Seq<SpecAst>) -> bool
    decreases v,
{
    if v.len() == 0 {
        true
    } else {
        ast_goal_shaped(v[0]) && ast_goals_shaped(v.drop_first())
    }
}

/// A list of goals is goal-shaped exactly when each of its trees is.
proof fn lemma_ast_goals_shaped_index(v: Seq<SpecAst>)
    ensures
        ast_goals_shaped(v) <==> (forall|i: int|
            0 <= i < v.len() ==> ast_goal_shaped(#[trigger] v[i])),
    decreases v.len(),
{
    if v.len() > 0 {
        lemma_ast_goals_shaped_index(v.drop_first());
        if ast_goals_shaped(v) {
            assert forall|i: int| 0 <= i < v.len() implies ast_goal_shaped(#[trigger] v[i]) by {
                if i > 0 {
                    assert(v.drop_first()[i - 1] == v[i]);
                    assert(ast_goal_shaped(v.drop_first()[i - 1]));
                }
            }
        } else {
            if forall|i: int| 0 <= i < v.len() ==> ast_goal_shaped(#[trigger] v[i]) {
                assert forall|i: int| 0 <= i < v.drop_first().len() implies ast_goal_shaped(
                    #[trigger] v.drop_first()[i],
                ) by {
                    assert(v.drop_first()[i] == v[i + 1]);
                }
                assert(ast_goal_shaped(v[0]));
                assert(false);
            }
        }
    }
}

/// Pushing a goal-shaped tree keeps a list goal-shaped.
proof fn lemma_ast_goals_shaped_push(v: Seq<SpecAst>, a: SpecAst)
    requires
        ast_goals_shaped(v),
        ast_goal_shaped(a),
    ensures
        ast_goals_shaped(v.push(a)),
{
    lemma_ast_goals_shaped_index(v);
    lemma_ast_goals_shaped_index(v.push(a));
    assert forall|i: int| 0 <= i < v.push(a).len() implies ast_goal_shaped(
        #[trigger] v.push(a)[i],
    ) by {
        if i < v.len() {
            assert(v.push(a)[i] == v[i]);
        } else {
            assert(v.push(a)[i] == a);
        }
    }
}

/// The position and the offset bookkeeping of a parse in progress:
/// the index of the next unconsumed token, and the source offset of the
/// last token consumed, reported with errors.
pub struct ParseState {
    pub pos: usize,
    pub offset: usize,
}

fn err(msg: &str, offset: usize) -> (e: SyntaxError)
    ensures
        e.msg@ == msg@,
        e.offset == offset,
{
    SyntaxError { msg: msg.to_owned(), offset }
}

/// A program: statements until the tokens run out.
fn program(state: &mut ParseState, tokens: &Vec<Token>) -> (r: Result<AST, SyntaxError>)
    requires
        old(state).pos <= tokens@.len(),
    ensures
        old(state).pos <= final(state).pos <= tokens@.len(),
        r matches Ok(a) ==> ast_wf(a@),
    decreases tokens@.len() - old(state).pos, 9int,
{
    let mut statements: Vec<AST> = Vec::new();
    proof {
        lemma_asts_view(statements);
        assert(ast_list_wf(asts_view(statements)));
    }
    while state.pos < tokens.len()
        invariant
            old(state).pos <= state.pos <= tokens@.len(),
            ast_list_wf(asts_view(statements)),
        decreases tokens@.len() - state.pos,
    {
        match statement(state, tokens) {
            Ok(a) => {
                push_node(&mut statements, a);
            },
            Err(e) => {
                return Err(e);
            },
        }
    }
    Ok(AST::Program(statements))
}

/// A list is well formed exactly when each of its trees is.
proof fn lemma_ast_list_wf_index(v: Seq<SpecAst>)
    ensures
        ast_list_wf(v) <==> (forall|i: int| 0 <= i < v.len() ==> ast_wf(#[trigger] v[i])),
    decreases v.len(),
{
    if v.len() > 0 {
        lemma_ast_list_wf_index(v.drop_first());
        if ast_list_wf(v) {
            assert forall|i: int| 0 <= i < v.len() implies ast_wf(#[trigger] v[i]) by {
                if i > 0 {
                    assert(v.drop_first()[i - 1] == v[i]);
                    assert(ast_wf(v.drop_first()[i - 1]));
                }
            }
        } else {
            if forall|i: int| 0 <= i < v.len() ==> ast_wf(#[trigger] v[i]) {
                assert forall|i: int| 0 <= i < v.drop_first().len() implies ast_wf(
                    #[trigger] v.drop_first()[i],
                ) by {
                    assert(v.drop_first()[i] == v[i + 1]);
                }
                assert(ast_wf(v[0]));
                assert(false);
            }
        }
    }
}

/// Pushing a well-formed tree keeps a list well formed.
proof fn lemma_ast_list_wf_push(v: Seq<SpecAst>, a: SpecAst)
    requires
        ast_list_wf(v),
        ast_wf(a),
    ensures
        ast_list_wf(v.push(a)),
{
    lemma_ast_list_wf_index(v);
    lemma_ast_list_wf_index(v.push(a));
    assert forall|i: int| 0 <= i < v.push(a).len() implies ast_wf(#[trigger] v.push(a)[i]) by {
        if i < v.len() {
            assert(v.push(a)[i] == v[i]);
        } else {
            assert(v.push(a)[i] == a);
        }
    }
}

/// Appends a well-formed tree to a node list.
fn push_node(v: &mut Vec<AST>, a: AST)
    requires
        ast_list_wf(asts_view(*old(v))),
        ast_wf(a@),
    ensures
        asts_view(*final(v)) == asts_view(*old(v)).push(a@),
        ast_list_wf(asts_view(*final(v))),
{
    proof {
        lemma_asts_view(*v);
    }
    v.push(a);
    proof {
        lemma_asts_view(*v);
        assert(asts_view(*v) =~= asts_view(*old(v)).push(a@));
        lemma_ast_list_wf_push(asts_view(*old(v)), a@);
    }
}

/// A statement: a let binding or an expression.
fn statement(state: &mut ParseState, tokens: &Vec<Token>) -> (r: Result<AST, SyntaxError>)
    requires
        old(state).pos <= tokens@.len(),
    ensures
        old(state).pos <= final(state).pos <= tokens@.len(),
        r matches Ok(a) ==> ast_wf(a@) && old(state).pos < final(state).pos,
    decreases tokens@.len() - old(state).pos, 8int,
{
    if state.pos < tokens.len() {
        let is_let = match &tokens[state.pos].kind {
            TokenKind::Let => true,
            _ => false,
        };
        if is_let {
            letbinding(state, tokens)
        } else {
            expression(state, tokens)
        }
    } else {
        Err(err("Unexpected end of input while parsing statement.", state.offset))
    }
}

/// A let binding: `let name = expression`.
fn letbinding(state: &mut ParseState, tokens: &Vec<Token>) -> (r: Result<AST, SyntaxError>)
    requires
        old(state).pos <= tokens@.len(),
    ensures
        old(state).pos <= final(state).pos <= tokens@.len(),
        r matches Ok(a) ==> ast_wf(a@) && old(state).pos < final(state).pos,
    decreases tokens@.len() - old(state).pos, 7int,
{
    if state.pos < tokens.len() {
        let is_let = match &tokens[state.pos].kind {
            TokenKind::Let => true,
            _ => false,
        };
        if !is_let {
            return Err(err("Expected `let`.", state.offset));
        }
        state.offset = tokens[state.pos].offset;
        state.pos = state.pos + 1;
        match variable(state, tokens) {
            Ok(AST::Variable(name)) => {
                if state.pos < tokens.len() {
                    let is_eq = match &tokens[state.pos].kind {
                        TokenKind::Equals => true,
                        _ => false,
                    };
                    if !is_eq {
                        return Err(err("Expected `=` while parsing let binding.", state.offset));
                    }
                    state.offset = tokens[state.pos].offset;
                    state.pos = state.pos + 1;
                } else {
                    return Err(
                        err("Unexpected end of input while parsing let binding.", state.offset),
                    );
                }
                match expression(state, tokens) {
                    Ok(value) => Ok(AST::LetBinding(name, Box::new(value))),
                    Err(e) => Err(e),
                }
            },
            Ok(_) => Err(err("Expected variable name while parsing let binding.", state.offset)),
            Err(e) => Err(e),
        }
    } else {
        Err(err("Unexpected end of input while parsing let binding.", state.offset))
    }
}

/// An expression: a table or relation literal, a built-in call, a
/// binding reference, or a goal.
fn expression(state: &mut ParseState, tokens: &Vec<Token>) -> (r: Result<AST, SyntaxError>)
    requires
        old(state).pos <= tokens@.len(),
    ensures
        old(state).pos <= final(state).pos <= tokens@.len(),
        r matches Ok(a) ==> ast_wf(a@) && old(state).pos < final(state).pos,
    decreases tokens@.len() - old(state).pos, 7int,
{
    if state.pos < tokens.len() {
        let kind_tag: usize = match &tokens[state.pos].kind {
            TokenKind::LeftBrace => 1,
            TokenKind::Rel => 2,
            TokenKind::Literal(_) => 3,
            _ => 0,
        };
        if kind_tag == 1 {
            table(state, tokens)
        } else if kind_tag == 2 {
            relation(state, tokens)
        } else if kind_tag == 3 {
            let name = match &tokens[state.pos].kind {
                TokenKind::Literal(n) => crate::vm::clone_string(n),
                _ => String::new(),
            };
            let name_offset = tokens[state.pos].offset;
            state.offset = tokens[state.pos].offset;
            state.pos = state.pos + 1;
            let is_paren = if state.pos < tokens.len() {
                match &tokens[state.pos].kind {
                    TokenKind::LeftParen => true,
                    _ => false,
                }
            } else {
                false
            };
            if is_paren {
                match arglist(state, tokens) {
                    Ok(args) => Ok(AST::FnCall(name, args, name_offset)),
                    Err(e) => Err(e),
                }
            } else {
                Ok(AST::BindingRef(name))
            }
        } else {
            goal(state, tokens)
        }
    } else {
        Err(err("Unexpected end of input while parsing expression.", state.offset))
    }
}

/// A table literal: `{ key: value, ... }`.
fn table(state: &mut ParseState, tokens: &Vec<Token>) -> (r: Result<AST, SyntaxError>)
    requires
        old(state).pos <= tokens@.len(),
    ensures
        old(state).pos <= final(state).pos <= tokens@.len(),
        r matches Ok(a) ==> ast_wf(a@) && old(state).pos < final(state).pos,
    decreases tokens@.len() - old(state).pos, 6int,
{
    if state.pos >= tokens.len() {
        return Err(err("Unexpected end of input while parsing table.", state.offset));
    }
    let is_brace = match &tokens[state.pos].kind {
        TokenKind::LeftBrace => true,
        _ => false,
    };
    if !is_brace {
        return Err(err("Unexpected end of input while parsing.", state.offset));
    }
    state.offset = tokens[state.pos].offset;
    state.pos = state.pos + 1;
    let mut members: Vec<AST> = Vec::new();
    proof {
        lemma_asts_view(members);
    }
    loop
        invariant
            old(state).pos < state.pos <= tokens@.len(),
            ast_list_wf(asts_view(members)),
        decreases tokens@.len() - state.pos,
    {
        if state.pos < tokens.len() {
            let is_close = match &tokens[state.pos].kind {
                TokenKind::RightBrace => true,
                _ => false,
            };
            if is_close {
                state.offset = tokens[state.pos].offset;
                state.pos = state.pos + 1;
                break ;
            }
        }
        match term(state, tokens) {
            Ok(k) => {
                push_node(&mut members, k);
            },
            Err(e) => {
                return Err(e);
            },
        }
        if state.pos < tokens.len() {
            let is_colon = match &tokens[state.pos].kind {
                TokenKind::Colon => true,
                _ => false,
            };
            if !is_colon {
                return Err(err("Expected `:` while parsing table.", state.offset));
            }
            state.offset = tokens[state.pos].offset;
            state.pos = state.pos + 1;
        }
        match term(state, tokens) {
            Ok(v) => {
                push_node(&mut members, v);
            },
            Err(e) => {
                return Err(e);
            },
        }
        if state.pos < tokens.len() {
            let sep: usize = match &tokens[state.pos].kind {
                TokenKind::Comma => 1,
                TokenKind::RightBrace => 2,
                _ => 0,
            };
            if sep == 1 {
                state.offset = tokens[state.pos].offset;
                state.pos = state.pos + 1;
            } else if sep == 2 {
                state.offset = tokens[state.pos].offset;
                state.pos = state.pos + 1;
                break ;
            } else {
                return Err(err("Expected `,` or `}` while parsing table.", state.offset));
            }
        } else {
            return Err(err("Unexpected end of input while parsing table.", state.offset));
        }
    }
    Ok(AST::Table(members))
}

/// A relation literal: `rel (params) { goal }`.
fn relation(state: &mut ParseState, tokens: &Vec<Token>) -> (r: Result<AST, SyntaxError>)
    requires
        old(state).pos <= tokens@.len(),
    ensures
        old(state).pos <= final(state).pos <= tokens@.len(),
        r matches Ok(a) ==> ast_wf(a@) && old(state).pos < final(state).pos,
    decreases tokens@.len() - old(state).pos, 6int,
{
    if state.pos >= tokens.len() {
        return Err(err("Unexpected end of input while parsing `rel`.", state.offset));
    }
    let is_rel = match &tokens[state.pos].kind {
        TokenKind::Rel => true,
        _ => false,
    };
    if !is_rel {
        return Err(err("Expected `rel`.", state.offset));
    }
    state.offset = tokens[state.pos].offset;
    state.pos = state.pos + 1;
    let parameters = match varlist(state, tokens) {
        Ok(ps) => ps,
        Err(e) => {
            return Err(e);
        },
    };
    if state.pos < tokens.len() {
        let is_brace = match &tokens[state.pos].kind {
            TokenKind::LeftBrace => true,
            _ => false,
        };
        if !is_brace {
            return Err(err("Expected `{`.", state.offset));
        }
        state.pos = state.pos + 1;
    } else {
        return Err(err("Unexpected end of input while parsing `rel`.", state.offset));
    }
    let body = match goal(state, tokens) {
        Ok(b) => b,
        Err(e) => {
            return Err(e);
        },
    };
    if state.pos < tokens.len() {
        let is_close = match &tokens[state.pos].kind {
            TokenKind::RightBrace => true,
            _ => false,
        };
        if !is_close {
            return Err(err("Expected `}`.", state.offset));
        }
        state.pos = state.pos + 1;
    } else {
        return Err(err("Unexpected end of input while parsing `rel`.", state.offset));
    }
    Ok(AST::Relation(parameters, Box::new(body)))
}

/// A goal: a conjunction, a disjunction, an equality, or a
/// fresh-variable block.
fn goal(state: &mut ParseState, tokens: &Vec<Token>) -> (r: Result<AST, SyntaxError>)
    requires
        old(state).pos <= tokens@.len(),
    ensures
        old(state).pos <= final(state).pos <= tokens@.len(),
        r matches Ok(a) ==> ast_wf(a@) && ast_goal_shaped(a@) && old(state).pos < final(state).pos,
    decreases tokens@.len() - old(state).pos, 6int,
{
    if state.pos < tokens.len() {
        let tag: usize = match &tokens[state.pos].kind {
            TokenKind::Conj => 1,
            TokenKind::Disj => 2,
            TokenKind::Tick => 3,
            TokenKind::Literal(_) => 3,
            TokenKind::Var => 4,
            _ => 0,
        };
        if tag == 1 || tag == 2 {
            state.offset = tokens[state.pos].offset;
            state.pos = state.pos + 1;
            if state.pos < tokens.len() {
                let is_brace = match &tokens[state.pos].kind {
                    TokenKind::LeftBrace => true,
                    _ => false,
                };
                if !is_brace {
                    if tag == 1 {
                        return Err(err("Expected { after conj.", state.offset));
                    } else {
                        return Err(err("Expected { after disj.", state.offset));
                    }
                }
                state.offset = tokens[state.pos].offset;
                state.pos = state.pos + 1;
                if tag == 1 {
                    conj(state, tokens)
                } else {
                    disj(state, tokens)
                }
            } else {
                if tag == 1 {
                    Err(err("Unexpected end of input while parsing conj.", state.offset))
                } else {
                    Err(err("Unexpected end of input while parsing disj.", state.offset))
                }
            }
        } else if tag == 3 {
            equals(state, tokens)
        } else if tag == 4 {
            state.offset = tokens[state.pos].offset;
            state.pos = state.pos + 1;
            var(state, tokens)
        } else {
            Err(err("Expected conj, disj, equals or var while parsing goal.", state.offset))
        }
    } else {
        Err(err("Unexpected end of input while parsing goal.", state.offset))
    }
}

/// The goals of a conjunction, separated by commas until the closing
/// brace.
fn conj(state: &mut ParseState, tokens: &Vec<Token>) -> (r: Result<AST, SyntaxError>)
    requires
        old(state).pos <= tokens@.len(),
    ensures
        old(state).pos <= final(state).pos <= tokens@.len(),
        r matches Ok(a) ==> ast_wf(a@) && ast_goal_shaped(a@),
    decreases tokens@.len() - old(state).pos, 7int,
{
    let mut goals: Vec<AST> = Vec::new();
    proof {
        lemma_asts_view(goals);
    }
    while state.pos < tokens.len()
        invariant
            old(state).pos <= state.pos <= tokens@.len(),
            ast_list_wf(asts_view(goals)),
            ast_goals_shaped(asts_view(goals)),
        decreases tokens@.len() - state.pos,
    {
        let ghost pre = asts_view(goals);
        match goal(state, tokens) {
            Ok(g) => {
                let ghost gv = g@;
                push_node(&mut goals, g);
                proof {
                    lemma_ast_goals_shaped_push(pre, gv);
                }
            },
            Err(e) => {
                return Err(e);
            },
        }
        if state.pos < tokens.len() {
            let sep: usize = match &tokens[state.pos].kind {
                TokenKind::Comma => 1,
                TokenKind::RightBrace => 2,
                _ => 0,
            };
            if sep == 1 {
                state.offset = tokens[state.pos].offset;
                state.pos = state.pos + 1;
            } else if sep == 2 {
                state.offset = tokens[state.pos].offset;
                state.pos = state.pos + 1;
                break ;
            } else {
                return Err(err("Expected `,` or `}` while parsing conj.", state.offset));
            }
        } else {
            return Err(err("Unexpected end of input while parsing conj.", state.offset));
        }
    }
    if goals.len() == 0 {
        Err(err("Empty conj expression.", state.offset))
    } else if goals.len() == 1 {
        proof {
            lemma_asts_view(goals);
            assert(ast_wf(asts_view(goals)[0]));
            assert(ast_goal_shaped(asts_view(goals)[0]));
        }
        let g = goals.remove(0);
        Ok(g)
    } else {
        Ok(AST::Conj(goals))
    }
}

/// The goals of a disjunction, separated by pipes until the closing
/// brace.
fn disj(state: &mut ParseState, tokens: &Vec<Token>) -> (r: Result<AST, SyntaxError>)
    requires
        old(state).pos <= tokens@.len(),
    ensures
        old(state).pos <= final(state).pos <= tokens@.len(),
        r matches Ok(a) ==> ast_wf(a@) && ast_goal_shaped(a@),
    decreases tokens@.len() - old(state).pos, 7int,
{
    let mut goals: Vec<AST> = Vec::new();
    proof {
        lemma_asts_view(goals);
    }
    while state.pos < tokens.len()
        invariant
            old(state).pos <= state.pos <= tokens@.len(),
            ast_list_wf(asts_view(goals)),
            ast_goals_shaped(asts_view(goals)),
        decreases tokens@.len() - state.pos,
    {
        let ghost pre = asts_view(goals);
        match goal(state, tokens) {
            Ok(g) => {
                let ghost gv = g@;
                push_node(&mut goals, g);
                proof {
                    lemma_ast_goals_shaped_push(pre, gv);
                }
            },
            Err(e) => {
                return Err(e);
            },
        }
        if state.pos < tokens.len() {
            let sep: usize = match &tokens[state.pos].kind {
                TokenKind::Pipe => 1,
                TokenKind::RightBrace => 2,
                _ => 0,
            };
            if sep == 1 {
                state.offset = tokens[state.pos].offset;
                state.pos = state.pos + 1;
            } else if sep == 2 {
                state.offset = tokens[state.pos].offset;
                state.pos = state.pos + 1;
                break ;
            } else {
                return Err(err("Expected `|` or `}` while parsing disj.", state.offset));
            }
        } else {
            return Err(err("Unexpected end of input while parsing disj.", state.offset));
        }
    }
    if goals.len() == 0 {
        Err(err("Empty disj expression.", state.offset))
    } else if goals.len() == 1 {
        proof {
            lemma_asts_view(goals);
            assert(ast_wf(asts_view(goals)[0]));
            assert(ast_goal_shaped(asts_view(goals)[0]));
        }
        let g = goals.remove(0);
        Ok(g)
    } else {
        Ok(AST::Disj(goals))
    }
}

/// An equality of two terms: `left == right`.
fn equals(state: &mut ParseState, tokens: &Vec<Token>) -> (r: Result<AST, SyntaxError>)
    requires
        old(state).pos <= tokens@.len(),
    ensures
        old(state).pos <= final(state).pos <= tokens@.len(),
        r matches Ok(a) ==> ast_wf(a@) && ast_goal_shaped(a@) && old(state).pos < final(state).pos,
    decreases tokens@.len() - old(state).pos, 5int,
{
    let left = match term(state, tokens) {
        Ok(t) => t,
        Err(e) => {
            return Err(e);
        },
    };
    if state.pos < tokens.len() {
        let is_eq = match &tokens[state.pos].kind {
            TokenKind::DoubleEquals => true,
            _ => false,
        };
        if is_eq {
            state.offset = tokens[state.pos].offset;
            state.pos = state.pos + 1;
            match term(state, tokens) {
                Ok(right) => Ok(AST::Equals(Box::new(left), Box::new(right))),
                Err(e) => Err(e),
            }
        } else {
            Err(err("Expected `==` while parsing equals.", state.offset))
        }
    } else {
        Err(err("Unexpected end of input while parsing equals.", state.offset))
    }
}

/// A term: an atom literal or a variable reference.
fn term(state: &mut ParseState, tokens: &Vec<Token>) -> (r: Result<AST, SyntaxError>)
    requires
        old(state).pos <= tokens@.len(),
    ensures
        old(state).pos <= final(state).pos <= tokens@.len(),
        r matches Ok(a) ==> ast_wf(a@) && ast_term_shaped(a@) && old(state).pos < final(state).pos,
    decreases tokens@.len() - old(state).pos, 4int,
{
    if state.pos < tokens.len() {
        let is_tick = match &tokens[state.pos].kind {
            TokenKind::Tick => true,
            _ => false,
        };
        if is_tick {
            atom(state, tokens)
        } else {
            variable(state, tokens)
        }
    } else {
        Err(err("Unexpected end of input while parsing term.", state.offset))
    }
}

/// An atom literal: a tick followed by an identifier.
fn atom(state: &mut ParseState, tokens: &Vec<Token>) -> (r: Result<AST, SyntaxError>)
    requires
        old(state).pos <= tokens@.len(),
    ensures
        old(state).pos <= final(state).pos <= tokens@.len(),
        r matches Ok(a) ==> ast_wf(a@) && (a@ matches SpecAst::Atom(_)) && old(state).pos < final(state).pos,
    decreases tokens@.len() - old(state).pos, 3int,
{
    if state.pos < tokens.len() {
        let is_tick = match &tokens[state.pos].kind {
            TokenKind::Tick => true,
            _ => false,
        };
        if is_tick {
            state.offset = tokens[state.pos].offset;
            state.pos = state.pos + 1;
            if state.pos < tokens.len() {
                state.offset = tokens[state.pos].offset;
                let name = match &tokens[state.pos].kind {
                    TokenKind::Literal(id) => Some(crate::vm::clone_string(id)),
                    _ => None,
                };
                state.pos = state.pos + 1;
                match name {
                    Some(id) => Ok(AST::Atom(id)),
                    None => Err(err("Expected identifier while parsing atom.", state.offset)),
                }
            } else {
                Err(err("Unexpected end of input while parsing atom.", state.offset))
            }
        } else {
            Err(err("Expected `'` while parsing atom.", state.offset))
        }
    } else {
        Err(err("Unexpected end of input while parsing atom.", state.offset))
    }
}

/// A fresh-variable block after its `var` keyword: `(vars) { goal }`.
fn var(state: &mut ParseState, tokens: &Vec<Token>) -> (r: Result<AST, SyntaxError>)
    requires
        old(state).pos <= tokens@.len(),
    ensures
        old(state).pos <= final(state).pos <= tokens@.len(),
        r matches Ok(a) ==> ast_wf(a@) && ast_goal_shaped(a@),
    decreases tokens@.len() - old(state).pos, 5int,
{
    let declarations = match varlist(state, tokens) {
        Ok(ds) => ds,
        Err(e) => {
            return Err(e);
        },
    };
    if state.pos < tokens.len() {
        let is_brace = match &tokens[state.pos].kind {
            TokenKind::LeftBrace => true,
            _ => false,
        };
        if is_brace {
            state.offset = tokens[state.pos].offset;
            state.pos = state.pos + 1;
            let body = match goal(state, tokens) {
                Ok(b) => b,
                Err(e) => {
                    return Err(e);
                },
            };
            if state.pos < tokens.len() {
                let is_close = match &tokens[state.pos].kind {
                    TokenKind::RightBrace => true,
                    _ => false,
                };
                if is_close {
                    state.offset = tokens[state.pos].offset;
                    state.pos = state.pos + 1;
                    Ok(AST::Var(declarations, Box::new(body)))
                } else {
                    Err(err("Expected `}}` while parsing var.", state.offset))
                }
            } else {
                Err(err("Unexpected end of input while parsing var.", state.offset))
            }
        } else {
            Err(err("Expected `{{` while parsing var.", state.offset))
        }
    } else {
        Err(err("Unexpected end of input while parsing var.", state.offset))
    }
}

/// The arguments of a built-in call: expressions between parentheses.
fn arglist(state: &mut ParseState, tokens: &Vec<Token>) -> (r: Result<Vec<AST>, SyntaxError>)
    requires
        old(state).pos <= tokens@.len(),
    ensures
        old(state).pos <= final(state).pos <= tokens@.len(),
        r matches Ok(args) ==> ast_list_wf(asts_view(args)),
    decreases tokens@.len() - old(state).pos, 2int,
{
    let mut arguments: Vec<AST> = Vec::new();
    proof {
        lemma_asts_view(arguments);
    }
    if state.pos < tokens.len() {
        let is_paren = match &tokens[state.pos].kind {
            TokenKind::LeftParen => true,
            _ => false,
        };
        if !is_paren {
            return Err(err("Expected `,` or `)` while parsing argument list.", state.offset));
        }
        state.pos = state.pos + 1;
    } else {
        return Err(err("Unexpected end of input while parsing argument list.", state.offset));
    }
    if state.pos < tokens.len() {
        let is_close = match &tokens[state.pos].kind {
            TokenKind::RightParen => true,
            _ => false,
        };
        if is_close {
            state.offset = tokens[state.pos].offset;
            state.pos = state.pos + 1;
            return Ok(arguments);
        }
    } else {
        return Err(err("Unexpected end of input while parsing argument list.", state.offset));
    }
    while state.pos < tokens.len()
        invariant
            old(state).pos < state.pos <= tokens@.len(),
            ast_list_wf(asts_view(arguments)),
        decreases tokens@.len() - state.pos,
    {
        match expression(state, tokens) {
            Ok(a) => {
                push_node(&mut arguments, a);
            },
            Err(e) => {
                return Err(e);
            },
        }
        if state.pos < tokens.len() {
            let sep: usize = match &tokens[state.pos].kind {
                TokenKind::Comma => 1,
                TokenKind::RightParen => 2,
                _ => 0,
            };
            if sep == 1 {
                state.offset = tokens[state.pos].offset;
                state.pos = state.pos + 1;
            } else if sep == 2 {
                state.offset = tokens[state.pos].offset;
                state.pos = state.pos + 1;
                break ;
            } else {
                return Err(
                    err("Expected `,` or `)` while parsing argument list.", state.offset),
                );
            }
        } else {
            return Err(
                err("Unexpected end of input while parsing argument list.", state.offset),
            );
        }
    }
    Ok(arguments)
}

/// The declared variables of a block or the parameters of a relation:
/// names between parentheses.
fn varlist(state: &mut ParseState, tokens: &Vec<Token>) -> (r: Result<Vec<AST>, SyntaxError>)
    requires
        old(state).pos <= tokens@.len(),
    ensures
        old(state).pos <= final(state).pos <= tokens@.len(),
        r matches Ok(ds) ==> ast_list_wf(asts_view(ds)) && ast_list_vars(asts_view(ds)),
    decreases tokens@.len() - old(state).pos, 4int,
{
    let mut declarations: Vec<AST> = Vec::new();
    proof {
        lemma_asts_view(declarations);
    }
    if state.pos < tokens.len() {
        let is_paren = match &tokens[state.pos].kind {
            TokenKind::LeftParen => true,
            _ => false,
        };
        if !is_paren {
            return Err(err("Expected `,` or `)` while parsing variable list.", state.offset));
        }
        state.pos = state.pos + 1;
    } else {
        return Err(err("Unexpected end of input while parsing variable list.", state.offset));
    }
    while state.pos < tokens.len()
        invariant
            old(state).pos <= state.pos <= tokens@.len(),
            ast_list_wf(asts_view(declarations)),
            ast_list_vars(asts_view(declarations)),
        decreases tokens@.len() - state.pos,
    {
        let ghost pre = asts_view(declarations);
        match variable(state, tokens) {
            Ok(d) => {
                let ghost dvv = d@;
                push_node(&mut declarations, d);
                proof {
                    assert forall|i: int|
                        0 <= i < asts_view(declarations).len() implies (
                    #[trigger] asts_view(declarations)[i]) matches SpecAst::Variable(_) by {
                        if i < pre.len() {
                            assert(asts_view(declarations)[i] == pre[i]);
                        } else {
                            assert(asts_view(declarations)[i] == dvv);
                        }
                    }
                }
            },
            Err(e) => {
                return Err(e);
            },
        }
        if state.pos < tokens.len() {
            let sep: usize = match &tokens[state.pos].kind {
                TokenKind::Comma => 1,
                TokenKind::RightParen => 2,
                _ => 0,
            };
            if sep == 1 {
                state.offset = tokens[state.pos].offset;
                state.pos = state.pos + 1;
            } else if sep == 2 {
                state.offset = tokens[state.pos].offset;
                state.pos = state.pos + 1;
                break ;
            } else {
                return Err(
                    err("Expected `,` or `)` while parsing variable list.", state.offset),
                );
            }
        } else {
            return Err(
                err("Unexpected end of input while parsing variable list.", state.offset),
            );
        }
    }
    if declarations.len() == 0 {
        Err(err("Empty variable list.", state.offset))
    } else {
        Ok(declarations)
    }
}

/// A variable reference: a bare identifier.
fn variable(state: &mut ParseState, tokens: &Vec<Token>) -> (r: Result<AST, SyntaxError>)
    requires
        old(state).pos <= tokens@.len(),
    ensures
        old(state).pos <= final(state).pos <= tokens@.len(),
        r matches Ok(a) ==> ast_wf(a@) && old(state).pos < final(state).pos && a@ matches SpecAst::Variable(_),
    decreases tokens@.len() - old(state).pos, 3int,
{
    if state.pos < tokens.len() {
        let name = match &tokens[state.pos].kind {
            TokenKind::Literal(n) => Some(crate::vm::clone_string(n)),
            _ => None,
        };
        match name {
            Some(n) => {
                state.offset = tokens[state.pos].offset;
                state.pos = state.pos + 1;
                Ok(AST::Variable(n))
            },
            None => Err(err("Expected literal while parsing variable.", state.offset)),
        }
    } else {
        Err(err("Unexpected end of input while parsing var.", state.offset))
    }
}

/// Parses a token sequence into a program tree.  The tree a successful
/// parse returns is well formed: fresh-variable declarations and
/// relation parameters are plain variables, as code generation expects.
pub fn parse(tokens: Vec<Token>) -> (r: Result<AST, SyntaxError>)
    ensures
        r matches Ok(a) ==> ast_wf(a@),
{
    let mut state = ParseState { pos: 0, offset: 0 };
    let ast = program(&mut state, &tokens);
    if state.pos >= tokens.len() || ast.is_err() {
        ast
    } else {
        Err(err("Trailing input after parsing...", state.offset))
    }
}

} // verus!
