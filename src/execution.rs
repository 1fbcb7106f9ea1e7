//! Reduction trees, the symbol table's objects, and their evaluation.
use crate::number::{
    add_q, big_is_zero, big_modpow, div_q, floor_abs_q, floor_q, lemma_exact_arithmetic, mul_q,
    pow_q, ratio_add, ratio_clone, ratio_div, ratio_floor, ratio_from_integer, ratio_is_positive,
    ratio_is_zero, ratio_mul, ratio_parts, ratio_pow, ratio_sub, ratio_zero, same_value, sub_q,
    valid_q, Q,
};
use crate::token::Token;
use crate::utils::{all_operands, floor_abs, lemma_need_slice, need, operand_arity};
use vstd::arithmetic::power::{lemma_pow_positive, pow};
use num_rational::BigRational;
use vstd::hash_map::StringHashMap;
use vstd::prelude::*;

verus! {

/// What a name in the symbol table stands for.
pub enum Object {
    Variable(BigRational),
    /// Arity and body.
    Function(usize, ExecTree),
    /// Arity, one update per argument, finalizer and condition.
    Iterative(usize, Vec<ExecTree>, ExecTree, ExecTree),
}

/// A node of a reduction tree: a token and its operands.
pub struct ExecTree {
    pub token: Token,
    pub arguments: Vec<ExecTree>,
}

impl Object {
    pub open spec fn arity(self) -> nat {
        match self {
            Object::Variable(_) => 0,
            Object::Function(a, _) => a as nat,
            Object::Iterative(a, _, _, _) => a as nat,
        }
    }
}

/// The tokens of a tree in postfix order: the operands' tokens left to right, then
/// the node's own.
pub open spec fn postfix(t: ExecTree) -> Seq<Token>
    decreases t,
{
    postfix_all(t.arguments@).push(t.token)
}

/// The postfix tokens of a sequence of trees, one after the other.
pub open spec fn postfix_all(ts: Seq<ExecTree>) -> Seq<Token>
    decreases ts,
{
    if ts.len() == 0 {
        Seq::empty()
    } else {
        postfix_all(ts.drop_last()) + postfix(ts.last())
    }
}

/// Every node holds an operand token with as many operands as its arity under the
/// table.
pub open spec fn wf_tree(t: ExecTree, table: Map<Seq<char>, Object>) -> bool
    decreases t,
{
    &&& t.token.is_operand()
    &&& t.arguments@.len() == t.token.arity_in(table)
    &&& forall|i: int| 0 <= i < t.arguments@.len() ==> wf_tree(#[trigger] t.arguments@[i], table)
}

/// Every number token has a positive denominator.
pub open spec fn token_valid(t: Token) -> bool {
    match t {
        Token::Number(r) => valid_q(ratio_parts(r)),
        _ => true,
    }
}

pub open spec fn tokens_valid(s: Seq<Token>) -> bool {
    forall|k: int| 0 <= k < s.len() ==> token_valid(#[trigger] s[k])
}

/// A postfix sequence that makes exactly one complete expression: the extractor's
/// counter reaches zero on its first token and not before.
pub open spec fn is_complete(s: Seq<Token>, table: Map<Seq<char>, Object>) -> bool {
    &&& s.len() > 0
    &&& need(s, table, None, 0, s.len() as int) == 0
    &&& forall|m: int| 0 < m <= s.len() ==> need(s, table, None, m, s.len() as int) > 0
}

proof fn lemma_postfix_all_append(a: Seq<ExecTree>, b: Seq<ExecTree>)
    ensures
        postfix_all(a + b) == postfix_all(a) + postfix_all(b),
    decreases b.len(),
{
    if b.len() == 0 {
        assert(a + b =~= a);
    } else {
        lemma_postfix_all_append(a, b.drop_last());
        assert((a + b).drop_last() =~= a + b.drop_last());
        assert((a + b).last() == b.last());
    }
}

/// Two trees with the same tokens in the same shape.
pub open spec fn same_tree(t1: ExecTree, t2: ExecTree) -> bool
    decreases t1,
{
    &&& t1.token == t2.token
    &&& t1.arguments@.len() == t2.arguments@.len()
    &&& forall|i: int|
        0 <= i < t1.arguments@.len() ==> same_tree(#[trigger] t1.arguments@[i], t2.arguments@[i])
}

pub open spec fn same_trees(ts1: Seq<ExecTree>, ts2: Seq<ExecTree>) -> bool {
    ts1.len() == ts2.len() && forall|i: int| 0 <= i < ts1.len() ==> same_tree(#[trigger] ts1[i], ts2[i])
}

pub open spec fn all_wf(ts: Seq<ExecTree>, table: Map<Seq<char>, Object>) -> bool {
    forall|i: int| 0 <= i < ts.len() ==> wf_tree(#[trigger] ts[i], table)
}

/// The counter over a concatenation: in the right part as over that part alone;
/// in the left part, shifted by what the right part leaves missing.
proof fn lemma_need_concat(
    a: Seq<Token>,
    b: Seq<Token>,
    table: Map<Seq<char>, Object>,
    m: int,
)
    requires
        0 <= m <= a.len() + b.len(),
    ensures
        need(a + b, table, None, m, (a + b).len() as int) == if m >= a.len() {
            need(b, table, None, m - a.len(), b.len() as int)
        } else {
            need(a, table, None, m, a.len() as int) + need(b, table, None, 0, b.len() as int) - 1
        },
    decreases a.len() + b.len() - m,
{
    let n = (a + b).len() as int;
    if m < n {
        lemma_need_concat(a, b, table, m + 1);
        assert(need(a + b, table, None, m, n) == need(a + b, table, None, m + 1, n) + (a + b)[m].arity(
            table,
            None,
        ) - 1);
        if m < a.len() {
            assert((a + b)[m] == a[m]);
            assert(need(a, table, None, m, a.len() as int) == need(
                a,
                table,
                None,
                m + 1,
                a.len() as int,
            ) + a[m].arity(table, None) - 1);
            if m + 1 == a.len() {
                assert(need(a, table, None, m + 1, a.len() as int) == 1);
            }
        } else {
            assert((a + b)[m] == b[m - a.len()]);
            assert(need(b, table, None, m - a.len(), b.len() as int) == need(
                b,
                table,
                None,
                m - a.len() + 1,
                b.len() as int,
            ) + b[m - a.len()].arity(table, None) - 1);
        }
    } else {
        assert(need(a + b, table, None, m, n) == 1);
        assert(need(b, table, None, b.len() as int, b.len() as int) == 1);
    }
}

proof fn lemma_postfix_nonempty(t: ExecTree)
    ensures
        postfix(t).len() >= 1,
{
}

proof fn lemma_postfix_all_len(ts: Seq<ExecTree>)
    ensures
        postfix_all(ts).len() >= ts.len(),
    decreases ts.len(),
{
    if ts.len() > 0 {
        lemma_postfix_all_len(ts.drop_last());
        lemma_postfix_nonempty(ts.last());
    }
}

/// The postfix form of a well-formed tree is one complete expression.
proof fn lemma_postfix_complete(t: ExecTree, table: Map<Seq<char>, Object>)
    requires
        wf_tree(t, table),
    ensures
        need(postfix(t), table, None, 0, postfix(t).len() as int) == 0,
        forall|m: int|
            0 < m <= postfix(t).len() ==> need(postfix(t), table, None, m, postfix(t).len() as int)
                > 0,
    decreases t,
{
    let ch = t.arguments@;
    let a = ch.len() as int;
    assert(all_wf(ch, table));
    lemma_postfix_all_complete(ch, table);
    let y = postfix_all(ch);
    let r = seq![t.token];
    assert(postfix(t) == y + r);
    assert(need(r, table, None, 1, 1) == 1);
    assert(need(r, table, None, 0, 1) == a);
    assert forall|m: int| 0 <= m <= postfix(t).len() implies need(
        postfix(t),
        table,
        None,
        m,
        postfix(t).len() as int,
    ) == if m >= y.len() {
        need(r, table, None, m - y.len(), 1)
    } else {
        need(y, table, None, m, y.len() as int) + a - 1
    } by {
        lemma_need_concat(y, r, table, m);
    }
    if y.len() == 0 {
        assert(a == 0) by {
            lemma_postfix_all_len(ch);
        }
    }
}

/// The postfix forms of `k` well-formed trees, one after the other: the counter is
/// `1 - k` at the start and above it everywhere after.
proof fn lemma_postfix_all_complete(ts: Seq<ExecTree>, table: Map<Seq<char>, Object>)
    requires
        all_wf(ts, table),
    ensures
        need(postfix_all(ts), table, None, 0, postfix_all(ts).len() as int) == 1 - ts.len(),
        forall|m: int|
            0 < m <= postfix_all(ts).len() ==> need(
                postfix_all(ts),
                table,
                None,
                m,
                postfix_all(ts).len() as int,
            ) > 1 - ts.len(),
    decreases ts,
{
    if ts.len() == 0 {
        assert(postfix_all(ts) == Seq::<Token>::empty());
    } else {
        let init = ts.drop_last();
        let last = ts.last();
        assert(all_wf(init, table)) by {
            assert forall|i: int| 0 <= i < init.len() implies wf_tree(#[trigger] init[i], table) by {
                assert(init[i] == ts[i]);
            }
        }
        lemma_postfix_all_complete(init, table);
        lemma_postfix_complete(last, table);
        let x = postfix_all(init);
        let p = postfix(last);
        assert(postfix_all(ts) == x + p);
        assert forall|m: int| 0 <= m <= postfix_all(ts).len() implies need(
            postfix_all(ts),
            table,
            None,
            m,
            postfix_all(ts).len() as int,
        ) == if m >= x.len() {
            need(p, table, None, m - x.len(), p.len() as int)
        } else {
            need(x, table, None, m, x.len() as int) - 1
        } by {
            lemma_need_concat(x, p, table, m);
        }
        if x.len() == 0 {
            lemma_postfix_all_len(init);
        }
    }
}

/// Well-formed trees whose postfix forms agree have the same shape.
proof fn lemma_postfix_unique(ts1: Seq<ExecTree>, ts2: Seq<ExecTree>, table: Map<Seq<char>, Object>)
    requires
        all_wf(ts1, table),
        all_wf(ts2, table),
        postfix_all(ts1) == postfix_all(ts2),
    ensures
        same_trees(ts1, ts2),
    decreases postfix_all(ts1).len(),
{
    lemma_postfix_all_len(ts1);
    lemma_postfix_all_len(ts2);
    if ts1.len() == 0 || ts2.len() == 0 {
        if ts1.len() > 0 {
            lemma_postfix_nonempty(ts1.last());
        }
        if ts2.len() > 0 {
            lemma_postfix_nonempty(ts2.last());
        }
        return ;
    }
    let x = postfix_all(ts1);
    let (i1, l1) = (ts1.drop_last(), ts1.last());
    let (i2, l2) = (ts2.drop_last(), ts2.last());
    let (a1, p1) = (postfix_all(i1), postfix(l1));
    let (a2, p2) = (postfix_all(i2), postfix(l2));
    assert(x == a1 + p1 && x == a2 + p2);
    lemma_postfix_complete(l1, table);
    lemma_postfix_complete(l2, table);
    if p1.len() < p2.len() {
        let m = p2.len() - p1.len();
        assert(p2.subrange(m, p2.len() as int) =~= p1) by {
            assert forall|k: int| 0 <= k < p1.len() implies p2[m + k] == p1[k] by {
                assert(x[a2.len() + m + k] == p2[m + k]);
                assert(x[a1.len() + k] == p1[k]);
            }
        }
        lemma_need_slice(p2, table, None, m, m, p2.len() as int);
        assert(false);
    }
    if p2.len() < p1.len() {
        let m = p1.len() - p2.len();
        assert(p1.subrange(m, p1.len() as int) =~= p2) by {
            assert forall|k: int| 0 <= k < p2.len() implies p1[m + k] == p2[k] by {
                assert(x[a1.len() + m + k] == p1[m + k]);
                assert(x[a2.len() + k] == p2[k]);
            }
        }
        lemma_need_slice(p1, table, None, m, m, p1.len() as int);
        assert(false);
    }
    assert(a1 =~= x.subrange(0, a1.len() as int));
    assert(a2 =~= x.subrange(0, a2.len() as int));
    assert(p1 =~= x.subrange(a1.len() as int, x.len() as int));
    assert(p2 =~= x.subrange(a2.len() as int, x.len() as int));
    assert(wf_tree(l1, table) && wf_tree(l2, table));
    assert(all_wf(i1, table)) by {
        assert forall|i: int| 0 <= i < i1.len() implies wf_tree(#[trigger] i1[i], table) by {
            assert(i1[i] == ts1[i]);
        }
    }
    assert(all_wf(i2, table)) by {
        assert forall|i: int| 0 <= i < i2.len() implies wf_tree(#[trigger] i2[i], table) by {
            assert(i2[i] == ts2[i]);
        }
    }
    lemma_postfix_unique(i1, i2, table);
    let c1 = l1.arguments@;
    let c2 = l2.arguments@;
    assert(p1.last() == l1.token && p2.last() == l2.token);
    assert(postfix_all(c1) =~= p1.drop_last());
    assert(postfix_all(c2) =~= p2.drop_last());
    assert(all_wf(c1, table) && all_wf(c2, table));
    lemma_postfix_unique(c1, c2, table);
    assert(same_tree(l1, l2));
    assert forall|i: int| 0 <= i < ts1.len() implies same_tree(#[trigger] ts1[i], ts2[i]) by {
        if i < i1.len() {
            assert(ts1[i] == i1[i] && ts2[i] == i2[i]);
        }
    }
}

/// Trees of the same shape have the same value.
proof fn lemma_eval_same(
    fuel: nat,
    t1: ExecTree,
    t2: ExecTree,
    table: Map<Seq<char>, Object>,
    args: Seq<Q>,
)
    requires
        same_tree(t1, t2),
    ensures
        eval(fuel, t1, table, args) == eval(fuel, t2, table, args),
    decreases fuel, 0nat,
{
    if fuel > 0 {
        let f = (fuel - 1) as nat;
        let c1 = t1.arguments@;
        let c2 = t2.arguments@;
        assert(same_trees(c1, c2));
        lemma_eval_all_same(f, c1, c2, table, args);
        if c1.len() == 3 {
            lemma_eval_same(f, c1[0], c2[0], table, args);
            lemma_eval_same(f, c1[1], c2[1], table, args);
            lemma_eval_same(f, c1[2], c2[2], table, args);
        }
    }
}

proof fn lemma_eval_all_same(
    fuel: nat,
    ts1: Seq<ExecTree>,
    ts2: Seq<ExecTree>,
    table: Map<Seq<char>, Object>,
    args: Seq<Q>,
)
    requires
        same_trees(ts1, ts2),
    ensures
        eval_all(fuel, ts1, table, args) == eval_all(fuel, ts2, table, args),
    decreases fuel, ts1.len() + 1,
{
    if ts1.len() > 0 {
        let i1 = ts1.drop_last();
        let i2 = ts2.drop_last();
        assert(same_trees(i1, i2)) by {
            assert forall|i: int| 0 <= i < i1.len() implies same_tree(#[trigger] i1[i], i2[i]) by {
                assert(i1[i] == ts1[i] && i2[i] == ts2[i]);
            }
        }
        lemma_eval_all_same(fuel, i1, i2, table, args);
        lemma_eval_same(fuel, ts1.last(), ts2.last(), table, args);
    }
}

/// A complete postfix expression has one value: any two well-formed trees of it
/// evaluate alike.
pub proof fn lemma_postfix_determines_value(
    t1: ExecTree,
    t2: ExecTree,
    build_table: Map<Seq<char>, Object>,
    fuel: nat,
    table: Map<Seq<char>, Object>,
    args: Seq<Q>,
)
    requires
        wf_tree(t1, build_table),
        wf_tree(t2, build_table),
        postfix(t1) == postfix(t2),
    ensures
        eval(fuel, t1, table, args) == eval(fuel, t2, table, args),
{
    let s1 = seq![t1];
    let s2 = seq![t2];
    assert(s1.drop_last() =~= Seq::<ExecTree>::empty());
    assert(s2.drop_last() =~= Seq::<ExecTree>::empty());
    assert(postfix_all(Seq::<ExecTree>::empty()) == Seq::<Token>::empty());
    assert(postfix_all(s1) =~= postfix(t1));
    assert(postfix_all(s2) =~= postfix(t2));
    assert(all_wf(s1, build_table) && all_wf(s2, build_table));
    lemma_postfix_unique(s1, s2, build_table);
    assert(same_tree(s1[0], s2[0]));
    lemma_eval_same(fuel, t1, t2, table, args);
}

/// Builds the reduction tree of a complete postfix expression, each token taking as
/// many of the trees built before it as its arity under the table.
pub fn parse_tree(stack: Vec<Token>, table: &StringHashMap<Object>) -> (r: ExecTree)
    requires
        all_operands(stack@),
        tokens_valid(stack@),
        is_complete(stack@, table@),
    ensures
        postfix(r) == stack@,
        wf_tree(r, table@),
        tree_valid(r),
{
    let ghost s = stack@;
    let ghost n = s.len() as int;
    let mut arguments: Vec<ExecTree> = Vec::new();
    for token in it: stack
        invariant
            s == it.seq(),
            all_operands(s),
            tokens_valid(s),
            is_complete(s, table@),
            forall|i: int| 0 <= i < arguments@.len() ==> tree_valid(#[trigger] arguments@[i]),
            n == s.len(),
            postfix_all(arguments@) == s.subrange(0, it.index() as int),
            arguments@.len() == need(s, table@, None, it.index() as int, n),
            forall|i: int| 0 <= i < arguments@.len() ==> wf_tree(#[trigger] arguments@[i], table@),
    {
        let ghost k = it.index() as int;
        assert(s[k] == token);
        let a = operand_arity(&token, table, None);
        assert(need(s, table@, None, k + 1, n) > 0);
        let len = arguments.len();
        let ghost before = arguments@;
        let operands = arguments.split_off(len - a);
        proof {
            assert(before =~= arguments@ + operands@);
            lemma_postfix_all_append(arguments@, operands@);
        }
        let node = ExecTree { token, arguments: operands };
        assert(postfix(node) == postfix_all(operands@).push(s[k]));
        assert(wf_tree(node, table@));
        assert(token_valid(s[k]));
        assert(tree_valid(node));
        arguments.push(node);
        proof {
            assert(arguments@.drop_last() =~= before.subrange(0, len - a));
            assert(s.subrange(0, k + 1) =~= s.subrange(0, k).push(s[k]));
        }
    }
    assert(arguments@.len() == 1);
    let ghost last = arguments@;
    proof {
        assert(last.drop_last() =~= Seq::<ExecTree>::empty());
        assert(postfix_all(Seq::<ExecTree>::empty()) == Seq::<Token>::empty());
        assert(postfix_all(last) =~= postfix(last[0]));
        assert(s.subrange(0, n) =~= s);
    }
    let r = arguments.pop().unwrap();
    r
}

/// Why an evaluation produced no value.
pub enum EvalError {
    /// A name that the table does not hold.
    UndefinedName(String),
    /// A call with another number of operands than the callee's arity.
    ArityMismatch,
    /// An argument index beyond the arguments of the enclosing call.
    InvalidArgument,
    /// A division, integer division or modulus by zero.
    DivisionByZero,
    /// A node with another number of operands than its operator takes.
    MalformedTree,
    /// The evaluation took more steps than it was allowed.
    OutOfFuel,
}

/// The step budget of an evaluation; tail calls and loop rounds each take a step.
pub const FUEL: u64 = 0xffff_ffff_ffff_ffff;

pub open spec fn parts_of(s: Seq<BigRational>) -> Seq<Q> {
    s.map_values(|r: BigRational| ratio_parts(r))
}

pub open spec fn values_valid(s: Seq<Q>) -> bool {
    forall|i: int| 0 <= i < s.len() ==> valid_q(#[trigger] s[i])
}

/// Every number in the tree has a positive denominator.
pub open spec fn tree_valid(t: ExecTree) -> bool
    decreases t,
{
    &&& (match t.token {
        Token::Number(r) => valid_q(ratio_parts(r)),
        _ => true,
    })
    &&& forall|i: int| 0 <= i < t.arguments@.len() ==> tree_valid(#[trigger] t.arguments@[i])
}

pub open spec fn trees_valid(ts: Seq<ExecTree>) -> bool {
    forall|i: int| 0 <= i < ts.len() ==> tree_valid(#[trigger] ts[i])
}

pub open spec fn object_valid(o: Object) -> bool {
    match o {
        Object::Variable(v) => valid_q(ratio_parts(v)),
        Object::Function(_, body) => tree_valid(body),
        Object::Iterative(_, updates, last, cond) => trees_valid(updates@) && tree_valid(last)
            && tree_valid(cond),
    }
}

pub open spec fn table_valid(table: Map<Seq<char>, Object>) -> bool {
    forall|k: Seq<char>| table.contains_key(k) ==> object_valid(#[trigger] table[k])
}

pub open spec fn outcome(r: Result<BigRational, EvalError>) -> Result<Q, EvalError> {
    match r {
        Ok(x) => Ok(ratio_parts(x)),
        Err(e) => Err(e),
    }
}

pub open spec fn outcome_all(r: Result<Vec<BigRational>, EvalError>) -> Result<Seq<Q>, EvalError> {
    match r {
        Ok(v) => Ok(parts_of(v@)),
        Err(e) => Err(e),
    }
}

/// A binary operator applied to two values.
pub open spec fn binary_spec(op: Token, a: Q, b: Q) -> Result<Q, EvalError> {
    match op {
        Token::Plus => Ok(add_q(a, b)),
        Token::Minus => Ok(sub_q(a, b)),
        Token::Times => Ok(mul_q(a, b)),
        Token::Divide => if b.0 == 0 {
            Err(EvalError::DivisionByZero)
        } else {
            Ok(div_q(a, b))
        },
        Token::PositiveMinus => if sub_q(a, b).0 > 0 {
            Ok(sub_q(a, b))
        } else {
            Ok((0, 1))
        },
        Token::IntegerDiv => if b.0 == 0 {
            Err(EvalError::DivisionByZero)
        } else {
            Ok((floor_q(div_q(a, b)), 1))
        },
        Token::Exp => Ok(pow_q(a, floor_abs_q(b))),
        _ => Err(EvalError::MalformedTree),
    }
}

/// `a^b mod c` on the floor of `a` and the floors of `|b|` and `|c|`.
pub open spec fn expmod_spec(a: Q, b: Q, c: Q) -> Result<Q, EvalError> {
    let m = floor_abs_q(c);
    if m == 0 {
        Err(EvalError::DivisionByZero)
    } else {
        Ok((pow(floor_q(a), floor_abs_q(b)) % (m as int), 1))
    }
}

/// The value of a tree under the table, with the arguments of the enclosing call,
/// within `fuel` steps. Tail positions (the taken arm of an `If`, the body of a
/// function, the finalizer of an iterative) go on with one step less; operands are
/// evaluated left to right, and the first failure is the result.
pub open spec fn eval(fuel: nat, t: ExecTree, table: Map<Seq<char>, Object>, args: Seq<Q>) -> Result<
    Q,
    EvalError,
>
    decreases fuel, 0nat,
{
    if fuel == 0 {
        Err(EvalError::OutOfFuel)
    } else {
        let f = (fuel - 1) as nat;
        let ch = t.arguments@;
        match t.token {
            Token::Number(r) => Ok(ratio_parts(r)),
            Token::Argument(i) => if i < args.len() {
                Ok(args[i as int])
            } else {
                Err(EvalError::InvalidArgument)
            },
            Token::Identifier(name) => if !table.contains_key(name@) {
                Err(EvalError::UndefinedName(name))
            } else {
                match table[name@] {
                    Object::Variable(v) => Ok(ratio_parts(v)),
                    Object::Function(arity, body) => if ch.len() != arity {
                        Err(EvalError::ArityMismatch)
                    } else {
                        match eval_all(f, ch, table, args) {
                            Ok(vals) => eval(f, body, table, vals),
                            Err(e) => Err(e),
                        }
                    },
                    Object::Iterative(arity, updates, last, cond) => if ch.len() != arity {
                        Err(EvalError::ArityMismatch)
                    } else {
                        match eval_all(f, ch, table, args) {
                            Ok(vals) => iterate(f, updates@, last, cond, table, vals),
                            Err(e) => Err(e),
                        }
                    },
                }
            },
            Token::If => if ch.len() != 3 {
                Err(EvalError::MalformedTree)
            } else {
                match eval(f, ch[2], table, args) {
                    Ok(c) => if c.0 == 0 {
                        eval(f, ch[1], table, args)
                    } else {
                        eval(f, ch[0], table, args)
                    },
                    Err(e) => Err(e),
                }
            },
            Token::ExpMod => if ch.len() != 3 {
                Err(EvalError::MalformedTree)
            } else {
                match eval_all(f, ch, table, args) {
                    Ok(v) => expmod_spec(v[0], v[1], v[2]),
                    Err(e) => Err(e),
                }
            },
            _ => if ch.len() != 2 {
                Err(EvalError::MalformedTree)
            } else {
                match eval_all(f, ch, table, args) {
                    Ok(v) => binary_spec(t.token, v[0], v[1]),
                    Err(e) => Err(e),
                }
            },
        }
    }
}

/// The values of a sequence of trees, left to right; the first failure is the result.
pub open spec fn eval_all(
    fuel: nat,
    ts: Seq<ExecTree>,
    table: Map<Seq<char>, Object>,
    args: Seq<Q>,
) -> Result<Seq<Q>, EvalError>
    decreases fuel, ts.len() + 1,
{
    if ts.len() == 0 {
        Ok(Seq::empty())
    } else {
        match eval_all(fuel, ts.drop_last(), table, args) {
            Ok(vs) => match eval(fuel, ts.last(), table, args) {
                Ok(v) => Ok(vs.push(v)),
                Err(e) => Err(e),
            },
            Err(e) => Err(e),
        }
    }
}

/// An iterative's loop: while the condition is non-zero the updates replace the
/// arguments; then the finalizer gives the value.
pub open spec fn iterate(
    fuel: nat,
    updates: Seq<ExecTree>,
    last: ExecTree,
    cond: ExecTree,
    table: Map<Seq<char>, Object>,
    args: Seq<Q>,
) -> Result<Q, EvalError>
    decreases fuel, 0nat,
{
    if fuel == 0 {
        Err(EvalError::OutOfFuel)
    } else {
        let f = (fuel - 1) as nat;
        match eval(f, cond, table, args) {
            Err(e) => Err(e),
            Ok(c) => if c.0 == 0 {
                eval(f, last, table, args)
            } else {
                match eval_all(f, updates, table, args) {
                    Ok(next) => iterate(f, updates, last, cond, table, next),
                    Err(e) => Err(e),
                }
            },
        }
    }
}

proof fn lemma_parts_of_push(s: Seq<BigRational>, x: BigRational)
    ensures
        parts_of(s.push(x)) == parts_of(s).push(ratio_parts(x)),
{
    assert(parts_of(s.push(x)) =~= parts_of(s).push(ratio_parts(x)));
}

proof fn lemma_eval_all_err_extends(
    fuel: nat,
    ts: Seq<ExecTree>,
    j: int,
    table: Map<Seq<char>, Object>,
    args: Seq<Q>,
)
    requires
        0 <= j <= ts.len(),
        eval_all(fuel, ts.subrange(0, j), table, args) is Err,
    ensures
        eval_all(fuel, ts, table, args) == eval_all(fuel, ts.subrange(0, j), table, args),
    decreases ts.len() - j,
{
    if j == ts.len() {
        assert(ts.subrange(0, j) =~= ts);
    } else {
        let longer = ts.subrange(0, j + 1);
        assert(longer.drop_last() =~= ts.subrange(0, j));
        lemma_eval_all_err_extends(fuel, ts, j + 1, table, args);
    }
}

/// Applies a binary operator to two values.
fn apply_binary(op: &Token, a: &BigRational, b: &BigRational) -> (r: Result<BigRational, EvalError>)
    requires
        valid_q(ratio_parts(*a)),
        valid_q(ratio_parts(*b)),
    ensures
        outcome(r) == binary_spec(*op, ratio_parts(*a), ratio_parts(*b)),
        r is Ok ==> valid_q(ratio_parts(r->Ok_0)),
{
    match op {
        Token::Plus => Ok(ratio_add(a, b)),
        Token::Minus => Ok(ratio_sub(a, b)),
        Token::Times => Ok(ratio_mul(a, b)),
        Token::Divide => {
            if ratio_is_zero(b) {
                Err(EvalError::DivisionByZero)
            } else {
                Ok(ratio_div(a, b))
            }
        },
        Token::PositiveMinus => {
            let c = ratio_sub(a, b);
            if ratio_is_positive(&c) {
                Ok(c)
            } else {
                Ok(ratio_zero())
            }
        },
        Token::IntegerDiv => {
            if ratio_is_zero(b) {
                Err(EvalError::DivisionByZero)
            } else {
                let q = ratio_div(a, b);
                Ok(ratio_from_integer(ratio_floor(&q)))
            }
        },
        Token::Exp => {
            let k = floor_abs(b);
            let r = ratio_pow(a, &k);
            proof {
                lemma_pow_positive(ratio_parts(*a).1, floor_abs_q(ratio_parts(*b)));
            }
            Ok(r)
        },
        _ => Err(EvalError::MalformedTree),
    }
}

/// `a^b mod c` on the floors, with `b` and `c` taken as absolute values.
fn apply_expmod(a: &BigRational, b: &BigRational, c: &BigRational) -> (r: Result<
    BigRational,
    EvalError,
>)
    requires
        valid_q(ratio_parts(*a)),
        valid_q(ratio_parts(*b)),
        valid_q(ratio_parts(*c)),
    ensures
        outcome(r) == expmod_spec(ratio_parts(*a), ratio_parts(*b), ratio_parts(*c)),
        r is Ok ==> valid_q(ratio_parts(r->Ok_0)),
{
    let x = ratio_floor(a);
    let e = floor_abs(b);
    let m = floor_abs(c);
    if big_is_zero(&m) {
        Err(EvalError::DivisionByZero)
    } else {
        Ok(ratio_from_integer(big_modpow(&x, &e, &m)))
    }
}

/// Copies of the values.
fn clone_values(v: &Vec<BigRational>) -> (r: Vec<BigRational>)
    ensures
        parts_of(r@) == parts_of(v@),
{
    let mut out: Vec<BigRational> = Vec::new();
    let mut i: usize = 0;
    while i < v.len()
        invariant
            i <= v.len(),
            parts_of(out@) =~= parts_of(v@.subrange(0, i as int)),
        decreases v.len() - i,
    {
        let c = ratio_clone(&v[i]);
        proof {
            lemma_parts_of_push(out@, c);
            lemma_parts_of_push(v@.subrange(0, i as int), v@[i as int]);
            assert(v@.subrange(0, i as int + 1) =~= v@.subrange(0, i as int).push(v@[i as int]));
        }
        out.push(c);
        i = i + 1;
    }
    assert(v@.subrange(0, i as int) =~= v@);
    out
}

/// Evaluates trees left to right, stopping at the first failure.
fn reduce_all(
    ts: &Vec<ExecTree>,
    table: &StringHashMap<Object>,
    args: &Vec<BigRational>,
    fuel: u64,
) -> (r: Result<Vec<BigRational>, EvalError>)
    requires
        trees_valid(ts@),
        table_valid(table@),
        values_valid(parts_of(args@)),
    ensures
        outcome_all(r) == eval_all(fuel as nat, ts@, table@, parts_of(args@)),
        r is Ok ==> r->Ok_0@.len() == ts@.len() && values_valid(parts_of(r->Ok_0@)),
    decreases fuel, 1nat,
{
    let ghost pa = parts_of(args@);
    let mut out: Vec<BigRational> = Vec::new();
    let mut i: usize = 0;
    assert(ts@.subrange(0, 0) =~= Seq::<ExecTree>::empty());
    assert(parts_of(out@) =~= Seq::<Q>::empty());
    while i < ts.len()
        invariant
            i <= ts.len(),
            pa == parts_of(args@),
            trees_valid(ts@),
            table_valid(table@),
            values_valid(pa),
            out@.len() == i,
            values_valid(parts_of(out@)),
            eval_all(fuel as nat, ts@.subrange(0, i as int), table@, pa) == Ok::<Seq<Q>, EvalError>(
                parts_of(out@),
            ),
        decreases ts.len() - i,
    {
        let ghost prefix = ts@.subrange(0, i as int + 1);
        assert(prefix.drop_last() =~= ts@.subrange(0, i as int));
        assert(prefix.last() == ts@[i as int]);
        match reduce_with(&ts[i], table, args, fuel) {
            Ok(v) => {
                proof {
                    lemma_parts_of_push(out@, v);
                }
                out.push(v);
            },
            Err(e) => {
                proof {
                    lemma_eval_all_err_extends(fuel as nat, ts@, i as int + 1, table@, pa);
                }
                return Err(e);
            },
        }
        i = i + 1;
    }
    assert(ts@.subrange(0, i as int) =~= ts@);
    Ok(out)
}

/// Runs an iterative's loop from the given arguments. On success it returns the
/// arguments at which the condition was zero, with the steps left for the finalizer.
fn run_iterative(
    updates: &Vec<ExecTree>,
    last: &ExecTree,
    cond: &ExecTree,
    table: &StringHashMap<Object>,
    start: Vec<BigRational>,
    fuel: u64,
) -> (r: Result<(Vec<BigRational>, u64), EvalError>)
    requires
        trees_valid(updates@),
        tree_valid(*cond),
        table_valid(table@),
        values_valid(parts_of(start@)),
    ensures
        match r {
            Ok((a, h)) => h < fuel && values_valid(parts_of(a@)) && eval(
                h as nat,
                *last,
                table@,
                parts_of(a@),
            ) == iterate(fuel as nat, updates@, *last, *cond, table@, parts_of(start@)),
            Err(e) => iterate(fuel as nat, updates@, *last, *cond, table@, parts_of(start@))
                == Err::<Q, EvalError>(e),
        },
    decreases fuel, 0nat,
{
    let ghost target = iterate(fuel as nat, updates@, *last, *cond, table@, parts_of(start@));
    let ghost ps = parts_of(start@);
    let mut a = start;
    let mut g: u64 = fuel;
    loop
        invariant
            g <= fuel,
            ps == parts_of(start@),
            target == iterate(fuel as nat, updates@, *last, *cond, table@, ps),
            trees_valid(updates@),
            tree_valid(*cond),
            table_valid(table@),
            values_valid(parts_of(a@)),
            iterate(g as nat, updates@, *last, *cond, table@, parts_of(a@)) == target,
        decreases g,
    {
        if g == 0 {
            return Err(EvalError::OutOfFuel);
        }
        match reduce_with(cond, table, &a, g - 1) {
            Err(e) => {
                return Err(e);
            },
            Ok(c) => {
                if ratio_is_zero(&c) {
                    return Ok((a, g - 1));
                }
                match reduce_all(updates, table, &a, g - 1) {
                    Err(e) => {
                        return Err(e);
                    },
                    Ok(next) => {
                        a = next;
                        g = g - 1;
                    },
                }
            },
        }
    }
}

/// The evaluator: a loop over the current node and arguments, where tail positions
/// replace the node (and, for calls, the arguments) instead of recurring.
fn reduce_with(
    tree: &ExecTree,
    table: &StringHashMap<Object>,
    args: &Vec<BigRational>,
    fuel: u64,
) -> (r: Result<BigRational, EvalError>)
    requires
        tree_valid(*tree),
        table_valid(table@),
        values_valid(parts_of(args@)),
    ensures
        outcome(r) == eval(fuel as nat, *tree, table@, parts_of(args@)),
        r is Ok ==> valid_q(ratio_parts(r->Ok_0)),
    decreases fuel, 0nat,
{
    let ghost target = eval(fuel as nat, *tree, table@, parts_of(args@));
    let mut node: &ExecTree = tree;
    let mut cur: Vec<BigRational> = clone_values(args);
    let mut left: u64 = fuel;
    loop
        invariant
            left <= fuel,
            target == eval(fuel as nat, *tree, table@, parts_of(args@)),
            tree_valid(*node),
            table_valid(table@),
            values_valid(parts_of(cur@)),
            eval(left as nat, *node, table@, parts_of(cur@)) == target,
        decreases left,
    {
        if left == 0 {
            return Err(EvalError::OutOfFuel);
        }
        let f = left - 1;
        let ghost ch = node.arguments@;
        match &node.token {
            Token::Number(r) => {
                return Ok(ratio_clone(r));
            },
            Token::Argument(i) => {
                if *i < cur.len() {
                    assert(parts_of(cur@)[*i as int] == ratio_parts(cur@[*i as int]));
                    return Ok(ratio_clone(&cur[*i]));
                } else {
                    return Err(EvalError::InvalidArgument);
                }
            },
            Token::Identifier(name) => {
                match table.get(name.as_str()) {
                    None => {
                        return Err(EvalError::UndefinedName(name.clone()));
                    },
                    Some(Object::Variable(v)) => {
                        return Ok(ratio_clone(v));
                    },
                    Some(Object::Function(arity, body)) => {
                        if node.arguments.len() != *arity {
                            return Err(EvalError::ArityMismatch);
                        }
                        assert(trees_valid(ch));
                        match reduce_all(&node.arguments, table, &cur, f) {
                            Err(e) => {
                                return Err(e);
                            },
                            Ok(vals) => {
                                node = body;
                                cur = vals;
                                left = f;
                            },
                        }
                    },
                    Some(Object::Iterative(arity, updates, last, cond)) => {
                        if node.arguments.len() != *arity {
                            return Err(EvalError::ArityMismatch);
                        }
                        assert(trees_valid(ch));
                        match reduce_all(&node.arguments, table, &cur, f) {
                            Err(e) => {
                                return Err(e);
                            },
                            Ok(vals) => {
                                match run_iterative(updates, last, cond, table, vals, f) {
                                    Err(e) => {
                                        return Err(e);
                                    },
                                    Ok((a, h)) => {
                                        node = last;
                                        cur = a;
                                        left = h;
                                    },
                                }
                            },
                        }
                    },
                }
            },
            Token::If => {
                if node.arguments.len() != 3 {
                    return Err(EvalError::MalformedTree);
                }
                assert(tree_valid(ch[2]));
                match reduce_with(&node.arguments[2], table, &cur, f) {
                    Err(e) => {
                        return Err(e);
                    },
                    Ok(c) => {
                        if ratio_is_zero(&c) {
                            assert(tree_valid(ch[1]));
                            node = &node.arguments[1];
                        } else {
                            assert(tree_valid(ch[0]));
                            node = &node.arguments[0];
                        }
                        left = f;
                    },
                }
            },
            Token::ExpMod => {
                if node.arguments.len() != 3 {
                    return Err(EvalError::MalformedTree);
                }
                assert(trees_valid(ch));
                match reduce_all(&node.arguments, table, &cur, f) {
                    Err(e) => {
                        return Err(e);
                    },
                    Ok(v) => {
                        assert(valid_q(parts_of(v@)[0]) && valid_q(parts_of(v@)[1]) && valid_q(
                            parts_of(v@)[2],
                        ));
                        return apply_expmod(&v[0], &v[1], &v[2]);
                    },
                }
            },
            _ => {
                if node.arguments.len() != 2 {
                    return Err(EvalError::MalformedTree);
                }
                assert(trees_valid(ch));
                match reduce_all(&node.arguments, table, &cur, f) {
                    Err(e) => {
                        return Err(e);
                    },
                    Ok(v) => {
                        assert(valid_q(parts_of(v@)[0]) && valid_q(parts_of(v@)[1]));
                        return apply_binary(&node.token, &v[0], &v[1]);
                    },
                }
            },
        }
    }
}

impl ExecTree {
    /// The value of the tree under the table, with the arguments of the enclosing
    /// function (none at the top level). Evaluation is deterministic: the result is
    /// a function of the tree, the table and the arguments.
    pub fn reduce(&self, table: &StringHashMap<Object>, args: &Vec<BigRational>) -> (r: Result<
        BigRational,
        EvalError,
    >)
        requires
            tree_valid(*self),
            table_valid(table@),
            values_valid(parts_of(args@)),
        ensures
            outcome(r) == eval(FUEL as nat, *self, table@, parts_of(args@)),
            r is Ok ==> valid_q(ratio_parts(r->Ok_0)),
    {
        reduce_with(self, table, args, FUEL)
    }
}

/// Evaluation is a pure function of the tree, the table and the arguments: any two
/// results that `reduce` may give for the same tree, table and arguments agree.
pub proof fn lemma_reduce_is_pure(
    t: ExecTree,
    table: Map<Seq<char>, Object>,
    args: Seq<Q>,
    r1: Result<BigRational, EvalError>,
    r2: Result<BigRational, EvalError>,
)
    requires
        outcome(r1) == eval(FUEL as nat, t, table, args),
        outcome(r2) == eval(FUEL as nat, t, table, args),
    ensures
        outcome(r1) == outcome(r2),
{
}

/// An `If` evaluates its condition and then only the arm that the condition
/// selects: a zero condition gives the else arm's value, another value the then
/// arm's, and a failed condition the same failure, whatever the other arm holds.
pub proof fn lemma_if_evaluates_one_arm(
    fuel: nat,
    t: ExecTree,
    table: Map<Seq<char>, Object>,
    args: Seq<Q>,
)
    requires
        fuel > 0,
        t.token is If,
        t.arguments@.len() == 3,
    ensures
        eval(fuel, t, table, args) == match eval((fuel - 1) as nat, t.arguments@[2], table, args) {
            Ok(c) => if c.0 == 0 {
                eval((fuel - 1) as nat, t.arguments@[1], table, args)
            } else {
                eval((fuel - 1) as nat, t.arguments@[0], table, args)
            },
            Err(e) => Err(e),
        },
{
}

/// Addition, subtraction, multiplication and the positive difference are exact:
/// once both operands have values, the node's value is the exact result in lowest
/// terms (for `~`, that of `max(0, a - b)`).
pub proof fn lemma_binary_node_exact(
    fuel: nat,
    t: ExecTree,
    table: Map<Seq<char>, Object>,
    args: Seq<Q>,
    a: Q,
    b: Q,
)
    requires
        fuel > 0,
        t.token is Plus || t.token is Minus || t.token is Times || t.token is PositiveMinus,
        t.arguments@.len() == 2,
        eval_all((fuel - 1) as nat, t.arguments@, table, args) == Ok::<Seq<Q>, EvalError>(seq![a, b]),
        valid_q(a),
        valid_q(b),
    ensures
        eval(fuel, t, table, args) is Ok,
        valid_q(eval(fuel, t, table, args)->Ok_0),
        t.token is Plus ==> same_value(
            eval(fuel, t, table, args)->Ok_0,
            (a.0 * b.1 + b.0 * a.1, a.1 * b.1),
        ),
        t.token is Minus ==> same_value(
            eval(fuel, t, table, args)->Ok_0,
            (a.0 * b.1 - b.0 * a.1, a.1 * b.1),
        ),
        t.token is Times ==> same_value(eval(fuel, t, table, args)->Ok_0, (a.0 * b.0, a.1 * b.1)),
        t.token is PositiveMinus ==> if a.0 * b.1 - b.0 * a.1 > 0 {
            same_value(eval(fuel, t, table, args)->Ok_0, (a.0 * b.1 - b.0 * a.1, a.1 * b.1))
        } else {
            eval(fuel, t, table, args)->Ok_0 == (0int, 1int)
        },
{
    lemma_exact_arithmetic(a, b);
    let v = seq![a, b];
    assert(v[0] == a && v[1] == b);
    if t.token is PositiveMinus {
        let c = sub_q(a, b);
        let x = a.0 * b.1 - b.0 * a.1;
        let y = a.1 * b.1;
        assert(y > 0) by (nonlinear_arith)
            requires
                a.1 > 0,
                b.1 > 0,
                y == a.1 * b.1,
        ;
        assert(c.0 > 0 <==> x > 0) by (nonlinear_arith)
            requires
                c.0 * y == x * c.1,
                c.1 > 0,
                y > 0,
        ;
    }
}


} // verus!
