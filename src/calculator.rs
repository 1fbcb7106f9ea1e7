//! The command dispatcher: the working stack, the symbol table, and what each token
//! does to them.
use crate::execution::{
    eval, is_complete, lemma_postfix_determines_value, object_valid, parse_tree, postfix, table_valid, token_valid, tokens_valid,
    tree_valid, wf_tree, EvalError, ExecTree, Object, FUEL,
};
use crate::lexer::{lex, lexemes, tokens_match};
use crate::number::{
    abs, be_value, big_from_usize, big_to_decimal, decimal_text, ratio_clone, ratio_denom,
    ratio_is_integer, ratio_numer, ratio_parts, ratio_zero, valid_q, Q,
};
use crate::strings::Stringer;
use crate::token::Token;
use crate::utils::{
    all_operands, clip_head, extract, find_expression, has_argument,
    lemma_extract_is_first_complete, lemma_need_same_arities, lemma_need_slice, need, scan,
    ExtractError, Found,
};
use num_rational::BigRational;
use vstd::hash_map::StringHashMap;
use vstd::prelude::*;
use vstd::string::StringExecFns;

verus! {

/// What the calculator has to say.
pub enum Output {
    /// A line for standard output.
    Line(String),
    /// A diagnostic line for standard error.
    Diagnostic(String),
    /// Raw bytes for standard output, then a line break.
    Bytes(Vec<u8>),
    /// A value for standard output as a floating-point approximation, after `> `.
    Approx(BigRational),
}

/// Why an action that evaluates the top of the stack produced no value.
pub enum Failure {
    Extract(ExtractError),
    Eval(EvalError),
}

/// The state of one calculator: the working stack and the symbol table.
pub struct Calculator {
    stack: Vec<Token>,
    table: StringHashMap<Object>,
}

/// `t` is the reduction tree of the postfix tokens `s` under the table.
pub open spec fn tree_of(t: ExecTree, s: Seq<Token>, table: Map<Seq<char>, Object>) -> bool {
    postfix(t) == s && wf_tree(t, table)
}

/// Taking the complete expression off the top of `s` leaves `rest`, and evaluating
/// it gives `res`.
#[verifier::opaque]
pub open spec fn computes(
    s: Seq<Token>,
    table: Map<Seq<char>, Object>,
    rest: Seq<Token>,
    res: Result<Q, Failure>,
) -> bool {
    match extract(s, table, None, s.len() as int) {
        Some(j) => if has_argument(s, j, s.len() as int) {
            rest == s && res == Err::<Q, Failure>(
                Failure::Extract(ExtractError::ArgumentOutsideFunction),
            )
        } else {
            rest == s.subrange(0, j) && exists|t: ExecTree|
                #[trigger] tree_of(t, s.subrange(j, s.len() as int), table) && res == match eval(
                    FUEL as nat,
                    t,
                    table,
                    seq![],
                ) {
                    Ok(v) => Ok::<Q, Failure>(v),
                    Err(e) => Err(Failure::Eval(e)),
                }
        },
        None => rest == s && res == Err::<Q, Failure>(
            Failure::Extract(
                if has_argument(s, 0, s.len() as int) {
                    ExtractError::ArgumentOutsideFunction
                } else {
                    ExtractError::Incomplete
                },
            ),
        ),
    }
}

/// Taking the complete expression off the top of the stack and evaluating it has
/// one outcome: the stack left and the result are determined by the stack and the
/// table.
pub proof fn lemma_computes_is_deterministic(
    s: Seq<Token>,
    table: Map<Seq<char>, Object>,
    rest1: Seq<Token>,
    res1: Result<Q, Failure>,
    rest2: Seq<Token>,
    res2: Result<Q, Failure>,
)
    requires
        computes(s, table, rest1, res1),
        computes(s, table, rest2, res2),
    ensures
        rest1 == rest2,
        res1 == res2,
{
    reveal(computes);
    match extract(s, table, None, s.len() as int) {
        Some(j) => {
            if !has_argument(s, j, s.len() as int) {
                let sl = s.subrange(j, s.len() as int);
                let t1 = choose|t: ExecTree|
                    #[trigger] tree_of(t, sl, table) && res1 == match eval(
                        FUEL as nat,
                        t,
                        table,
                        seq![],
                    ) {
                        Ok(v) => Ok::<Q, Failure>(v),
                        Err(e) => Err(Failure::Eval(e)),
                    };
                let t2 = choose|t: ExecTree|
                    #[trigger] tree_of(t, sl, table) && res2 == match eval(
                        FUEL as nat,
                        t,
                        table,
                        seq![],
                    ) {
                        Ok(v) => Ok::<Q, Failure>(v),
                        Err(e) => Err(Failure::Eval(e)),
                    };
                lemma_postfix_determines_value(t1, t2, table, FUEL as nat, table, seq![]);
            }
        },
        None => {},
    }
}

pub open spec fn result_view(r: Result<BigRational, Failure>) -> Result<Q, Failure> {
    match r {
        Ok(x) => Ok(ratio_parts(x)),
        Err(f) => Err(f),
    }
}

/// Text of a value after a prefix: `n`, or `n/d` when the denominator is not one.
pub open spec fn value_text(prefix: Seq<char>, v: Q) -> Seq<char> {
    if v.1 == 1 {
        prefix + decimal_text(v.0)
    } else {
        prefix + decimal_text(v.0) + seq!['/'] + decimal_text(v.1)
    }
}

pub open spec fn is_extract_failure(r: Result<Q, Failure>) -> bool {
    r is Err && r->Err_0 is Extract
}

pub open spec fn results_view(rs: Seq<Result<BigRational, Failure>>) -> Seq<Result<Q, Failure>> {
    rs.map_values(|r: Result<BigRational, Failure>| result_view(r))
}

/// The stacks `stacks` are those that flushing goes through from `stacks[0]`: each
/// is not empty, and taking one expression off it gives the next and the result
/// of the same index.
pub open spec fn flush_trace(
    table: Map<Seq<char>, Object>,
    stacks: Seq<Seq<Token>>,
    rs: Seq<Result<Q, Failure>>,
) -> bool {
    &&& stacks.len() == rs.len() + 1
    &&& forall|i: int|
        0 <= i < rs.len() ==> (#[trigger] stacks[i]).len() > 0 && computes(
            stacks[i],
            table,
            stacks[i + 1],
            rs[i],
        )
}

/// Flushing `s0` gives the results `rs` and leaves `fin`: it goes on while the stack
/// is not empty and stops after the first expression that cannot be extracted.
pub open spec fn flushes(
    s0: Seq<Token>,
    table: Map<Seq<char>, Object>,
    fin: Seq<Token>,
    rs: Seq<Result<Q, Failure>>,
) -> bool {
    &&& exists|stacks: Seq<Seq<Token>>|
        #[trigger] flush_trace(table, stacks, rs) && stacks[0] == s0 && stacks.last() == fin
    &&& forall|i: int| 0 <= i < rs.len() - 1 ==> !is_extract_failure(#[trigger] rs[i])
    &&& if rs.len() > 0 && is_extract_failure(rs.last()) {
        true
    } else {
        fin.len() == 0
    }
}

/// The number of outputs that report a result.
pub open spec fn report_len(res: Result<Q, Failure>) -> int {
    match res {
        Ok(_) => 1,
        Err(f) => failure_texts(f).len() as int,
    }
}

/// `outs` say the results `rs` in order, each value after `> `.
pub open spec fn reports_all(outs: Seq<Output>, rs: Seq<Result<Q, Failure>>) -> bool
    decreases rs.len(),
{
    if rs.len() == 0 {
        outs.len() == 0
    } else {
        let k = outs.len() - report_len(rs.last());
        &&& 0 <= k
        &&& reports_all(outs.subrange(0, k), rs.drop_last())
        &&& reports(outs.skip(k), rs.last(), "> "@)
    }
}

proof fn lemma_reports_extend(
    before: Seq<Output>,
    outs: Seq<Output>,
    rs: Seq<Result<Q, Failure>>,
    r: Result<Q, Failure>,
)
    requires
        reports_all(before, rs),
        before.len() <= outs.len(),
        outs.subrange(0, before.len() as int) == before,
        reports(outs.skip(before.len() as int), r, "> "@),
    ensures
        reports_all(outs, rs.push(r)),
{
    let p = rs.push(r);
    assert(p.drop_last() =~= rs);
    assert(p.last() == r);
    assert(outs.len() - report_len(r) == before.len());
}

/// Where the `count` complete expressions that end at `i` start, nearest first.
pub open spec fn starts(
    s: Seq<Token>,
    table: Map<Seq<char>, Object>,
    own: Option<(Seq<char>, nat)>,
    i: int,
    count: nat,
) -> Option<Seq<int>>
    decreases count,
{
    if count == 0 {
        Some(seq![])
    } else {
        match extract(s, table, own, i) {
            Some(j) => match starts(s, table, own, j, (count - 1) as nat) {
                Some(rest) => Some(seq![j] + rest),
                None => None,
            },
            None => None,
        }
    }
}

proof fn lemma_starts_too_many(
    s: Seq<Token>,
    table: Map<Seq<char>, Object>,
    own: Option<(Seq<char>, nat)>,
    i: int,
    count: nat,
)
    requires
        0 <= i <= s.len(),
        count > i,
    ensures
        starts(s, table, own, i, count) is None,
    decreases count,
{
    lemma_extract_is_first_complete(s, table, own, i);
    match extract(s, table, own, i) {
        Some(j) => {
            lemma_starts_too_many(s, table, own, j, (count - 1) as nat);
        },
        None => {},
    }
}

/// A slice that the extractor found, with the name being defined at its declared
/// arity, is a complete expression once the name stands in the table with that
/// arity.
proof fn lemma_found_slice_complete(
    s: Seq<Token>,
    table: Map<Seq<char>, Object>,
    name: Seq<char>,
    arity: usize,
    ph: ExecTree,
    j: int,
    i: int,
)
    requires
        0 <= i <= s.len(),
        all_operands(s),
        tokens_valid(s),
        extract(s, table, Some((name, arity as nat)), i) == Some(j),
    ensures
        0 <= j < i,
        is_complete(s.subrange(j, i), table.insert(name, Object::Function(arity, ph))),
        all_operands(s.subrange(j, i)),
        tokens_valid(s.subrange(j, i)),
{
    let own = Some((name, arity as nat));
    let tb2 = table.insert(name, Object::Function(arity, ph));
    lemma_extract_is_first_complete(s, table, own, i);
    let sl = s.subrange(j, i);
    assert forall|k: int| j <= k < i implies (#[trigger] s[k]).arity(tb2, None) == s[k].arity(
        table,
        own,
    ) by {}
    assert forall|m: int| 0 <= m <= sl.len() implies need(sl, tb2, None, m, sl.len() as int)
        == need(s, table, own, m + j, i) by {
        lemma_need_slice(s, tb2, None, j, m + j, i);
        lemma_need_same_arities(s, tb2, None, table, own, m + j, i);
    }
    assert forall|k: int| 0 <= k < sl.len() implies (#[trigger] sl[k]).is_operand() && token_valid(
        sl[k],
    ) by {
        assert(sl[k] == s[k + j]);
    }
}

/// `=`: the value of the top expression is printed after `> `.
pub open spec fn shows_top(
    s: Seq<Token>,
    tb: Map<Seq<char>, Object>,
    s2: Seq<Token>,
    tb2: Map<Seq<char>, Object>,
    outs: Seq<Output>,
) -> bool {
    &&& tb2 == tb
    &&& exists|res: Result<Q, Failure>|
        #[trigger] computes(s, tb, s2, res)
            && reports(outs, res, "> "@)
}

/// `#`: as `=` after `< `, and the value goes back on the stack.
pub open spec fn shows_partial(
    s: Seq<Token>,
    tb: Map<Seq<char>, Object>,
    s2: Seq<Token>,
    tb2: Map<Seq<char>, Object>,
    outs: Seq<Output>,
) -> bool {
    &&& tb2 == tb
    &&& exists|res: Result<Q, Failure>, rest: Seq<Token>|
        #[trigger] computes(s, tb, rest, res) && reports(
            outs,
            res,
            "< "@,
        ) && match res {
            Ok(v) => s2.drop_last() == rest && s2.len()
                == rest.len() + 1 && s2.last() is Number && ratio_parts(
                s2.last()->Number_0,
            ) == v,
            Err(_) => s2 == rest,
        }
}

/// `<`: the value of the top expression goes on the stack twice.
pub open spec fn duplicates(
    s: Seq<Token>,
    tb: Map<Seq<char>, Object>,
    s2: Seq<Token>,
    tb2: Map<Seq<char>, Object>,
    outs: Seq<Output>,
) -> bool {
    &&& tb2 == tb
    &&& exists|res: Result<Q, Failure>, rest: Seq<Token>|
        #[trigger] computes(s, tb, rest, res) && match res {
            Ok(v) => s2.len() == rest.len() + 2 && s2.subrange(0, rest.len() as int) == rest && s2[rest.len()
                as int] is Number && s2.last() is Number && ratio_parts(
                s2[rest.len() as int]->Number_0,
            ) == v && ratio_parts(s2.last()->Number_0) == v && outs.len() == 0,
            Err(f) => s2 == rest && diagnostics(
                outs,
                failure_texts(f),
            ),
        }
}

/// `[]`: the value of the top expression is handed out for an approximate display.
pub open spec fn approximates(
    s: Seq<Token>,
    tb: Map<Seq<char>, Object>,
    s2: Seq<Token>,
    tb2: Map<Seq<char>, Object>,
    outs: Seq<Output>,
) -> bool {
    &&& tb2 == tb
    &&& exists|res: Result<Q, Failure>|
        #[trigger] computes(s, tb, s2, res)
            && match res {
            Ok(v) => outs.len() == 1 && outs[0] is Approx && ratio_parts(outs[0]->Approx_0) == v,
            Err(f) => diagnostics(
                outs,
                failure_texts(f),
            ),
        }
}

/// `&`: the numerator, and the denominator when it is not one, are written as bytes.
pub open spec fn formats(
    s: Seq<Token>,
    tb: Map<Seq<char>, Object>,
    s2: Seq<Token>,
    tb2: Map<Seq<char>, Object>,
    outs: Seq<Output>,
) -> bool {
    &&& tb2 == tb
    &&& exists|res: Result<Q, Failure>|
        #[trigger] computes(s, tb, s2, res)
            && match res {
            Ok(v) => {
                let outs = outs;
                &&& outs.len() == (if v.1 == 1 {
                    1int
                } else {
                    2int
                })
                &&& outs[0] is Bytes && be_value(outs[0]->Bytes_0@) == abs(v.0)
                &&& (outs[0]->Bytes_0@.len() == 0 <==> v.0 == 0)
                &&& (outs[0]->Bytes_0@.len() > 0 ==> outs[0]->Bytes_0@[0] != 0)
                &&& v.1 != 1 ==> outs[1] is Bytes && be_value(outs[1]->Bytes_0@)
                    == v.1 && outs[1]->Bytes_0@.len() > 0 && outs[1]->Bytes_0@[0] != 0
            },
            Err(f) => diagnostics(
                outs,
                failure_texts(f),
            ),
        }
}

/// `=name`: the name is bound to the value of the top expression.
pub open spec fn assigns_variable(
    s: Seq<Token>,
    tb: Map<Seq<char>, Object>,
    s2: Seq<Token>,
    tb2: Map<Seq<char>, Object>,
    outs: Seq<Output>,
    name: Seq<char>,
) -> bool {
    exists|res: Result<Q, Failure>|
        #[trigger] computes(s, tb, s2, res) && match res {
            Ok(v) => tb2 == tb.insert(name, tb2[name]) && tb2[name] is Variable && ratio_parts(
                tb2[name]->Variable_0,
            ) == v && outs.len() == 0,
            Err(f) => tb2 == tb && diagnostics(outs, failure_texts(f)),
        }
}

/// `>`: the expressions on the stack are printed from the top until it is empty or one is incomplete.
pub open spec fn flushes_all(
    s: Seq<Token>,
    tb: Map<Seq<char>, Object>,
    s2: Seq<Token>,
    tb2: Map<Seq<char>, Object>,
    outs: Seq<Output>,
) -> bool {
    &&& tb2 == tb
    &&& exists|rs: Seq<Result<Q, Failure>>|
        #[trigger] flushes(s, tb, s2, rs)
            && reports_all(outs, rs)
}

/// `name|N`: the top expression, where `name` itself has arity `N`, becomes the
/// body of the function `name` of `N` arguments.
pub open spec fn assigns_function(
    s: Seq<Token>,
    tb: Map<Seq<char>, Object>,
    s2: Seq<Token>,
    tb2: Map<Seq<char>, Object>,
    outs: Seq<Output>,
    name: Seq<char>,
    arity: usize,
) -> bool {
    match extract(s, tb, Some((name, arity as nat)), s.len() as int) {
        Some(j) => {
            &&& s2 == s.subrange(0, j)
            &&& outs.len() == 0
            &&& tb2 == tb.insert(name, tb2[name])
            &&& tb2[name] is Function
            &&& tb2[name]->Function_0 == arity
            &&& exists|ph: ExecTree|
                #[trigger] tree_of(
                    tb2[name]->Function_1,
                    s.subrange(j, s.len() as int),
                    tb.insert(name, Object::Function(arity, ph)),
                )
        },
        None => {
            &&& s2 == s
            &&& tb2 == tb
            &&& outs.len() == 1
            &&& is_diagnostic(outs[0], "Incomplete function declaration"@)
        },
    }
}

/// `name@N`: the `N + 2` top expressions, where `name` itself has arity `N`, become
/// the iterative `name`: left to right, the `N` updates, the finalizer and the
/// condition. When fewer are there, nothing changes.
pub open spec fn assigns_iterative(
    s: Seq<Token>,
    tb: Map<Seq<char>, Object>,
    s2: Seq<Token>,
    tb2: Map<Seq<char>, Object>,
    outs: Seq<Output>,
    name: Seq<char>,
    arity: usize,
) -> bool {
    match starts(s, tb, Some((name, arity as nat)), s.len() as int, arity as nat + 2) {
        Some(b) => {
            let n = s.len() as int;
            let o = tb2[name];
            &&& s2 == s.subrange(0, b.last())
            &&& outs.len() == 0
            &&& tb2 == tb.insert(name, o)
            &&& o is Iterative
            &&& o->Iterative_0 == arity
            &&& o->Iterative_1@.len() == arity
            &&& exists|ph: ExecTree|
                {
                    let tb3 = #[trigger] tb.insert(name, Object::Function(arity, ph));
                    &&& tree_of(o->Iterative_3, s.subrange(b[0], n), tb3)
                    &&& tree_of(o->Iterative_2, s.subrange(b[1], b[0]), tb3)
                    &&& forall|u: int|
                        0 <= u < arity ==> tree_of(
                            #[trigger] o->Iterative_1@[u],
                            s.subrange(b[arity + 1 - u], b[arity - u]),
                            tb3,
                        )
                }
        },
        None => {
            &&& s2 == s
            &&& tb2 == tb
            &&& outs.len() == 1
            &&& is_diagnostic(outs[0], "Incomplete function declaration"@)
        },
    }
}

/// `:`: the stack is printed, and nothing changes.
pub open spec fn prints(
    s: Seq<Token>,
    tb: Map<Seq<char>, Object>,
    s2: Seq<Token>,
    tb2: Map<Seq<char>, Object>,
    outs: Seq<Output>,
) -> bool {
    s2 == s && tb2 == tb && outs.len() == 1 && is_line(outs[0], stack_text(s))
}

/// `!`: the top expression is removed without evaluation; when the stack runs out
/// first, it is emptied.
pub open spec fn drops(
    s: Seq<Token>,
    tb: Map<Seq<char>, Object>,
    s2: Seq<Token>,
    tb2: Map<Seq<char>, Object>,
    outs: Seq<Output>,
) -> bool {
    &&& tb2 == tb
    &&& outs.len() == 0
    &&& s2 == match extract(s, tb, None, s.len() as int) {
        Some(j) => s.subrange(0, j),
        None => Seq::<Token>::empty(),
    }
}

/// What one token does to the stack and the table, and what it says.
pub open spec fn step(
    s: Seq<Token>,
    tb: Map<Seq<char>, Object>,
    token: Token,
    s2: Seq<Token>,
    tb2: Map<Seq<char>, Object>,
    outs: Seq<Output>,
) -> bool {
    match token {
        Token::Error => s2 == s && tb2 == tb && outs.len() == 1 && is_diagnostic(
            outs[0],
            "Dropped unrecognized token!"@,
        ),
        Token::Return => shows_top(s, tb, s2, tb2, outs),
        Token::Partial => shows_partial(s, tb, s2, tb2, outs),
        Token::Duplicate => duplicates(s, tb, s2, tb2, outs),
        Token::Approx => approximates(s, tb, s2, tb2, outs),
        Token::Format => formats(s, tb, s2, tb2, outs),
        Token::Flush => flushes_all(s, tb, s2, tb2, outs),
        Token::Print => prints(s, tb, s2, tb2, outs),
        Token::Empty => s2 == Seq::<Token>::empty() && tb2 == tb && outs.len() == 0,
        Token::Drop => drops(s, tb, s2, tb2, outs),
        Token::AssignVariable(name) => assigns_variable(s, tb, s2, tb2, outs, name@),
        Token::AssignFunction(name, arity) => assigns_function(s, tb, s2, tb2, outs, name@, arity),
        Token::AssignIterative(name, arity) => assigns_iterative(
            s,
            tb,
            s2,
            tb2,
            outs,
            name@,
            arity,
        ),
        _ => s2 == s.push(token) && tb2 == tb && outs.len() == 0,
    }
}

proof fn lemma_scan_same_arities(
    s: Seq<Token>,
    t1: Map<Seq<char>, Object>,
    o1: Option<(Seq<char>, nat)>,
    t2: Map<Seq<char>, Object>,
    o2: Option<(Seq<char>, nat)>,
    i: int,
    n: int,
)
    requires
        0 <= i <= s.len(),
        forall|k: int| 0 <= k < i ==> (#[trigger] s[k]).arity(t1, o1) == s[k].arity(t2, o2),
    ensures
        scan(s, t1, o1, i, n) == scan(s, t2, o2, i, n),
    decreases i,
{
    if n != 0 && i > 0 {
        lemma_scan_same_arities(s, t1, o1, t2, o2, i - 1, n + s[i - 1].arity(t1, o1) - 1);
    }
}

/// Assigning a name replaces what it stood for: after `=name` either evaluation
/// failed and nothing changed, or the name stands for a variable holding the new
/// value and every other name is as before.
pub proof fn lemma_assignment_replaces(
    s: Seq<Token>,
    tb: Map<Seq<char>, Object>,
    s2: Seq<Token>,
    tb2: Map<Seq<char>, Object>,
    outs: Seq<Output>,
    name: Seq<char>,
)
    requires
        assigns_variable(s, tb, s2, tb2, outs, name),
    ensures
        tb2 == tb || (tb2[name] is Variable && forall|k: Seq<char>|
            k != name ==> (tb2.contains_key(k) == tb.contains_key(k) && (tb.contains_key(k)
                ==> #[trigger] tb2[k] == tb[k]))),
{
    let res = choose|res: Result<Q, Failure>|
        #[trigger] computes(s, tb, s2, res) && match res {
            Ok(v) => tb2 == tb.insert(name, tb2[name]) && tb2[name] is Variable && ratio_parts(
                tb2[name]->Variable_0,
            ) == v && outs.len() == 0,
            Err(f) => tb2 == tb && diagnostics(outs, failure_texts(f)),
        };
    if res is Ok {
        assert forall|k: Seq<char>| k != name implies (tb2.contains_key(k) == tb.contains_key(k)
            && (tb.contains_key(k) ==> #[trigger] tb2[k] == tb[k])) by {}
    }
}

/// A function definition reads its own name at the arity that it declares, whatever
/// the name stood for before: where the defined expression starts does not depend on
/// the old binding, and the body is built with the name at the declared arity.
pub proof fn lemma_definition_uses_declared_arity(
    s: Seq<Token>,
    tb: Map<Seq<char>, Object>,
    old_object: Object,
    s2: Seq<Token>,
    tb2: Map<Seq<char>, Object>,
    outs: Seq<Output>,
    name: Seq<char>,
    arity: usize,
)
    requires
        assigns_function(s, tb, s2, tb2, outs, name, arity),
    ensures
        extract(s, tb, Some((name, arity as nat)), s.len() as int) == extract(
            s,
            tb.insert(name, old_object),
            Some((name, arity as nat)),
            s.len() as int,
        ),
        extract(s, tb, Some((name, arity as nat)), s.len() as int) is Some ==> tb2[name] is Function
            && tb2[name]->Function_0 == arity && exists|ph: ExecTree|
            wf_tree(
                tb2[name]->Function_1,
                #[trigger] tb.insert(name, Object::Function(arity, ph)),
            ),
{
    let own = Some((name, arity as nat));
    let tb3 = tb.insert(name, old_object);
    assert forall|k: int| 0 <= k < s.len() implies (#[trigger] s[k]).arity(tb, own) == s[k].arity(
        tb3,
        own,
    ) by {}
    lemma_scan_same_arities(s, tb, own, tb3, own, s.len() as int, 1);
    if extract(s, tb, own, s.len() as int) is Some {
        let j = extract(s, tb, own, s.len() as int)->0;
        let ph = choose|ph: ExecTree|
            #[trigger] tree_of(
                tb2[name]->Function_1,
                s.subrange(j, s.len() as int),
                tb.insert(name, Object::Function(arity, ph)),
            );
        assert(wf_tree(tb2[name]->Function_1, tb.insert(name, Object::Function(arity, ph))));
    }
}

/// The tokens `ts` run from `stacks[0]` and `tables[0]`: token `i` takes the stack
/// and the table of index `i` to those of index `i + 1` and says the outputs between
/// `cuts[i]` and `cuts[i + 1]`.
pub open spec fn runs(
    ts: Seq<Token>,
    stacks: Seq<Seq<Token>>,
    tables: Seq<Map<Seq<char>, Object>>,
    outs: Seq<Output>,
    cuts: Seq<int>,
) -> bool
    decreases ts.len(),
{
    if ts.len() == 0 {
        stacks.len() == 1 && tables.len() == 1 && cuts == seq![0int] && outs.len() == 0
    } else {
        let n = ts.len() - 1;
        &&& stacks.len() == ts.len() + 1
        &&& tables.len() == ts.len() + 1
        &&& cuts.len() == ts.len() + 1
        &&& 0 <= cuts[n] <= outs.len()
        &&& cuts.last() == outs.len()
        &&& runs(
            ts.drop_last(),
            stacks.drop_last(),
            tables.drop_last(),
            outs.subrange(0, cuts[n]),
            cuts.drop_last(),
        )
        &&& step(stacks[n], tables[n], ts.last(), stacks.last(), tables.last(), outs.skip(cuts[n]))
    }
}

proof fn lemma_runs_ends(
    ts: Seq<Token>,
    stacks: Seq<Seq<Token>>,
    tables: Seq<Map<Seq<char>, Object>>,
    outs: Seq<Output>,
    cuts: Seq<int>,
)
    requires
        runs(ts, stacks, tables, outs, cuts),
    ensures
        stacks.len() == ts.len() + 1,
        tables.len() == ts.len() + 1,
        cuts.len() == ts.len() + 1,
        cuts.last() == outs.len(),
{
}

proof fn lemma_runs_extend(
    ts: Seq<Token>,
    stacks: Seq<Seq<Token>>,
    tables: Seq<Map<Seq<char>, Object>>,
    outs: Seq<Output>,
    cuts: Seq<int>,
    t: Token,
    s2: Seq<Token>,
    tb2: Map<Seq<char>, Object>,
    outs2: Seq<Output>,
)
    requires
        runs(ts, stacks, tables, outs, cuts),
        outs.len() <= outs2.len(),
        outs2.subrange(0, outs.len() as int) == outs,
        step(stacks.last(), tables.last(), t, s2, tb2, outs2.skip(outs.len() as int)),
    ensures
        runs(
            ts.push(t),
            stacks.push(s2),
            tables.push(tb2),
            outs2,
            cuts.push(outs2.len() as int),
        ),
{
    lemma_runs_ends(ts, stacks, tables, outs, cuts);
    let ts2 = ts.push(t);
    let st2 = stacks.push(s2);
    let tbs2 = tables.push(tb2);
    let c2 = cuts.push(outs2.len() as int);
    let n = ts.len() as int;
    assert(ts2.drop_last() =~= ts);
    assert(st2.drop_last() =~= stacks);
    assert(tbs2.drop_last() =~= tables);
    assert(c2.drop_last() =~= cuts);
    assert(c2[n] == outs.len());
    assert(st2[n] == stacks.last() && tbs2[n] == tables.last());
}

/// The printed form of a token on the stack.
pub open spec fn token_text(t: Token) -> Seq<char> {
    match t {
        Token::Number(r) => value_text(seq![], ratio_parts(r)),
        Token::Plus => "+"@,
        Token::Minus => "-"@,
        Token::Times => "*"@,
        Token::Divide => "/"@,
        Token::IntegerDiv => "\\"@,
        Token::If => "?"@,
        Token::PositiveMinus => "~"@,
        Token::Exp => "^"@,
        Token::ExpMod => "_"@,
        Token::Argument(i) => seq!['$'] + decimal_text(i as int),
        Token::Identifier(name) => name@,
        _ => "Unprintable"@,
    }
}

/// The printed form of a stack: each token followed by a space.
pub open spec fn stack_text(s: Seq<Token>) -> Seq<char>
    decreases s.len(),
{
    if s.len() == 0 {
        seq![]
    } else {
        stack_text(s.drop_last()) + token_text(s.last()) + seq![' ']
    }
}

/// The diagnostics for a failed evaluation of the top of the stack.
pub open spec fn failure_texts(f: Failure) -> Seq<Seq<char>> {
    let first: Seq<Seq<char>> = match f {
        Failure::Extract(ExtractError::ArgumentOutsideFunction) => seq![
            "Arguments are only allowed in functions"@,
        ],
        Failure::Eval(EvalError::DivisionByZero) => seq!["Cannot divide by zero"@],
        Failure::Eval(EvalError::InvalidArgument) => seq!["Invalid argument"@],
        Failure::Eval(EvalError::UndefinedName(n)) => seq!["Undefined name: "@ + n@],
        _ => seq![],
    };
    first.push("Incomplete expression"@)
}

pub open spec fn is_line(o: Output, text: Seq<char>) -> bool {
    match o {
        Output::Line(s) => s@ == text,
        _ => false,
    }
}

pub open spec fn is_diagnostic(o: Output, text: Seq<char>) -> bool {
    match o {
        Output::Diagnostic(s) => s@ == text,
        _ => false,
    }
}

/// `outs` are diagnostics with the texts `texts`, in order.
pub open spec fn diagnostics(outs: Seq<Output>, texts: Seq<Seq<char>>) -> bool {
    outs.len() == texts.len() && forall|i: int|
        0 <= i < outs.len() ==> is_diagnostic(#[trigger] outs[i], texts[i])
}

/// What an action that prints the value on top of the stack says: the value after
/// the prefix, or the diagnostics of its failure.
pub open spec fn reports(outs: Seq<Output>, res: Result<Q, Failure>, prefix: Seq<char>) -> bool {
    match res {
        Ok(v) => outs.len() == 1 && is_line(outs[0], value_text(prefix, v)),
        Err(f) => diagnostics(outs, failure_texts(f)),
    }
}

/// The text of a count.
fn count_text(n: usize) -> (r: String)
    ensures
        r@ == decimal_text(n as int),
{
    big_to_decimal(&big_from_usize(n))
}

/// A value after a prefix: `n`, or `n/d` when the denominator is not one.
fn value_line(prefix: &str, x: &BigRational) -> (r: String)
    ensures
        r@ == value_text(prefix@, ratio_parts(*x)),
{
    let n = big_to_decimal(&ratio_numer(x));
    let mut s = String::from_str(prefix);
    s.append(n.as_str());
    if !ratio_is_integer(x) {
        proof {
            reveal_strlit("/");
        }
        s.append("/");
        let d = big_to_decimal(&ratio_denom(x));
        s.append(d.as_str());
    }
    s
}

/// The printed form of a token.
fn token_line(t: &Token) -> (r: String)
    ensures
        r@ == token_text(*t),
{
    match t {
        Token::Number(r) => {
            proof {
                reveal_strlit("");
            }
            value_line("", r)
        },
        Token::Plus => String::from_str("+"),
        Token::Minus => String::from_str("-"),
        Token::Times => String::from_str("*"),
        Token::Divide => String::from_str("/"),
        Token::IntegerDiv => String::from_str("\\"),
        Token::If => String::from_str("?"),
        Token::PositiveMinus => String::from_str("~"),
        Token::Exp => String::from_str("^"),
        Token::ExpMod => String::from_str("_"),
        Token::Argument(i) => {
            proof {
                reveal_strlit("$");
            }
            let mut s = String::from_str("$");
            let d = count_text(*i);
            s.append(d.as_str());
            s
        },
        Token::Identifier(name) => name.clone(),
        _ => String::from_str("Unprintable"),
    }
}

/// Writes the diagnostics of a failure.
fn report_failure(f: &Failure, out: &mut Vec<Output>)
    ensures
        final(out)@.len() > old(out)@.len(),
        final(out)@.subrange(0, old(out)@.len() as int) == old(out)@,
        diagnostics(final(out)@.skip(old(out)@.len() as int), failure_texts(*f)),
{
    let ghost start = out@.len() as int;
    match f {
        Failure::Extract(ExtractError::ArgumentOutsideFunction) => {
            out.push(Output::Diagnostic(String::from_str("Arguments are only allowed in functions")));
        },
        Failure::Eval(EvalError::DivisionByZero) => {
            out.push(Output::Diagnostic(String::from_str("Cannot divide by zero")));
        },
        Failure::Eval(EvalError::InvalidArgument) => {
            out.push(Output::Diagnostic(String::from_str("Invalid argument")));
        },
        Failure::Eval(EvalError::UndefinedName(n)) => {
            let s = String::from_str("Undefined name: ").concat(n.as_str());
            out.push(Output::Diagnostic(s));
        },
        _ => {},
    }
    out.push(Output::Diagnostic(String::from_str("Incomplete expression")));
}

impl Calculator {
    pub closed spec fn stack_view(&self) -> Seq<Token> {
        self.stack@
    }

    pub closed spec fn table_view(&self) -> Map<Seq<char>, Object> {
        self.table@
    }

    /// The stack holds only expression tokens, and every number has a positive
    /// denominator.
    pub closed spec fn wf(&self) -> bool {
        &&& all_operands(self.stack@)
        &&& tokens_valid(self.stack@)
        &&& table_valid(self.table@)
    }

    /// A calculator with an empty stack and an empty table.
    pub fn new() -> (r: Calculator)
        ensures
            r.wf(),
            r.stack_view() == Seq::<Token>::empty(),
            r.table_view() == Map::<Seq<char>, Object>::empty(),
    {
        Calculator { stack: Vec::new(), table: StringHashMap::new() }
    }

    /// Takes the complete expression off the top of the stack and evaluates it.
    fn compute(&mut self) -> (r: Result<BigRational, Failure>)
        requires
            old(self).wf(),
        ensures
            final(self).wf(),
            final(self).table@ == old(self).table@,
            computes(old(self).stack@, old(self).table@, final(self).stack@, result_view(r)),
            r is Ok ==> valid_q(ratio_parts(r->Ok_0)),
            is_extract_failure(result_view(r)) ==> final(self).stack@ == old(self).stack@,
            !is_extract_failure(result_view(r)) ==> final(self).stack@.len() < old(self).stack@.len(),
    {
        reveal(computes);
        let ghost s = self.stack@;
        let ghost n = s.len() as int;
        proof {
            lemma_extract_is_first_complete(s, self.table@, None, n);
        }
        match clip_head(&mut self.stack, &self.table) {
            Err(e) => Err(Failure::Extract(e)),
            Ok(expr) => {
                let ghost j = extract(s, self.table@, None, n)->0;
                proof {
                    let sl = s.subrange(j, n);
                    assert(sl == expr@);
                    assert forall|m: int| 0 <= m <= sl.len() implies need(
                        sl,
                        self.table@,
                        None,
                        m,
                        sl.len() as int,
                    ) == need(s, self.table@, None, m + j, n) by {
                        lemma_need_slice(s, self.table@, None, j, m + j, n);
                    }
                    assert forall|k: int| 0 <= k < sl.len() implies (#[trigger] sl[k]).is_operand()
                        && token_valid(sl[k]) by {
                        assert(sl[k] == s[k + j]);
                    }
                    assert(is_complete(sl, self.table@));
                    assert forall|k: int| 0 <= k < self.stack@.len() implies (
                    #[trigger] self.stack@[k]).is_operand() && token_valid(self.stack@[k]) by {
                        assert(self.stack@[k] == s[k]);
                    }
                }
                let tree = parse_tree(expr, &self.table);
                let none: Vec<BigRational> = Vec::new();
                let r = tree.reduce(&self.table, &none);
                proof {
                    assert(crate::execution::parts_of(none@) =~= Seq::<Q>::empty());
                    assert(tree_of(tree, s.subrange(j, n), self.table@));
                }
                match r {
                    Ok(v) => Ok(v),
                    Err(e) => Err(Failure::Eval(e)),
                }
            },
        }
    }

    /// `=`: evaluates the top of the stack and prints it after `> `.
    fn show_top(&mut self, out: &mut Vec<Output>)
        requires
            old(self).wf(),
        ensures
            final(self).wf(),
            final(out)@.len() >= old(out)@.len(),
            final(out)@.subrange(0, old(out)@.len() as int) == old(out)@,
            shows_top(
                old(self).stack@,
                old(self).table@,
                final(self).stack@,
                final(self).table@,
                final(out)@.skip(old(out)@.len() as int),
            ),

    {
        let ghost start = out@.len() as int;
        let r = self.compute();
        match &r {
            Ok(v) => {
                out.push(Output::Line(value_line("> ", v)));
            },
            Err(f) => {
                report_failure(f, out);
            },
        }
        assert(computes(old(self).stack@, old(self).table@, self.stack@, result_view(r)));
        assert(reports(out@.skip(start), result_view(r), "> "@));
    }

    /// `#`: as `=` after `< `, and the value goes back on the stack.
    fn show_partial(&mut self, out: &mut Vec<Output>)
        requires
            old(self).wf(),
        ensures
            final(self).wf(),
            final(out)@.len() >= old(out)@.len(),
            final(out)@.subrange(0, old(out)@.len() as int) == old(out)@,
            shows_partial(
                old(self).stack@,
                old(self).table@,
                final(self).stack@,
                final(self).table@,
                final(out)@.skip(old(out)@.len() as int),
            ),

    {
        let ghost start = out@.len() as int;
        let r = self.compute();
        let ghost rest = self.stack@;
        match r {
            Ok(v) => {
                out.push(Output::Line(value_line("< ", &v)));
                self.stack.push(Token::Number(v));
                proof {
                    assert(self.stack@.drop_last() =~= rest);
                    assert forall|k: int| 0 <= k < self.stack@.len() implies (
                    #[trigger] self.stack@[k]).is_operand() && token_valid(self.stack@[k]) by {
                        if k < rest.len() {
                            assert(self.stack@[k] == rest[k]);
                        }
                    }
                }
            },
            Err(f) => {
                report_failure(&f, out);
            },
        }
        assert(computes(old(self).stack@, old(self).table@, rest, result_view(r)));
    }

    /// `<`: evaluates the top of the stack and pushes the value twice.
    fn duplicate(&mut self, out: &mut Vec<Output>)
        requires
            old(self).wf(),
        ensures
            final(self).wf(),
            final(out)@.len() >= old(out)@.len(),
            final(out)@.subrange(0, old(out)@.len() as int) == old(out)@,
            duplicates(
                old(self).stack@,
                old(self).table@,
                final(self).stack@,
                final(self).table@,
                final(out)@.skip(old(out)@.len() as int),
            ),

    {
        let r = self.compute();
        let ghost rest = self.stack@;
        match r {
            Ok(v) => {
                let w = ratio_clone(&v);
                self.stack.push(Token::Number(w));
                self.stack.push(Token::Number(v));
                proof {
                    assert(self.stack@.subrange(0, rest.len() as int) =~= rest);
                    assert forall|k: int| 0 <= k < self.stack@.len() implies (
                    #[trigger] self.stack@[k]).is_operand() && token_valid(self.stack@[k]) by {
                        if k < rest.len() {
                            assert(self.stack@[k] == rest[k]);
                        }
                    }
                    assert(out@.skip(out@.len() as int) =~= Seq::<Output>::empty());
                }
            },
            Err(f) => {
                report_failure(&f, out);
            },
        }
        assert(computes(old(self).stack@, old(self).table@, rest, result_view(r)));
    }

    /// `[]`: evaluates the top of the stack for an approximate display.
    fn approximate(&mut self, out: &mut Vec<Output>)
        requires
            old(self).wf(),
        ensures
            final(self).wf(),
            final(out)@.len() >= old(out)@.len(),
            final(out)@.subrange(0, old(out)@.len() as int) == old(out)@,
            approximates(
                old(self).stack@,
                old(self).table@,
                final(self).stack@,
                final(self).table@,
                final(out)@.skip(old(out)@.len() as int),
            ),

    {
        let r = self.compute();
        match &r {
            Ok(v) => {
                out.push(Output::Approx(ratio_clone(v)));
            },
            Err(f) => {
                report_failure(f, out);
            },
        }
        assert(computes(old(self).stack@, old(self).table@, self.stack@, result_view(r)));
    }

    /// `&`: evaluates the top of the stack and writes its numerator, then its
    /// denominator when that is not one, as bytes, most significant first.
    fn format(&mut self, out: &mut Vec<Output>)
        requires
            old(self).wf(),
        ensures
            final(self).wf(),
            final(out)@.len() >= old(out)@.len(),
            final(out)@.subrange(0, old(out)@.len() as int) == old(out)@,
            formats(
                old(self).stack@,
                old(self).table@,
                final(self).stack@,
                final(self).table@,
                final(out)@.skip(old(out)@.len() as int),
            ),

    {
        let ghost start = out@.len() as int;
        let r = self.compute();
        match &r {
            Ok(v) => {
                let mut num = Stringer::from(ratio_numer(v));
                out.push(Output::Bytes(num.collect_bytes()));
                if !ratio_is_integer(v) {
                    let mut den = Stringer::from(ratio_denom(v));
                    out.push(Output::Bytes(den.collect_bytes()));
                }
            },
            Err(f) => {
                report_failure(f, out);
            },
        }
        assert(computes(old(self).stack@, old(self).table@, self.stack@, result_view(r)));
    }

    /// `=name`: evaluates the top of the stack and binds the name to the value.
    fn assign_variable(&mut self, name: String, out: &mut Vec<Output>)
        requires
            old(self).wf(),
        ensures
            final(self).wf(),
            final(out)@.len() >= old(out)@.len(),
            final(out)@.subrange(0, old(out)@.len() as int) == old(out)@,
            assigns_variable(
                old(self).stack@,
                old(self).table@,
                final(self).stack@,
                final(self).table@,
                final(out)@.skip(old(out)@.len() as int),
                name@,
            ),

    {
        let r = self.compute();
        let ghost rv = result_view(r);
        let ghost rest = self.stack@;
        match r {
            Ok(v) => {
                self.table.insert(name, Object::Variable(v));
                proof {
                    assert(self.table@ =~= old(self).table@.insert(name@, self.table@[name@]));
                    assert(out@.skip(out@.len() as int) =~= Seq::<Output>::empty());
                }
            },
            Err(f) => {
                report_failure(&f, out);
            },
        }
        assert(computes(old(self).stack@, old(self).table@, self.stack@, rv));
    }

    /// Takes complete expressions off the top of the stack and evaluates them, until
    /// the stack is empty or an expression cannot be extracted.
    fn compute_all(&mut self) -> (r: Vec<Result<BigRational, Failure>>)
        requires
            old(self).wf(),
        ensures
            final(self).wf(),
            final(self).table@ == old(self).table@,
            flushes(old(self).stack@, old(self).table@, final(self).stack@, results_view(r@)),
    {
        let ghost s0 = self.stack@;
        let ghost tb = self.table@;
        let ghost mut stacks: Seq<Seq<Token>> = seq![s0];
        let mut results: Vec<Result<BigRational, Failure>> = Vec::new();
        let mut stop = false;
        assert(results_view(results@) =~= Seq::<Result<Q, Failure>>::empty());
        while self.stack.len() > 0 && !stop
            invariant
                self.wf(),
                self.table@ == tb,
                flush_trace(tb, stacks, results_view(results@)),
                stacks[0] == s0,
                stacks.last() == self.stack@,
                forall|i: int|
                    0 <= i < results@.len() - 1 ==> !is_extract_failure(
                        #[trigger] results_view(results@)[i],
                    ),
                stop <==> (results@.len() > 0 && is_extract_failure(
                    results_view(results@).last(),
                )),
            decreases 2 * self.stack@.len() + (if stop {
                0int
            } else {
                1int
            }),
        {
            let ghost mid = self.stack@;
            let ghost before = results_view(results@);
            proof {
                lemma_extract_is_first_complete(mid, tb, None, mid.len() as int);
            }
            let r = self.compute();
            let ghost rv = result_view(r);
            let is_extract = match &r {
                Err(Failure::Extract(_)) => true,
                _ => false,
            };
            results.push(r);
            proof {
                let now = results_view(results@);
                assert(now =~= before.push(rv));
                let old_stacks = stacks;
                stacks = stacks.push(self.stack@);
                assert forall|i: int| 0 <= i < now.len() implies (#[trigger] stacks[i]).len() > 0
                    && computes(stacks[i], tb, stacks[i + 1], now[i]) by {
                    if i < before.len() {
                        assert(stacks[i] == old_stacks[i]);
                        assert(stacks[i + 1] == old_stacks[i + 1]);
                    }
                }
            }
            stop = is_extract;
        }
        assert(stacks[0] == s0 && stacks.last() == self.stack@);
        assert(flush_trace(tb, stacks, results_view(results@)));
        results
    }

    /// `>`: evaluates and prints every expression on the stack, from the top, until
    /// the stack is empty or an expression is incomplete.
    fn flush(&mut self, out: &mut Vec<Output>)
        requires
            old(self).wf(),
        ensures
            final(self).wf(),
            final(out)@.len() >= old(out)@.len(),
            final(out)@.subrange(0, old(out)@.len() as int) == old(out)@,
            flushes_all(
                old(self).stack@,
                old(self).table@,
                final(self).stack@,
                final(self).table@,
                final(out)@.skip(old(out)@.len() as int),
            ),

    {
        let ghost start = out@.len() as int;
        let results = self.compute_all();
        let ghost rs = results_view(results@);
        let mut i: usize = 0;
        assert(out@.skip(start) =~= Seq::<Output>::empty());
        assert(rs.subrange(0, 0) =~= Seq::<Result<Q, Failure>>::empty());
        while i < results.len()
            invariant
                0 <= start <= out@.len(),
                i <= results@.len(),
                rs == results_view(results@),
                out@.subrange(0, start) == old(out)@,
                reports_all(out@.skip(start), rs.subrange(0, i as int)),
            decreases results@.len() - i,
        {
            let ghost before = out@;
            match &results[i] {
                Ok(v) => {
                    out.push(Output::Line(value_line("> ", v)));
                    assert(out@.subrange(0, before.len() as int) =~= before);
                },
                Err(f) => {
                    report_failure(f, out);
                },
            }
            proof {
                assert(out@.subrange(0, before.len() as int) == before);
                assert(out@.subrange(0, start) =~= before.subrange(0, start));
                assert(reports(out@.skip(before.len() as int), result_view(results@[i as int]), "> "@));
                assert(out@.skip(start).subrange(0, before.len() - start) =~= before.skip(start));
                assert(out@.skip(start).skip(before.len() - start) =~= out@.skip(
                    before.len() as int,
                ));
                lemma_reports_extend(
                    before.skip(start),
                    out@.skip(start),
                    rs.subrange(0, i as int),
                    result_view(results@[i as int]),
                );
                assert(rs.subrange(0, i as int).push(result_view(results@[i as int])) =~= rs.subrange(
                    0,
                    i as int + 1,
                ));
            }
            i = i + 1;
        }
        assert(rs.subrange(0, i as int) =~= rs);

    }

    /// `:`: prints every token on the stack, left to right, without evaluating.
    fn print_stack(&self, out: &mut Vec<Output>)
        ensures
            final(out)@ == old(out)@.push(final(out)@.last()),
            is_line(final(out)@.last(), stack_text(self.stack@)),
    {
        let mut text = String::new();
        let mut i: usize = 0;
        proof {
            reveal_strlit(" ");
            assert(self.stack@.subrange(0, 0) =~= Seq::<Token>::empty());
        }
        while i < self.stack.len()
            invariant
                i <= self.stack@.len(),
                text@ == stack_text(self.stack@.subrange(0, i as int)),
            decreases self.stack@.len() - i,
        {
            let t = token_line(&self.stack[i]);
            text.append(t.as_str());
            text.append(" ");
            proof {
                reveal_strlit(" ");
                let pre = self.stack@.subrange(0, i as int + 1);
                assert(pre.drop_last() =~= self.stack@.subrange(0, i as int));
                assert(pre.last() == self.stack@[i as int]);
                assert(text@ =~= stack_text(pre));
            }
            i = i + 1;
        }
        assert(self.stack@.subrange(0, i as int) =~= self.stack@);
        out.push(Output::Line(text));
    }

    /// `!`: removes the complete expression on top of the stack without evaluating
    /// it; when the stack runs out first, the stack is emptied.
    fn drop_top(&mut self)
        requires
            old(self).wf(),
        ensures
            final(self).wf(),
            final(self).table@ == old(self).table@,
            final(self).stack@ == match extract(
                old(self).stack@,
                old(self).table@,
                None,
                old(self).stack@.len() as int,
            ) {
                Some(j) => old(self).stack@.subrange(0, j),
                None => Seq::<Token>::empty(),
            },
    {
        let len = self.stack.len();
        let ghost s = self.stack@;
        match find_expression(&self.stack, &self.table, None, len) {
            Found::FoundAt(j) => {
                self.stack.truncate(j);
                assert forall|k: int| 0 <= k < self.stack@.len() implies (
                #[trigger] self.stack@[k]).is_operand() && token_valid(self.stack@[k]) by {
                    assert(self.stack@[k] == s[k]);
                }
            },
            Found::NotFound => {
                self.stack.clear();
            },
        }
    }

    /// `name|N`: takes the complete expression on top of the stack, where `name`
    /// itself has arity `N`, as the body of the function `name` of `N` arguments.
    fn assign_function(&mut self, name: String, arity: usize, out: &mut Vec<Output>)
        requires
            old(self).wf(),
        ensures
            final(self).wf(),
            final(out)@.len() >= old(out)@.len(),
            final(out)@.subrange(0, old(out)@.len() as int) == old(out)@,
            assigns_function(
                old(self).stack@,
                old(self).table@,
                final(self).stack@,
                final(self).table@,
                final(out)@.skip(old(out)@.len() as int),
                name@,
                arity,
            ),

    {
        let len = self.stack.len();
        let ghost s = self.stack@;
        let ghost tb = self.table@;
        let ghost own = Some((name@, arity as nat));
        proof {
            lemma_extract_is_first_complete(s, tb, own, len as int);
        }
        match find_expression(&self.stack, &self.table, Some((&name, arity)), len) {
            Found::FoundAt(j) => {
                let zero = ratio_zero();
                let ph = ExecTree { token: Token::Number(zero), arguments: Vec::new() };
                let ghost ph_view = ph;
                self.table.insert(name.clone(), Object::Function(arity, ph));
                let ghost tb2 = self.table@;
                let expr = self.stack.split_off(j);
                proof {
                    assert(tree_valid(ph_view));
                    assert(object_valid(Object::Function(arity, ph_view)));
                    assert forall|k: Seq<char>| tb2.contains_key(k) implies object_valid(
                        #[trigger] tb2[k],
                    ) by {
                        if k != name@ {
                            assert(tb2[k] == tb[k]);
                        }
                    }
                    let sl = s.subrange(j as int, len as int);
                    assert(sl == expr@);
                    assert forall|k: int| j <= k < len implies (#[trigger] s[k]).arity(tb2, None)
                        == s[k].arity(tb, own) by {}
                    lemma_need_same_arities(s, tb2, None, tb, own, j as int, len as int);
                    assert forall|m: int| 0 <= m <= sl.len() implies need(
                        sl,
                        tb2,
                        None,
                        m,
                        sl.len() as int,
                    ) == need(s, tb, own, m + j, len as int) by {
                        lemma_need_slice(s, tb2, None, j as int, m + j, len as int);
                        lemma_need_same_arities(s, tb2, None, tb, own, m + j, len as int);
                    }
                    assert forall|k: int| 0 <= k < sl.len() implies (#[trigger] sl[k]).is_operand()
                        && token_valid(sl[k]) by {
                        assert(sl[k] == s[k + j]);
                    }
                    assert(is_complete(sl, tb2));
                    assert forall|k: int| 0 <= k < self.stack@.len() implies (
                    #[trigger] self.stack@[k]).is_operand() && token_valid(self.stack@[k]) by {
                        assert(self.stack@[k] == s[k]);
                    }
                }
                let body = parse_tree(expr, &self.table);
                let ghost body_view = body;
                self.table.insert(name, Object::Function(arity, body));
                proof {
                    assert(self.table@ =~= tb.insert(name@, self.table@[name@]));
                    assert forall|k: Seq<char>| self.table@.contains_key(k) implies object_valid(
                        #[trigger] self.table@[k],
                    ) by {
                        if k != name@ {
                            assert(self.table@[k] == tb[k]);
                        }
                    }
                    assert(tree_of(
                        body_view,
                        s.subrange(j as int, len as int),
                        tb.insert(name@, Object::Function(arity, ph_view)),
                    ));
                }
            },
            Found::NotFound => {
                out.push(
                    Output::Diagnostic(String::from_str("Incomplete function declaration")),
                );
                assert(out@.subrange(0, old(out)@.len() as int) =~= old(out)@);
            },
        }
    }

    /// `name@N`: takes the `N + 2` complete expressions on top of the stack, where
    /// `name` itself has arity `N`, as an iterative: left to right, the `N` updates,
    /// the finalizer and the condition. When fewer are there, nothing changes.
    #[verifier::rlimit(100)]
    fn assign_iterative(&mut self, name: String, arity: usize, out: &mut Vec<Output>)
        requires
            old(self).wf(),
        ensures
            final(self).wf(),
            final(out)@.len() >= old(out)@.len(),
            final(out)@.subrange(0, old(out)@.len() as int) == old(out)@,
            assigns_iterative(
                old(self).stack@,
                old(self).table@,
                final(self).stack@,
                final(self).table@,
                final(out)@.skip(old(out)@.len() as int),
                name@,
                arity,
            ),

    {
        let len = self.stack.len();
        let ghost s = self.stack@;
        let ghost tb = self.table@;
        let ghost own = Some((name@, arity as nat));
        if len == 0 || arity >= len - 1 {
            proof {
                lemma_starts_too_many(s, tb, own, len as int, arity as nat + 2);
            }
            out.push(Output::Diagnostic(String::from_str("Incomplete function declaration")));
            assert(out@.subrange(0, old(out)@.len() as int) =~= old(out)@);
            return ;
        }
        let total = arity + 2;
        let mut indices: Vec<usize> = Vec::new();
        let mut index = len;
        let mut k: usize = 0;
        while k < total
            invariant
                total == arity + 2,
                total <= len,
                len == s.len(),
                forall|q: int| 0 <= q < indices@.len() ==> (#[trigger] indices@[q]) < len,
                s == self.stack@,
                tb == self.table@,
                own == Some((name@, arity as nat)),
                self.wf(),
                k <= total,
                indices@.len() == k,
                index <= len,
                k == 0 ==> index == len,
                k > 0 ==> index == indices@[k - 1],
                forall|m: int|
                    0 <= m < k ==> extract(
                        s,
                        tb,
                        own,
                        if m == 0 {
                            len as int
                        } else {
                            indices@[m - 1] as int
                        },
                    ) == Some(#[trigger] indices@[m] as int),
                starts(s, tb, own, len as int, total as nat) == match starts(
                    s,
                    tb,
                    own,
                    index as int,
                    (total - k) as nat,
                ) {
                    Some(r) => Some(indices@.map_values(|x: usize| x as int) + r),
                    None => None::<Seq<int>>,
                },
                old(out)@ == out@,
            decreases total - k,
        {
            match find_expression(&self.stack, &self.table, Some((&name, arity)), index) {
                Found::FoundAt(j) => {
                    let ghost before = indices@;
                    indices.push(j);
                    proof {
                        assert forall|q: int| 0 <= q < indices@.len() implies (
                        #[trigger] indices@[q]) < len by {
                            if q < k {
                                assert(indices@[q] == before[q]);
                            }
                        }
                        assert(indices@.map_values(|x: usize| x as int) =~= before.map_values(
                            |x: usize| x as int,
                        ) + seq![j as int]);
                        match starts(s, tb, own, j as int, (total - k - 1) as nat) {
                            Some(r) => {
                                assert(before.map_values(|x: usize| x as int) + (seq![j as int]
                                    + r) =~= indices@.map_values(|x: usize| x as int) + r);
                            },
                            None => {},
                        }
                        assert forall|m: int| 0 <= m < k + 1 implies extract(
                            s,
                            tb,
                            own,
                            if m == 0 {
                                len as int
                            } else {
                                indices@[m - 1] as int
                            },
                        ) == Some(#[trigger] indices@[m] as int) by {
                            if m < k {
                                assert(indices@[m] == before[m]);
                                if m > 0 {
                                    assert(indices@[m - 1] == before[m - 1]);
                                }
                            }
                        }
                    }
                    index = j;
                },
                Found::NotFound => {
                    out.push(
                        Output::Diagnostic(String::from_str("Incomplete function declaration")),
                    );
                    assert(out@.subrange(0, old(out)@.len() as int) =~= old(out)@);
                    return ;
                },
            }
            k = k + 1;
        }
        assert(starts(s, tb, own, index as int, 0) == Some(Seq::<int>::empty()));
        let ghost b = indices@.map_values(|x: usize| x as int);
        assert(b + Seq::<int>::empty() =~= b);
        let zero = ratio_zero();
        let ph = ExecTree { token: Token::Number(zero), arguments: Vec::new() };
        let ghost ph_view = ph;
        self.table.insert(name.clone(), Object::Function(arity, ph));
        let ghost tb2 = self.table@;
        proof {
            assert(tree_valid(ph_view));
            assert forall|key: Seq<char>| tb2.contains_key(key) implies object_valid(
                #[trigger] tb2[key],
            ) by {
                if key != name@ {
                    assert(tb2[key] == tb[key]);
                }
            }
        }
        let mut trees: Vec<ExecTree> = Vec::new();
        let mut m: usize = 0;
        while m < total
            invariant
                total == arity + 2,
                len == s.len(),
                all_operands(s),
                tokens_valid(s),
                tb2 == self.table@,
                tb2 == tb.insert(name@, Object::Function(arity, ph_view)),
                own == Some((name@, arity as nat)),
                table_valid(tb2),
                indices@.len() == total,
                forall|q: int| 0 <= q < indices@.len() ==> (#[trigger] indices@[q]) < len,
                b == indices@.map_values(|x: usize| x as int),
                m <= total,
                trees@.len() == m,
                forall|q: int|
                    0 <= q < total ==> extract(
                        s,
                        tb,
                        own,
                        if q == 0 {
                            len as int
                        } else {
                            indices@[q - 1] as int
                        },
                    ) == Some(#[trigger] indices@[q] as int),
                self.stack@ == s.subrange(
                    0,
                    if m == 0 {
                        len as int
                    } else {
                        b[m - 1]
                    },
                ),
                forall|q: int| 0 <= q < m ==> tree_valid(#[trigger] trees@[q]),
                forall|q: int|
                    0 <= q < m ==> tree_of(
                        #[trigger] trees@[q],
                        s.subrange(
                            b[q],
                            if q == 0 {
                                len as int
                            } else {
                                b[q - 1]
                            },
                        ),
                        tb2,
                    ),
            decreases total - m,
        {
            let ghost hi: int = if m == 0 {
                len as int
            } else {
                b[m - 1]
            };
            let j = indices[m];
            proof {
                assert(b[m as int] == j as int);
                if m > 0 {
                    assert(indices@[m - 1] < len);
                }
                lemma_found_slice_complete(s, tb, name@, arity, ph_view, j as int, hi);
                if m > 0 {
                    assert(b[m - 1] == indices@[m - 1] as int);
                }
            }
            let expr = self.stack.split_off(j);
            proof {
                assert(expr@ =~= s.subrange(j as int, hi));
                assert(self.stack@ =~= s.subrange(0, j as int));
            }
            let tree = parse_tree(expr, &self.table);
            let ghost before = trees@;
            trees.push(tree);
            proof {
                assert forall|q: int| 0 <= q < m + 1 implies tree_valid(#[trigger] trees@[q])
                    && tree_of(
                    trees@[q],
                    s.subrange(
                        b[q],
                        if q == 0 {
                            len as int
                        } else {
                            b[q - 1]
                        },
                    ),
                    tb2,
                ) by {
                    if q < m {
                        assert(trees@[q] == before[q]);
                    }
                }
            }
            m = m + 1;
        }
        let ghost all = trees@;
        let mut updates: Vec<ExecTree> = Vec::new();
        let mut u: usize = 0;
        while u < arity
            invariant
                u <= arity,
                total == arity + 2,
                all.len() == total,
                trees@.len() == total - u,
                trees@ == all.subrange(0, total - u),
                updates@.len() == u,
                forall|q: int| 0 <= q < u ==> #[trigger] updates@[q] == all[total - 1 - q],
            decreases arity - u,
        {
            let ghost before = trees@;
            let ghost done = updates@;
            let t = trees.pop().unwrap();
            proof {
                assert(t == all[total - 1 - u]);
                assert(trees@ =~= all.subrange(0, total - u - 1));
            }
            updates.push(t);
            proof {
                assert forall|q: int| 0 <= q < u + 1 implies #[trigger] updates@[q] == all[total - 1
                    - q] by {
                    if q < u {
                        assert(updates@[q] == done[q]);
                    }
                }
            }
            u = u + 1;
        }
        assert(trees@ =~= all.subrange(0, 2));
        let last = trees.pop().unwrap();
        assert(trees@ =~= all.subrange(0, 1));
        let cond = trees.pop().unwrap();
        let ghost uv = updates@;
        let ghost lv = last;
        let ghost cv = cond;
        self.table.insert(name, Object::Iterative(arity, updates, last, cond));
        proof {
            assert(lv == all[1] && cv == all[0]);
            assert(self.table@ =~= tb.insert(name@, self.table@[name@]));
            assert forall|key: Seq<char>| self.table@.contains_key(key) implies object_valid(
                #[trigger] self.table@[key],
            ) by {
                if key != name@ {
                    assert(self.table@[key] == tb[key]);
                } else {
                    assert forall|q: int| 0 <= q < uv.len() implies tree_valid(#[trigger] uv[q]) by {
                        assert(uv[q] == all[total - 1 - q]);
                    }
                }
            }
            assert(self.stack@ == s.subrange(0, b.last()));
            assert forall|q: int| 0 <= q < arity implies tree_of(
                #[trigger] uv[q],
                s.subrange(b[arity + 1 - q], b[arity - q]),
                tb2,
            ) by {
                assert(uv[q] == all[total - 1 - q]);
            }
            assert(tree_of(cv, s.subrange(b[0], len as int), tb2));
            assert(tree_of(lv, s.subrange(b[1], b[0]), tb2));
        }
    }

    /// Reacts to one token: expression tokens go on the stack; the others act on
    /// the stack and the table and say what they have to say.
    pub fn analyze(&mut self, token: Token, out: &mut Vec<Output>)
        requires
            old(self).wf(),
            token_valid(token),
        ensures
            final(self).wf(),
            final(out)@.len() >= old(out)@.len(),
            final(out)@.subrange(0, old(out)@.len() as int) == old(out)@,
            step(
                old(self).stack_view(),
                old(self).table_view(),
                token,
                final(self).stack_view(),
                final(self).table_view(),
                final(out)@.skip(old(out)@.len() as int),
            ),
    {
        match token {
            Token::Error => {
                out.push(Output::Diagnostic(String::from_str("Dropped unrecognized token!")));
                assert(out@.skip(old(out)@.len() as int) =~= seq![out@.last()]);
            },
            Token::Return => self.show_top(out),
            Token::Partial => self.show_partial(out),
            Token::Duplicate => self.duplicate(out),
            Token::Approx => self.approximate(out),
            Token::Format => self.format(out),
            Token::Flush => self.flush(out),
            Token::Print => {
                self.print_stack(out);
                assert(out@.skip(old(out)@.len() as int) =~= seq![out@.last()]);
            },
            Token::Empty => {
                self.stack.clear();
                assert(out@.skip(old(out)@.len() as int) =~= Seq::<Output>::empty());
            },
            Token::Drop => {
                self.drop_top();
                assert(out@.skip(old(out)@.len() as int) =~= Seq::<Output>::empty());
            },
            Token::AssignVariable(name) => self.assign_variable(name, out),
            Token::AssignFunction(name, arity) => self.assign_function(name, arity, out),
            Token::AssignIterative(name, arity) => self.assign_iterative(name, arity, out),
            _ => {
                let ghost s = self.stack@;
                self.stack.push(token);
                assert(out@.skip(old(out)@.len() as int) =~= Seq::<Output>::empty());
                assert forall|k: int| 0 <= k < self.stack@.len() implies (
                #[trigger] self.stack@[k]).is_operand() && token_valid(self.stack@[k]) by {
                    if k < s.len() {
                        assert(self.stack@[k] == s[k]);
                    }
                }
            },
        }
        assert(out@.subrange(0, old(out)@.len() as int) =~= old(out)@);
    }

    /// Reads a line of source text: each of its tokens in turn acts on the calculator,
    /// and the last line says how many tokens the stack holds.
    pub fn parse(&mut self, word: String) -> (r: Vec<Output>)
        requires
            old(self).wf(),
        ensures
            final(self).wf(),
            r@.len() >= 1,
            is_line(
                r@.last(),
                decimal_text(final(self).stack_view().len() as int) + " elements in stack"@,
            ),
            exists|ts: Seq<Token>, stacks: Seq<Seq<Token>>, tables: Seq<Map<Seq<char>, Object>>, cuts: Seq<int>|
                #[trigger] runs(ts, stacks, tables, r@.drop_last(), cuts) && tokens_match(
                    ts,
                    lexemes(word@, 0),
                ) && stacks[0] == old(self).stack_view() && tables[0] == old(self).table_view()
                    && stacks.last() == final(self).stack_view() && tables.last() == final(self).table_view(),
    {
        let tokens = lex(word.as_str());
        let ghost all = tokens@;
        let mut out: Vec<Output> = Vec::new();
        let ghost mut stacks: Seq<Seq<Token>> = seq![self.stack@];
        let ghost mut tables: Seq<Map<Seq<char>, Object>> = seq![self.table@];
        let ghost mut cuts: Seq<int> = seq![0int];
        let ghost s0 = self.stack@;
        let ghost t0 = self.table@;
        assert(all.subrange(0, 0) =~= Seq::<Token>::empty());
        for token in it: tokens
            invariant
                self.wf(),
                it.seq() == all,
                forall|k: int| 0 <= k < all.len() ==> token_valid(#[trigger] all[k]),
                runs(all.subrange(0, it.index() as int), stacks, tables, out@, cuts),
                stacks[0] == s0,
                tables[0] == t0,
                stacks.last() == self.stack@,
                tables.last() == self.table@,
        {
            let ghost k = it.index() as int;
            let ghost before = out@;
            let ghost st = self.stack@;
            let ghost tbl = self.table@;
            proof {
                assert(token_valid(all[k]));
                assert(all[k] == token);
            }
            self.analyze(token, &mut out);
            proof {
                lemma_runs_ends(all.subrange(0, k), stacks, tables, before, cuts);
                lemma_runs_extend(
                    all.subrange(0, k),
                    stacks,
                    tables,
                    before,
                    cuts,
                    token,
                    self.stack@,
                    self.table@,
                    out@,
                );
                assert(all.subrange(0, k).push(token) =~= all.subrange(0, k + 1));
                stacks = stacks.push(self.stack@);
                tables = tables.push(self.table@);
                cuts = cuts.push(out@.len() as int);
            }
        }
        let ghost body = out@;
        let mut last = count_text(self.stack.len());
        last.append(" elements in stack");
        out.push(Output::Line(last));
        proof {
            assert(all.subrange(0, all.len() as int) =~= all);
            assert(out@.drop_last() =~= body);
        }
        out
    }
}

} // verus!