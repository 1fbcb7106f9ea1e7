//! The expression extractor: which tokens on top of the stack make one complete
//! postfix expression.
use crate::execution::Object;
use crate::number::{big_abs, floor_abs_q, int_value, ratio_parts, ratio_trunc, valid_q};
use crate::token::Token;
use num_bigint::BigInt;
use num_rational::BigRational;
use vstd::hash_map::StringHashMap;
use vstd::prelude::*;

verus! {

/// Where a complete expression starts, if there is one.
#[derive(Clone, Copy, Debug)]
pub enum Found {
    NotFound,
    FoundAt(usize),
}

/// Why no expression could be taken off the stack.
#[derive(Clone, Copy, Debug)]
pub enum ExtractError {
    /// The stack ran out before the expression was complete.
    Incomplete,
    /// An argument stood in an expression outside any function.
    ArgumentOutsideFunction,
}

/// The name under definition and its declared arity, as the specifications see them.
pub open spec fn own_view(own: Option<(&String, usize)>) -> Option<(Seq<char>, nat)> {
    match own {
        Some(o) => Some((o.0@, o.1 as nat)),
        None => None,
    }
}

/// The extractor's counter: scanning leftward from `i` with `need` operands still
/// missing, each token adds its arity and fills one place; it stops when nothing is
/// missing, at the index reached.
pub open spec fn scan(
    s: Seq<Token>,
    table: Map<Seq<char>, Object>,
    own: Option<(Seq<char>, nat)>,
    i: int,
    need: int,
) -> Option<int>
    decreases i,
{
    if need == 0 {
        Some(i)
    } else if i <= 0 {
        None
    } else {
        scan(s, table, own, i - 1, need + s[i - 1].arity(table, own) - 1)
    }
}

/// Start of the complete expression that ends at `i`, if any.
pub open spec fn extract(
    s: Seq<Token>,
    table: Map<Seq<char>, Object>,
    own: Option<(Seq<char>, nat)>,
    i: int,
) -> Option<int> {
    scan(s, table, own, i, 1)
}

/// The counter after the tokens `[j, i)`: one, plus each token's arity, less one
/// for each token.
pub open spec fn need(
    s: Seq<Token>,
    table: Map<Seq<char>, Object>,
    own: Option<(Seq<char>, nat)>,
    j: int,
    i: int,
) -> int
    decreases i - j,
{
    if j >= i {
        1
    } else {
        need(s, table, own, j + 1, i) + s[j].arity(table, own) - 1
    }
}

pub open spec fn all_operands(s: Seq<Token>) -> bool {
    forall|k: int| 0 <= k < s.len() ==> (#[trigger] s[k]).is_operand()
}

/// Whether an `Argument` token stands in `[lo, hi)`.
pub open spec fn has_argument(s: Seq<Token>, lo: int, hi: int) -> bool {
    exists|k: int| lo <= k < hi && (#[trigger] s[k]) is Argument
}

proof fn lemma_scan_too_many(
    s: Seq<Token>,
    table: Map<Seq<char>, Object>,
    own: Option<(Seq<char>, nat)>,
    i: int,
    n: int,
)
    requires
        n > i,
        i >= 0,
    ensures
        scan(s, table, own, i, n) is None,
    decreases i,
{
    if i > 0 {
        lemma_scan_too_many(s, table, own, i - 1, n + s[i - 1].arity(table, own) - 1);
    }
}

/// Scanning with the counter equal to the cumulative count of the tokens to the
/// right finds the nearest index at which that count is zero, if any.
proof fn lemma_scan_need(
    s: Seq<Token>,
    table: Map<Seq<char>, Object>,
    own: Option<(Seq<char>, nat)>,
    i: int,
    i0: int,
)
    requires
        0 <= i <= i0 <= s.len(),
    ensures
        match scan(s, table, own, i, need(s, table, own, i, i0)) {
            Some(j) => 0 <= j <= i && need(s, table, own, j, i0) == 0 && forall|m: int|
                j < m <= i ==> need(s, table, own, m, i0) != 0,
            None => forall|m: int| 0 <= m <= i ==> need(s, table, own, m, i0) != 0,
        },
    decreases i,
{
    if need(s, table, own, i, i0) != 0 && i > 0 {
        assert(need(s, table, own, i - 1, i0) == need(s, table, own, i, i0) + s[i - 1].arity(
            table,
            own,
        ) - 1);
        lemma_scan_need(s, table, own, i - 1, i0);
    }
}

proof fn lemma_need_positive(
    s: Seq<Token>,
    table: Map<Seq<char>, Object>,
    own: Option<(Seq<char>, nat)>,
    j: int,
    m: int,
    i: int,
)
    requires
        j < m <= i <= s.len(),
        0 <= j,
        forall|k: int| j < k <= i ==> need(s, table, own, k, i) != 0,
    ensures
        need(s, table, own, m, i) > 0,
    decreases i - m,
{
    if m < i {
        lemma_need_positive(s, table, own, j, m + 1, i);
    }
}

/// The extractor finds `j` exactly when the tokens `[j, i)` have cumulative count
/// zero (the expression is complete there) and no shorter suffix does; it finds
/// nothing exactly when no suffix is complete.
pub proof fn lemma_extract_is_first_complete(
    s: Seq<Token>,
    table: Map<Seq<char>, Object>,
    own: Option<(Seq<char>, nat)>,
    i: int,
)
    requires
        0 <= i <= s.len(),
    ensures
        match extract(s, table, own, i) {
            Some(j) => 0 <= j < i && need(s, table, own, j, i) == 0 && forall|m: int|
                j < m <= i ==> need(s, table, own, m, i) > 0,
            None => forall|m: int| 0 <= m <= i ==> need(s, table, own, m, i) > 0,
        },
{
    assert(need(s, table, own, i, i) == 1);
    lemma_scan_need(s, table, own, i, i);
    match extract(s, table, own, i) {
        Some(j) => {
            assert forall|m: int| j < m <= i implies need(s, table, own, m, i) > 0 by {
                lemma_need_positive(s, table, own, j, m, i);
            }
        },
        None => {
            assert forall|m: int| 0 <= m <= i implies need(s, table, own, m, i) > 0 by {
                if m == 0 {
                    if i > 0 {
                        lemma_need_positive(s, table, own, 0, 1, i);
                    }
                } else {
                    lemma_need_positive(s, table, own, 0, m, i);
                }
            }
        },
    }
}

/// The counter over a slice is the counter over the same tokens in place.
pub proof fn lemma_need_slice(
    s: Seq<Token>,
    table: Map<Seq<char>, Object>,
    own: Option<(Seq<char>, nat)>,
    j: int,
    m: int,
    i: int,
)
    requires
        0 <= j <= m <= i <= s.len(),
    ensures
        need(s.subrange(j, i), table, own, m - j, i - j) == need(s, table, own, m, i),
    decreases i - m,
{
    if m < i {
        lemma_need_slice(s, table, own, j, m + 1, i);
        assert(s.subrange(j, i)[m - j] == s[m]);
    }
}

/// Two ways of counting that agree on every token give the same counter.
pub proof fn lemma_need_same_arities(
    s: Seq<Token>,
    t1: Map<Seq<char>, Object>,
    o1: Option<(Seq<char>, nat)>,
    t2: Map<Seq<char>, Object>,
    o2: Option<(Seq<char>, nat)>,
    m: int,
    i: int,
)
    requires
        0 <= m <= i <= s.len(),
        forall|k: int| m <= k < i ==> (#[trigger] s[k]).arity(t1, o1) == s[k].arity(t2, o2),
    ensures
        need(s, t1, o1, m, i) == need(s, t2, o2, m, i),
    decreases i - m,
{
    if m < i {
        lemma_need_same_arities(s, t1, o1, t2, o2, m + 1, i);
    }
}

impl Object {
    /// The number of arguments this entry takes when it is called.
    pub fn arity_of(&self) -> (r: usize)
        ensures
            r == self.arity(),
    {
        match self {
            Object::Variable(_) => 0,
            Object::Function(a, _) => *a,
            Object::Iterative(a, _, _, _) => *a,
        }
    }
}

/// Arity of an operand token under the table, with the name being defined, if any,
/// at its declared arity.
pub fn operand_arity(
    token: &Token,
    table: &StringHashMap<Object>,
    own: Option<(&String, usize)>,
) -> (r: usize)
    ensures
        r == token.arity(table@, own_view(own)),
{
    match token {
        Token::Identifier(name) => {
            if let Some((own_name, own_arity)) = own {
                if name.eq(own_name) {
                    return own_arity;
                }
            }
            match table.get(name.as_str()) {
                Some(object) => object.arity_of(),
                None => 0,
            }
        },
        Token::If | Token::ExpMod => 3,
        Token::Plus | Token::Minus | Token::Times | Token::Divide | Token::PositiveMinus
        | Token::IntegerDiv | Token::Exp => 2,
        _ => 0,
    }
}

/// Finds the complete expression that ends at `index`: scanning leftward with a
/// counter of missing operands that starts at one, it reports the index at which
/// the counter reaches zero.
pub fn find_expression(
    stack: &Vec<Token>,
    table: &StringHashMap<Object>,
    own: Option<(&String, usize)>,
    index: usize,
) -> (r: Found)
    requires
        index <= stack@.len(),
    ensures
        match r {
            Found::FoundAt(j) => j < index && extract(stack@, table@, own_view(own), index as int)
                == Some(j as int),
            Found::NotFound => extract(stack@, table@, own_view(own), index as int) is None,
        },
{
    let ghost s = stack@;
    let ghost o = own_view(own);
    let mut need: usize = 1;
    let mut i: usize = index;
    if i == 0 {
        return Found::NotFound;
    }
    while need > 0 && i > 0
        invariant
            i <= index <= s.len(),
            s == stack@,
            o == own_view(own),
            need <= i || need == 0,
            need == 0 ==> i < index,
            scan(s, table@, o, i as int, need as int) == scan(s, table@, o, index as int, 1),
        decreases i,
    {
        let a = operand_arity(&stack[i - 1], table, own);
        if a > i - need {
            proof {
                lemma_scan_too_many(s, table@, o, i - 1, need + a - 1);
            }
            return Found::NotFound;
        }
        need = need + a - 1;
        i = i - 1;
    }
    if need == 0 {
        Found::FoundAt(i)
    } else {
        Found::NotFound
    }
}

/// Whether an `Argument` stands in `stack[lo..hi)`.
fn contains_argument(stack: &Vec<Token>, lo: usize, hi: usize) -> (r: bool)
    requires
        lo <= hi <= stack@.len(),
    ensures
        r == has_argument(stack@, lo as int, hi as int),
{
    let mut k = lo;
    while k < hi
        invariant
            lo <= k <= hi <= stack@.len(),
            !has_argument(stack@, lo as int, k as int),
        decreases hi - k,
    {
        if let Token::Argument(_) = &stack[k] {
            return true;
        }
        k = k + 1;
    }
    false
}

/// Takes the complete expression on top of the stack off it, for evaluation outside
/// any function. The stack is left as it was when the expression is incomplete or
/// holds an argument.
pub fn clip_head(stack: &mut Vec<Token>, table: &StringHashMap<Object>) -> (r: Result<
    Vec<Token>,
    ExtractError,
>)
    ensures
        ({
            let s = old(stack)@;
            match extract(s, table@, None, s.len() as int) {
                Some(j) => if has_argument(s, j, s.len() as int) {
                    r == Err::<Vec<Token>, ExtractError>(ExtractError::ArgumentOutsideFunction)
                        && final(stack)@ == s
                } else {
                    r is Ok && r->Ok_0@ == s.subrange(j, s.len() as int) && final(stack)@
                        == s.subrange(0, j)
                },
                None => final(stack)@ == s && r == Err::<Vec<Token>, ExtractError>(
                    if has_argument(s, 0, s.len() as int) {
                        ExtractError::ArgumentOutsideFunction
                    } else {
                        ExtractError::Incomplete
                    },
                ),
            }
        }),
{
    let len = stack.len();
    match find_expression(stack, table, None, len) {
        Found::FoundAt(j) => {
            if contains_argument(stack, j, len) {
                Err(ExtractError::ArgumentOutsideFunction)
            } else {
                Ok(stack.split_off(j))
            }
        },
        Found::NotFound => {
            if contains_argument(stack, 0, len) {
                Err(ExtractError::ArgumentOutsideFunction)
            } else {
                Err(ExtractError::Incomplete)
            }
        },
    }
}

/// The floor of `|x|`: `x` rounded towards zero, without its sign.
pub fn floor_abs(x: &BigRational) -> (r: BigInt)
    requires
        valid_q(ratio_parts(*x)),
    ensures
        int_value(r) == floor_abs_q(ratio_parts(*x)),
{
    let t = ratio_trunc(x);
    big_abs(&t)
}

} // verus!
