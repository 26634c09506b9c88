use vstd::prelude::*;
use std::collections::HashMap;
use crate::error::ExecError;
use crate::token::Token;

verus! {

broadcast use vstd::std_specs::hash::group_hash_axioms;

/// How a token changes the loop nesting depth.
pub open spec fn delta(t: Token) -> int {
    match t {
        Token::OpenBrace => 1,
        Token::CloseBrace => -1,
        _ => 0,
    }
}

/// Opens minus closes among the first `i` tokens.
pub open spec fn depth(ts: Seq<Token>, i: int) -> int
    decreases i,
{
    if i <= 0 || ts.len() < i {
        0
    } else {
        depth(ts, i - 1) + delta(ts[i - 1])
    }
}

pub open spec fn is_brace(t: Token) -> bool {
    t == Token::OpenBrace || t == Token::CloseBrace
}

/// No prefix closes more loops than it opens.
pub open spec fn never_negative(ts: Seq<Token>) -> bool {
    forall|k: int| 0 <= k <= ts.len() ==> depth(ts, k) >= 0
}

/// Every `[` has its `]` and the two nest properly.
pub open spec fn balanced(ts: Seq<Token>) -> bool {
    never_negative(ts) && depth(ts, ts.len() as int) == 0
}

/// The `[` at `o` is closed by the `]` at `c`.
pub open spec fn matching(ts: Seq<Token>, o: int, c: int) -> bool {
    &&& 0 <= o < c < ts.len()
    &&& ts[o] == Token::OpenBrace
    &&& ts[c] == Token::CloseBrace
    &&& depth(ts, c + 1) == depth(ts, o)
    &&& forall|k: int| o < k <= c ==> depth(ts, k) > depth(ts, o)
}

/// The `]` at `p` is the first one with no open loop to close.
pub open spec fn unmatched_close_at(ts: Seq<Token>, p: int) -> bool {
    &&& 0 <= p < ts.len()
    &&& depth(ts, p + 1) < 0
    &&& forall|k: int| 0 <= k <= p ==> depth(ts, k) >= 0
}

/// No `]` is unmatched, and the `[` at `p` is the last one left open.
pub open spec fn unmatched_open_at(ts: Seq<Token>, p: int) -> bool {
    &&& never_negative(ts)
    &&& 0 <= p < ts.len()
    &&& ts[p] == Token::OpenBrace
    &&& depth(ts, p) == depth(ts, ts.len() as int) - 1
    &&& forall|k: int| p < k <= ts.len() ==> #[trigger] depth(ts, k) >= depth(ts, ts.len() as int)
}

/// `m` maps each brace of `ts` to its partner and nothing else.
pub open spec fn is_jump_table(ts: Seq<Token>, m: Map<usize, usize>) -> bool {
    &&& forall|k: usize| #[trigger] m.contains_key(k) <==> (k < ts.len() && is_brace(ts[k as int]))
    &&& forall|k: usize|
        #[trigger] m.contains_key(k) ==> matching(ts, k as int, m[k] as int) || matching(
            ts,
            m[k] as int,
            k as int,
        )
    &&& forall|k: usize| #[trigger] m.contains_key(k) ==> m.contains_key(m[k]) && m[m[k]] == k
}

/// Builds the jump table of a token sequence: each `[` to its `]` and back.
pub fn build_brace_list(input: &Vec<Token>) -> (r: Result<HashMap<usize, usize>, ExecError>)
    ensures
        match r {
            Ok(m) => balanced(input@) && is_jump_table(input@, m@),
            Err(e) => !balanced(input@) && match e {
                ExecError::BracketMismatch { position } => unmatched_close_at(
                    input@,
                    position as int,
                ) || unmatched_open_at(input@, position as int),
                _ => false,
            },
        },
{
    let ghost ts = input@;
    let mut stack: Vec<usize> = Vec::new();
    let mut brace_list: HashMap<usize, usize> = HashMap::new();
    let mut i: usize = 0;
    while i < input.len()
        invariant
            ts == input@,
            i <= ts.len(),
            forall|k: int| 0 <= k <= i ==> depth(ts, k) >= 0,
            stack@.len() == depth(ts, i as int),
            forall|a: int, b: int| 0 <= a < b < stack@.len() ==> stack@[a] < stack@[b],
            forall|l: int|
                #![trigger stack@[l]]
                0 <= l < stack@.len() ==> {
                    &&& stack@[l] < i
                    &&& ts[stack@[l] as int] == Token::OpenBrace
                    &&& depth(ts, stack@[l] as int) == l
                    &&& forall|k: int| stack@[l] < k <= i ==> depth(ts, k) > l
                },
            forall|k: usize|
                #[trigger] brace_list@.contains_key(k) <==> (k < i && is_brace(ts[k as int])
                    && !stack@.contains(k)),
            forall|k: usize|
                #[trigger] brace_list@.contains_key(k) ==> matching(
                    ts,
                    k as int,
                    brace_list@[k] as int,
                ) || matching(ts, brace_list@[k] as int, k as int),
            forall|k: usize|
                #[trigger] brace_list@.contains_key(k) ==> brace_list@.contains_key(brace_list@[k])
                    && brace_list@[brace_list@[k]] == k,
        decreases ts.len() - i,
    {
        assert(depth(ts, i + 1) == depth(ts, i as int) + delta(ts[i as int]));
        let t = input[i];
        let ghost old_stack = stack@;
        let ghost old_list = brace_list@;
        if t == Token::OpenBrace {
            stack.push(i);
            assert forall|k: usize| #[trigger] brace_list@.contains_key(k) <==> (k < i + 1
                && is_brace(ts[k as int]) && !stack@.contains(k)) by {
                if k < i {
                    if old_stack.contains(k) {
                        let j = choose|j: int| 0 <= j < old_stack.len() && old_stack[j] == k;
                        assert(stack@[j] == k);
                    }
                    if stack@.contains(k) {
                        let j = choose|j: int| 0 <= j < stack@.len() && stack@[j] == k;
                        assert(j < old_stack.len());
                        assert(old_stack[j] == k);
                    }
                }
                if k == i {
                    assert(stack@[stack@.len() - 1] == k);
                }
            }
        } else if t == Token::CloseBrace {
            match stack.pop() {
                Some(start) => {
                    assert(old_stack[old_stack.len() - 1] == start);
                    assert(stack@ == old_stack.drop_last());
                    assert(matching(ts, start as int, i as int));
                    brace_list.insert(start, i);
                    brace_list.insert(i, start);
                    assert forall|k: usize| #[trigger] brace_list@.contains_key(k) <==> (k < i + 1
                        && is_brace(ts[k as int]) && !stack@.contains(k)) by {
                        if stack@.contains(k) {
                            let j = choose|j: int| 0 <= j < stack@.len() && stack@[j] == k;
                            assert(old_stack[j] == k);
                            assert(k < start);
                        }
                        if k < i && k != start && old_stack.contains(k) {
                            let j = choose|j: int| 0 <= j < old_stack.len() && old_stack[j] == k;
                            assert(j < stack@.len());
                            assert(stack@[j] == k);
                        }
                    }
                },
                None => {
                    return Err(ExecError::BracketMismatch { position: i });
                },
            }
        } else {
            assert forall|k: usize| #[trigger] brace_list@.contains_key(k) <==> (k < i + 1
                && is_brace(ts[k as int]) && !stack@.contains(k)) by {
                if k == i {
                    if stack@.contains(k) {
                        let j = choose|j: int| 0 <= j < stack@.len() && stack@[j] == k;
                    }
                }
            }
        }
        i = i + 1;
    }
    match stack.pop() {
        Some(start) => Err(ExecError::BracketMismatch { position: start }),
        None => Ok(brace_list),
    }
}

} // verus!
