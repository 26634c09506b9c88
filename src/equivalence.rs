use vstd::prelude::*;
use crate::lexer::{fold_seq, merged, mergeable};
use crate::loops::{balanced, delta, depth, is_jump_table, matching};
use crate::machine::{
    Config, DATA_SIZE, MachineState, fail_config, lemma_run_one, lemma_run_split,
    lemma_stopped_later, lemma_stopped_stays, run_n, run_step, start_config, state_ok, stopped,
    wrap_add, wrap_sub,
};
use crate::token::Token;

verus! {

/// The four commands that carry a count.
pub open spec fn is_unit(t: Token) -> bool {
    match t {
        Token::RightAngle(_) | Token::LeftAngle(_) | Token::Plus(_) | Token::Minus(_) => true,
        _ => false,
    }
}

/// The count of a unit command; 0 for the others.
pub open spec fn unit_count(t: Token) -> int {
    match t {
        Token::RightAngle(n) | Token::LeftAngle(n) | Token::Plus(n) | Token::Minus(n) => n as int,
        _ => 0,
    }
}

/// Both are the same unit command, whatever their counts.
pub open spec fn same_kind(a: Token, b: Token) -> bool {
    match (a, b) {
        (Token::RightAngle(_), Token::RightAngle(_)) => true,
        (Token::LeftAngle(_), Token::LeftAngle(_)) => true,
        (Token::Plus(_), Token::Plus(_)) => true,
        (Token::Minus(_), Token::Minus(_)) => true,
        _ => false,
    }
}

/// The counts of `ts[a..b]` added up.
pub open spec fn count_sum(ts: Seq<Token>, a: int, b: int) -> int
    decreases b - a,
{
    if b <= a {
        0
    } else {
        count_sum(ts, a, b - 1) + unit_count(ts[b - 1])
    }
}

/// For each folded token, the index in `ts` where the tokens it stands for begin.
pub open spec fn fold_starts(ts: Seq<Token>) -> Seq<int>
    decreases ts.len(),
{
    if ts.len() == 0 {
        Seq::empty()
    } else {
        let out = fold_seq(ts.drop_last());
        let st = fold_starts(ts.drop_last());
        if out.len() > 0 && mergeable(out.last(), ts.last()) {
            st
        } else {
            st.push(ts.len() - 1)
        }
    }
}

/// Where in `ts` the folded position `j` begins; the end of `ts` for the
/// position just past the last folded token.
pub open spec fn origin(ts: Seq<Token>, j: int) -> int {
    if 0 <= j < fold_starts(ts).len() {
        fold_starts(ts)[j]
    } else {
        ts.len() as int
    }
}

/// `ts[a..b]` is what the folded token `f` stands for.
pub open spec fn block_ok(ts: Seq<Token>, a: int, b: int, f: Token) -> bool {
    if is_unit(f) {
        &&& a < b
        &&& forall|i: int| a <= i < b ==> same_kind(#[trigger] ts[i], f)
        &&& count_sum(ts, a, b) == unit_count(f)
    } else {
        b == a + 1 && ts[a] == f
    }
}

/// Index `i` of `ts` lies in the tokens that folded position `j` stands for.
pub open spec fn in_block(ts: Seq<Token>, i: int, j: int) -> bool {
    0 <= j < fold_starts(ts).len() && fold_starts(ts)[j] <= i < origin(ts, j + 1)
}

/// Some folded token stands for index `i` of `ts`.
pub open spec fn covered(ts: Seq<Token>, i: int) -> bool {
    exists|j: int| #[trigger] in_block(ts, i, j)
}

/// How the folded sequence lies over the original one.
#[verifier::opaque]
pub open spec fn fold_layout(ts: Seq<Token>) -> bool {
    let f = fold_seq(ts);
    let p = fold_starts(ts);
    &&& p.len() == f.len()
    &&& ts.len() == 0 <==> f.len() == 0
    &&& f.len() > 0 ==> p[0] == 0
    &&& forall|j: int| 0 <= j < p.len() ==> 0 <= #[trigger] p[j] < origin(ts, j + 1) <= ts.len()
    &&& forall|j: int, k: int| 0 <= j < k < p.len() ==> p[j] < p[k]
    &&& forall|j: int| 0 <= j < f.len() ==> block_ok(ts, p[j], origin(ts, j + 1), #[trigger] f[j])
    &&& forall|j: int| 0 <= j < f.len() ==> depth(ts, #[trigger] p[j]) == depth(f, j)
    &&& depth(ts, ts.len() as int) == depth(f, f.len() as int)
    &&& forall|i: int| 0 <= i < ts.len() ==> #[trigger] covered(ts, i)
}

proof fn lemma_depth_prefix(a: Seq<Token>, b: Seq<Token>, i: int)
    requires
        0 <= i <= a.len(),
        i <= b.len(),
        forall|k: int| 0 <= k < i ==> a[k] == b[k],
    ensures
        depth(a, i) == depth(b, i),
    decreases i,
{
    if i > 0 {
        lemma_depth_prefix(a, b, i - 1);
    }
}

proof fn lemma_count_sum_prefix(a: Seq<Token>, b: Seq<Token>, lo: int, hi: int)
    requires
        0 <= lo,
        hi <= a.len(),
        hi <= b.len(),
        forall|k: int| 0 <= k < hi ==> a[k] == b[k],
    ensures
        count_sum(a, lo, hi) == count_sum(b, lo, hi),
    decreases hi - lo,
{
    if hi > lo {
        lemma_count_sum_prefix(a, b, lo, hi - 1);
    }
}

proof fn lemma_layout_common(ts: Seq<Token>)
    requires
        ts.len() > 0,
    ensures
        forall|k: int| 0 <= k < ts.len() - 1 ==> ts.drop_last()[k] == ts[k],
        forall|k: int| 0 <= k <= ts.len() - 1 ==> depth(ts, k) == depth(ts.drop_last(), k),
        depth(ts, ts.len() as int) == depth(ts.drop_last(), ts.len() - 1) + delta(ts.last()),
        forall|lo: int, hi: int|
            0 <= lo && hi <= ts.len() - 1 ==> count_sum(ts, lo, hi) == count_sum(
                ts.drop_last(),
                lo,
                hi,
            ),
{
    let ts0 = ts.drop_last();
    let n = ts.len() - 1;
    assert forall|k: int| 0 <= k <= n implies depth(ts, k) == depth(ts0, k) by {
        lemma_depth_prefix(ts, ts0, k);
    }
    assert forall|lo: int, hi: int| 0 <= lo && hi <= n implies count_sum(ts, lo, hi)
        == count_sum(ts0, lo, hi) by {
        lemma_count_sum_prefix(ts, ts0, lo, hi);
    }
}

proof fn lemma_layout_merge(ts: Seq<Token>)
    requires
        ts.len() > 0,
        fold_layout(ts.drop_last()),
        fold_seq(ts.drop_last()).len() > 0,
        mergeable(fold_seq(ts.drop_last()).last(), ts.last()),
    ensures
        fold_layout(ts),
{
    reveal(fold_layout);
    lemma_layout_common(ts);
    let ts0 = ts.drop_last();
    let f0 = fold_seq(ts0);
    let p0 = fold_starts(ts0);
    let f = fold_seq(ts);
    let p = fold_starts(ts);
    let t = ts.last();
    let n = ts.len() - 1;
    let m = f0.len() - 1;
    assert(f == f0.drop_last().push(merged(f0.last(), t)));
    assert(p == p0);
    assert forall|k: int| 0 <= k <= m implies depth(f, k) == depth(f0, k) by {
        lemma_depth_prefix(f, f0, k);
    }
    assert(depth(f, f.len() as int) == depth(f, m) + delta(f[m]));
    assert(depth(f0, f0.len() as int) == depth(f0, m) + delta(f0[m]));
    assert(count_sum(ts, p[m], ts.len() as int) == count_sum(ts, p[m], n) + unit_count(t));
    assert(block_ok(ts0, p0[m], origin(ts0, m + 1), f0[m]));
    assert(block_ok(ts, p[m], origin(ts, m + 1), f[m]));
    assert forall|j: int| 0 <= j < f.len() implies block_ok(
        ts,
        p[j],
        origin(ts, j + 1),
        #[trigger] f[j],
    ) by {
        if j < m {
            assert(origin(ts, j + 1) == origin(ts0, j + 1));
            assert(block_ok(ts0, p0[j], origin(ts0, j + 1), f0[j]));
        }
    }
    assert forall|i: int| 0 <= i < ts.len() implies #[trigger] covered(ts, i) by {
        if i < n {
            assert(covered(ts0, i));
            let j = choose|j: int| #[trigger] in_block(ts0, i, j);
            assert(in_block(ts, i, j));
        } else {
            assert(in_block(ts, i, m));
        }
    }
}

proof fn lemma_push_blocks(ts: Seq<Token>)
    requires
        ts.len() > 0,
        fold_layout(ts.drop_last()),
        fold_seq(ts) == fold_seq(ts.drop_last()).push(ts.last()),
        fold_starts(ts) == fold_starts(ts.drop_last()).push(ts.len() - 1),
    ensures
        forall|j: int|
            0 <= j < fold_seq(ts).len() ==> block_ok(
                ts,
                fold_starts(ts)[j],
                origin(ts, j + 1),
                #[trigger] fold_seq(ts)[j],
            ),
        forall|i: int| 0 <= i < ts.len() ==> #[trigger] covered(ts, i),
{
    reveal(fold_layout);
    lemma_layout_common(ts);
    let ts0 = ts.drop_last();
    let f0 = fold_seq(ts0);
    let p0 = fold_starts(ts0);
    let f = fold_seq(ts);
    let p = fold_starts(ts);
    let n = ts.len() - 1;
    let m = f0.len() as int;
    assert(count_sum(ts, n, n) == 0);
    assert(count_sum(ts, n, ts.len() as int) == unit_count(ts.last()));
    assert forall|j: int| 0 <= j < f.len() implies block_ok(
        ts,
        p[j],
        origin(ts, j + 1),
        #[trigger] f[j],
    ) by {
        if j < m {
            assert(origin(ts, j + 1) == origin(ts0, j + 1));
            assert(block_ok(ts0, p0[j], origin(ts0, j + 1), f0[j]));
        }
    }
    assert forall|i: int| 0 <= i < ts.len() implies #[trigger] covered(ts, i) by {
        if i < n {
            assert(covered(ts0, i));
            let j = choose|j: int| #[trigger] in_block(ts0, i, j);
            assert(in_block(ts, i, j));
        } else {
            assert(in_block(ts, i, m));
        }
    }
}

proof fn lemma_layout_push(ts: Seq<Token>)
    requires
        ts.len() > 0,
        fold_layout(ts.drop_last()),
        !(fold_seq(ts.drop_last()).len() > 0 && mergeable(
            fold_seq(ts.drop_last()).last(),
            ts.last(),
        )),
    ensures
        fold_layout(ts),
{
    let ts0 = ts.drop_last();
    let f0 = fold_seq(ts0);
    let p0 = fold_starts(ts0);
    let f = fold_seq(ts);
    let p = fold_starts(ts);
    let t = ts.last();
    let n = ts.len() - 1;
    let m = f0.len() as int;
    assert(f == f0.push(t));
    assert(p == p0.push(n));
    lemma_push_blocks(ts);
    lemma_layout_common(ts);
    reveal(fold_layout);
    assert forall|k: int| 0 <= k <= m implies depth(f, k) == depth(f0, k) by {
        lemma_depth_prefix(f, f0, k);
    }
    assert(depth(f, f.len() as int) == depth(f, m) + delta(f[m]));
}

/// Folding never makes a sequence longer.
proof fn lemma_fold_len(ts: Seq<Token>)
    ensures
        fold_seq(ts).len() <= ts.len(),
    decreases ts.len(),
{
    if ts.len() > 0 {
        lemma_fold_len(ts.drop_last());
    }
}

/// The layout of the folded sequence over the original one.
proof fn lemma_fold_layout(ts: Seq<Token>)
    ensures
        fold_layout(ts),
    decreases ts.len(),
{
    if ts.len() == 0 {
        reveal(fold_layout);
    } else {
        lemma_fold_layout(ts.drop_last());
        if fold_seq(ts.drop_last()).len() > 0 && mergeable(fold_seq(ts.drop_last()).last(), ts.last()) {
            lemma_layout_merge(ts);
        } else {
            lemma_layout_push(ts);
        }
    }
}

proof fn lemma_layout_at(ts: Seq<Token>, j: int)
    requires
        fold_layout(ts),
        0 <= j < fold_seq(ts).len(),
    ensures
        fold_starts(ts).len() == fold_seq(ts).len(),
        0 <= fold_starts(ts)[j] < origin(ts, j + 1) <= ts.len(),
        block_ok(ts, fold_starts(ts)[j], origin(ts, j + 1), fold_seq(ts)[j]),
        depth(ts, fold_starts(ts)[j]) == depth(fold_seq(ts), j),
        depth(ts, origin(ts, j + 1)) == depth(fold_seq(ts), j + 1),
{
    reveal(fold_layout);
    let p = fold_starts(ts);
    let f = fold_seq(ts);
    if j + 1 < f.len() {
        assert(depth(ts, p[j + 1]) == depth(f, j + 1));
    }
}

proof fn lemma_layout_order(ts: Seq<Token>, j: int, k: int)
    requires
        fold_layout(ts),
        0 <= j < k < fold_seq(ts).len(),
    ensures
        fold_starts(ts)[j] < fold_starts(ts)[k],
        origin(ts, j + 1) <= fold_starts(ts)[k],
{
    reveal(fold_layout);
}

proof fn lemma_layout_ends(ts: Seq<Token>)
    requires
        fold_layout(ts),
    ensures
        fold_starts(ts).len() == fold_seq(ts).len(),
        ts.len() == 0 <==> fold_seq(ts).len() == 0,
        fold_seq(ts).len() > 0 ==> fold_starts(ts)[0] == 0,
        depth(ts, ts.len() as int) == depth(fold_seq(ts), fold_seq(ts).len() as int),
{
    reveal(fold_layout);
}

proof fn lemma_depth_in_block(ts: Seq<Token>, j: int, k: int)
    requires
        fold_layout(ts),
        0 <= j < fold_seq(ts).len(),
        fold_starts(ts)[j] <= k < origin(ts, j + 1),
    ensures
        depth(ts, k) == depth(fold_seq(ts), j),
    decreases k - fold_starts(ts)[j],
{
    let p = fold_starts(ts);
    let f = fold_seq(ts);
    lemma_layout_at(ts, j);
    if k > p[j] {
        lemma_depth_in_block(ts, j, k - 1);
        assert(same_kind(ts[k - 1], f[j]));
    }
}

proof fn lemma_block_index(ts: Seq<Token>, i: int) -> (j: int)
    requires
        fold_layout(ts),
        0 <= i < ts.len(),
    ensures
        in_block(ts, i, j),
        depth(ts, i) == depth(fold_seq(ts), j),
{
    reveal(fold_layout);
    assert(covered(ts, i));
    let j = choose|j: int| #[trigger] in_block(ts, i, j);
    lemma_depth_in_block(ts, j, i);
    j
}

proof fn lemma_matching_transfer(ts: Seq<Token>, o: int, c: int)
    requires
        fold_layout(ts),
        matching(fold_seq(ts), o, c),
    ensures
        matching(ts, fold_starts(ts)[o], fold_starts(ts)[c]),
{
    let p = fold_starts(ts);
    let f = fold_seq(ts);
    lemma_layout_at(ts, o);
    lemma_layout_at(ts, c);
    lemma_layout_order(ts, o, c);
    assert forall|k: int| p[o] < k <= p[c] implies #[trigger] depth(ts, k) > depth(ts, p[o]) by {
        if k < p[c] {
            let j = lemma_block_index(ts, k);
            if j < o {
                lemma_layout_at(ts, j);
                if j + 1 < o {
                    lemma_layout_order(ts, j, o);
                }
            }
            if j > c {
                lemma_layout_order(ts, c, j);
            }
        }
    }
}

proof fn lemma_matching_unique(ts: Seq<Token>, o1: int, c1: int, o2: int, c2: int)
    requires
        matching(ts, o1, c1),
        matching(ts, o2, c2),
        o1 == o2 || c1 == c2,
    ensures
        o1 == o2 && c1 == c2,
{
    if o1 == o2 && c1 < c2 {
        assert(depth(ts, c1 + 1) > depth(ts, o1));
    }
    if o1 == o2 && c2 < c1 {
        assert(depth(ts, c2 + 1) > depth(ts, o1));
    }
    if c1 == c2 && o1 < o2 {
        assert(depth(ts, o2) > depth(ts, o1));
    }
    if c1 == c2 && o2 < o1 {
        assert(depth(ts, o1) > depth(ts, o2));
    }
}

/// Folded brace `j` jumps to the folded image of where its original brace jumps.
proof fn lemma_jump_transfer(ts: Seq<Token>, m1: Map<usize, usize>, m2: Map<usize, usize>, j: int)
    requires
        fold_layout(ts),
        is_jump_table(ts, m1),
        is_jump_table(fold_seq(ts), m2),
        ts.len() <= usize::MAX,
        0 <= j < fold_seq(ts).len(),
        fold_seq(ts)[j] == Token::OpenBrace || fold_seq(ts)[j] == Token::CloseBrace,
    ensures
        m2.contains_key(j as usize),
        0 <= m2[j as usize] < fold_seq(ts).len(),
        m1.contains_key(fold_starts(ts)[j] as usize),
        m1[fold_starts(ts)[j] as usize] == fold_starts(ts)[m2[j as usize] as int],
        origin(ts, m2[j as usize] + 1) == fold_starts(ts)[m2[j as usize] as int] + 1,
{
    let p = fold_starts(ts);
    let f = fold_seq(ts);
    lemma_layout_at(ts, j);
    lemma_layout_ends(ts);
    lemma_fold_len(ts);
    let a = p[j];
    assert(m2.contains_key(j as usize));
    let k = m2[j as usize] as int;
    assert(m1.contains_key(a as usize));
    let b = m1[a as usize] as int;
    if matching(f, j, k) {
        lemma_matching_transfer(ts, j, k);
        if matching(ts, b, a) {
            assert(ts[a] == Token::CloseBrace);
        }
        lemma_matching_unique(ts, a, b, a, p[k]);
    } else {
        lemma_matching_transfer(ts, k, j);
        if matching(ts, a, b) {
            assert(ts[a] == Token::OpenBrace);
        }
        lemma_matching_unique(ts, b, a, p[k], a);
    }
    lemma_layout_at(ts, k);
}

/// The unit command `t` of the given kind with count `n`.
pub open spec fn with_count(t: Token, n: int) -> Token {
    match t {
        Token::RightAngle(_) => Token::RightAngle(n as u8),
        Token::LeftAngle(_) => Token::LeftAngle(n as u8),
        Token::Plus(_) => Token::Plus(n as u8),
        Token::Minus(_) => Token::Minus(n as u8),
        _ => t,
    }
}

/// The tape and pointer after the unit command `t`, or `None` where the
/// pointer would leave the tape.
pub open spec fn unit_effect(s: MachineState, t: Token) -> Option<(Seq<u8>, int)> {
    let cell = s.tape[s.ptr];
    match t {
        Token::Plus(n) => Some((s.tape.update(s.ptr, wrap_add(cell, n)), s.ptr)),
        Token::Minus(n) => Some((s.tape.update(s.ptr, wrap_sub(cell, n)), s.ptr)),
        Token::RightAngle(n) => if s.ptr + n < DATA_SIZE {
            Some((s.tape, s.ptr + n))
        } else {
            None
        },
        Token::LeftAngle(n) => if s.ptr >= n {
            Some((s.tape, s.ptr - n))
        } else {
            None
        },
        _ => Some((s.tape, s.ptr)),
    }
}

/// A run after the unit command `t`, moving on to token `next`.
pub open spec fn after_unit(c: Config, t: Token, next: int) -> Config {
    match unit_effect(c.state, t) {
        Some((tape, ptr)) => Config {
            state: MachineState { tape, ptr, ip: next },
            input: c.input,
            output: c.output,
            failed: false,
        },
        None => fail_config(c),
    }
}

/// Two runs agree on all that can be seen of them: output, input left,
/// tape and failure; while they have not failed, on the whole state too.
pub open spec fn agree(x: Config, y: Config) -> bool {
    &&& x.failed == y.failed
    &&& x.output == y.output
    &&& x.input == y.input
    &&& x.state.tape == y.state.tape
    &&& !x.failed ==> x.state == y.state
}

/// A run of the folded program `cf` and one of the original `cu` agree on
/// output, input left, tape and failure; while neither has failed they have
/// the same pointer, and `cu` stands where the token that `cf` is at begins.
pub open spec fn simulates(ts: Seq<Token>, cf: Config, cu: Config) -> bool {
    &&& cf.failed == cu.failed
    &&& cf.output == cu.output
    &&& cf.input == cu.input
    &&& cf.state.tape == cu.state.tape
    &&& !cf.failed ==> {
        &&& state_ok(cf.state)
        &&& cu.state.ptr == cf.state.ptr
        &&& 0 <= cf.state.ip <= fold_seq(ts).len()
        &&& cu.state.ip == origin(ts, cf.state.ip)
    }
}

proof fn lemma_unit_step(ts: Seq<Token>, m: Map<usize, usize>, c: Config)
    requires
        !c.failed,
        0 <= c.state.ip < ts.len(),
        is_unit(ts[c.state.ip]),
    ensures
        run_step(ts, m, c) == after_unit(c, ts[c.state.ip], c.state.ip + 1),
{
}

proof fn lemma_wrap_add_twice(v: u8, a: u8, b: u8)
    requires
        a + b <= 255,
    ensures
        wrap_add(wrap_add(v, a), b) == wrap_add(v, (a + b) as u8),
{
    let s = v as int + a as int;
    if s < 256 {
        assert(s % 256 == s);
    } else {
        assert(s % 256 == s - 256);
    }
    let t = wrap_add(v, a) as int + b as int;
    if t < 256 {
        assert(t % 256 == t);
    } else {
        assert(t % 256 == t - 256);
    }
    let u = v as int + (a + b) as int;
    if u < 256 {
        assert(u % 256 == u);
    } else if u < 512 {
        assert(u % 256 == u - 256);
    }
}

proof fn lemma_wrap_sub_twice(v: u8, a: u8, b: u8)
    requires
        a + b <= 255,
    ensures
        wrap_sub(wrap_sub(v, a), b) == wrap_sub(v, (a + b) as u8),
{
    let s = v as int - a as int + 256;
    if s < 256 {
        assert(s % 256 == s);
    } else {
        assert(s % 256 == s - 256);
    }
    let t = wrap_sub(v, a) as int - b as int + 256;
    if t < 256 {
        assert(t % 256 == t);
    } else {
        assert(t % 256 == t - 256);
    }
    let u = v as int - (a + b) as int + 256;
    if u < 256 {
        assert(u % 256 == u);
    } else {
        assert(u % 256 == u - 256);
    }
}

proof fn lemma_compose(c: Config, t: Token, sa: int, x: int, mid: int, next: int)
    requires
        !c.failed,
        state_ok(c.state),
        is_unit(t),
        0 <= sa,
        0 <= x,
        sa + x <= 255,
    ensures
        !after_unit(c, with_count(t, sa), mid).failed ==> agree(
            after_unit(after_unit(c, with_count(t, sa), mid), with_count(t, x), next),
            after_unit(c, with_count(t, sa + x), next),
        ),
        after_unit(c, with_count(t, sa), mid).failed ==> after_unit(
            c,
            with_count(t, sa + x),
            next,
        ) == fail_config(c),
{
    let v = c.state.tape[c.state.ptr];
    match t {
        Token::Plus(_) => {
            let w = wrap_add(v, sa as u8);
            assert(c.state.tape.update(c.state.ptr, w)[c.state.ptr] == w);
            lemma_wrap_add_twice(v, sa as u8, x as u8);
            assert(c.state.tape.update(c.state.ptr, w).update(
                c.state.ptr,
                wrap_add(v, (sa + x) as u8),
            ) == c.state.tape.update(c.state.ptr, wrap_add(v, (sa + x) as u8)));
        },
        Token::Minus(_) => {
            let w = wrap_sub(v, sa as u8);
            assert(c.state.tape.update(c.state.ptr, w)[c.state.ptr] == w);
            lemma_wrap_sub_twice(v, sa as u8, x as u8);
            assert(c.state.tape.update(c.state.ptr, w).update(
                c.state.ptr,
                wrap_sub(v, (sa + x) as u8),
            ) == c.state.tape.update(c.state.ptr, wrap_sub(v, (sa + x) as u8)));
        },
        _ => {},
    }
}

/// Running the original tokens `ts[a..b]`, all of the kind of `t`, does
/// what one token of that kind with their added counts does.
proof fn lemma_unit_run(ts: Seq<Token>, m: Map<usize, usize>, c: Config, a: int, b: int, t: Token)
    requires
        !c.failed,
        state_ok(c.state),
        c.state.ip == a,
        0 <= a < b <= ts.len(),
        is_unit(t),
        forall|i: int| a <= i < b ==> same_kind(#[trigger] ts[i], t),
        count_sum(ts, a, b) <= 255,
    ensures
        agree(run_n(ts, m, c, (b - a) as nat), after_unit(c, with_count(t, count_sum(ts, a, b)), b)),
    decreases b - a,
{
    let x = unit_count(ts[b - 1]);
    assert(same_kind(ts[b - 1], t));
    assert(ts[b - 1] == with_count(t, x));
    if b == a + 1 {
        assert(count_sum(ts, a, a) == 0);
        lemma_run_one(ts, m, c);
        lemma_unit_step(ts, m, c);
    } else {
        let sa = count_sum(ts, a, b - 1);
        assert(count_sum(ts, a, b) == sa + x);
        lemma_count_sum_nonneg(ts, a, b - 1);
        lemma_unit_run(ts, m, c, a, b - 1, t);
        let cu1 = run_n(ts, m, c, (b - 1 - a) as nat);
        let cf1 = after_unit(c, with_count(t, sa), b - 1);
        lemma_run_split(ts, m, c, (b - 1 - a) as nat, 1);
        lemma_run_one(ts, m, cu1);
        assert((b - a) as nat == (b - 1 - a) as nat + 1);
        lemma_compose(c, t, sa, x, b - 1, b);
        if cf1.failed {
            assert(run_step(ts, m, cu1) == cu1);
        } else {
            assert(cu1 == cf1);
            lemma_unit_step(ts, m, cu1);
        }
    }
}

proof fn lemma_count_sum_nonneg(ts: Seq<Token>, a: int, b: int)
    ensures
        count_sum(ts, a, b) >= 0,
    decreases b - a,
{
    if b > a {
        lemma_count_sum_nonneg(ts, a, b - 1);
    }
}

proof fn lemma_sim_step(
    ts: Seq<Token>,
    m1: Map<usize, usize>,
    m2: Map<usize, usize>,
    cf: Config,
    cu: Config,
) -> (d: nat)
    requires
        fold_layout(ts),
        is_jump_table(ts, m1),
        is_jump_table(fold_seq(ts), m2),
        ts.len() <= usize::MAX,
        simulates(ts, cf, cu),
    ensures
        simulates(ts, run_step(fold_seq(ts), m2, cf), run_n(ts, m1, cu, d)),
        !stopped(fold_seq(ts), cf) ==> d >= 1,
{
    let f = fold_seq(ts);
    let p = fold_starts(ts);
    lemma_layout_ends(ts);
    if cf.failed || cf.state.ip == f.len() {
        0
    } else {
        let j = cf.state.ip;
        lemma_layout_at(ts, j);
        let a = p[j];
        let b = origin(ts, j + 1);
        let t = f[j];
        if is_unit(t) {
            lemma_unit_step(f, m2, cf);
            lemma_unit_run(ts, m1, cu, a, b, t);
            assert(with_count(t, unit_count(t)) == t);
            (b - a) as nat
        } else {
            lemma_run_one(ts, m1, cu);
            assert(ts[a] == t);
            if t == Token::OpenBrace || t == Token::CloseBrace {
                lemma_jump_transfer(ts, m1, m2, j);
            }
            1
        }
    }
}

proof fn lemma_sim_run(
    ts: Seq<Token>,
    m1: Map<usize, usize>,
    m2: Map<usize, usize>,
    input: Seq<u8>,
    k: nat,
) -> (u: nat)
    requires
        is_jump_table(ts, m1),
        is_jump_table(fold_seq(ts), m2),
        ts.len() <= usize::MAX,
    ensures
        simulates(
            ts,
            run_n(fold_seq(ts), m2, start_config(input), k),
            run_n(ts, m1, start_config(input), u),
        ),
        !stopped(fold_seq(ts), run_n(fold_seq(ts), m2, start_config(input), k)) ==> u >= k,
    decreases k,
{
    lemma_fold_layout(ts);
    let f = fold_seq(ts);
    let c0 = start_config(input);
    if k == 0 {
        lemma_layout_ends(ts);
        0
    } else {
        let u0 = lemma_sim_run(ts, m1, m2, input, (k - 1) as nat);
        let cf0 = run_n(f, m2, c0, (k - 1) as nat);
        let cu0 = run_n(ts, m1, c0, u0);
        let d = lemma_sim_step(ts, m1, m2, cf0, cu0);
        lemma_run_split(f, m2, c0, (k - 1) as nat, 1);
        lemma_run_one(f, m2, cf0);
        if stopped(f, cf0) {
            lemma_stopped_stays(f, m2, cf0, 1);
        }
        assert(k == (k - 1) as nat + 1);
        lemma_run_split(ts, m1, c0, u0, d);
        u0 + d
    }
}

/// Folding keeps balanced braces balanced, so the folded program has a
/// jump table too.
pub proof fn lemma_fold_keeps_balance(ts: Seq<Token>)
    requires
        balanced(ts),
    ensures
        balanced(fold_seq(ts)),
{
    lemma_fold_layout(ts);
    lemma_layout_ends(ts);
    let f = fold_seq(ts);
    assert forall|k: int| 0 <= k <= f.len() implies depth(f, k) >= 0 by {
        if k < f.len() {
            lemma_layout_at(ts, k);
        }
    }
}

/// Folding keeps what a program does. Whatever the folded program has done
/// after `k` steps on some input, the original program has done after some
/// number of steps on the same input: the same bytes written, the same input
/// read, the same tape, and failed alike. While no step has failed, the
/// pointer is the same too, and the original stands at the first of the
/// tokens that the folded program's next token stands for; in particular the
/// original has halted, with that output and tape, when the folded one has.
pub proof fn lemma_fold_preserves_runs(
    ts: Seq<Token>,
    m1: Map<usize, usize>,
    m2: Map<usize, usize>,
    input: Seq<u8>,
    k: nat,
)
    requires
        ts.len() <= usize::MAX,
        is_jump_table(ts, m1),
        is_jump_table(fold_seq(ts), m2),
    ensures
        exists|u: nat|
            simulates(
                ts,
                #[trigger] run_n(fold_seq(ts), m2, start_config(input), k),
                run_n(ts, m1, start_config(input), u),
            ),
        ({
            let cf = run_n(fold_seq(ts), m2, start_config(input), k);
            !cf.failed && cf.state.ip == fold_seq(ts).len() ==> exists|u: nat|
                {
                    let cu = #[trigger] run_n(ts, m1, start_config(input), u);
                    &&& !cu.failed
                    &&& cu.state.ip == ts.len()
                    &&& cu.output == cf.output
                    &&& cu.input == cf.input
                    &&& cu.state.tape == cf.state.tape
                    &&& cu.state.ptr == cf.state.ptr
                }
        }),
{
    let u = lemma_sim_run(ts, m1, m2, input, k);
    lemma_fold_layout(ts);
    lemma_layout_ends(ts);
    let cu = run_n(ts, m1, start_config(input), u);
    assert(simulates(ts, run_n(fold_seq(ts), m2, start_config(input), k), cu));
}

/// When the original program stops after `u` steps on some input, halting
/// or failing, the folded program has stopped too after as many steps, having
/// written the same bytes, read the same input, left the same tape and
/// failed alike; where neither failed, with the same pointer.
pub proof fn lemma_fold_stops_alike(
    ts: Seq<Token>,
    m1: Map<usize, usize>,
    m2: Map<usize, usize>,
    input: Seq<u8>,
    u: nat,
)
    requires
        ts.len() <= usize::MAX,
        is_jump_table(ts, m1),
        is_jump_table(fold_seq(ts), m2),
        stopped(ts, run_n(ts, m1, start_config(input), u)),
    ensures
        ({
            let cf = run_n(fold_seq(ts), m2, start_config(input), u);
            let cu = run_n(ts, m1, start_config(input), u);
            &&& stopped(fold_seq(ts), cf)
            &&& cf.failed == cu.failed
            &&& cf.output == cu.output
            &&& cf.input == cu.input
            &&& cf.state.tape == cu.state.tape
            &&& !cf.failed ==> cf.state.ptr == cu.state.ptr
        }),
{
    let c0 = start_config(input);
    let f = fold_seq(ts);
    let v = lemma_sim_run(ts, m1, m2, input, u);
    lemma_fold_layout(ts);
    lemma_layout_ends(ts);
    let cf = run_n(f, m2, c0, u);
    let cv = run_n(ts, m1, c0, v);
    let cu = run_n(ts, m1, c0, u);
    if v >= u {
        lemma_stopped_later(ts, m1, c0, u, v);
    } else {
        if !stopped(ts, cv) {
            assert(!cf.failed);
            if cf.state.ip < f.len() {
                lemma_layout_at(ts, cf.state.ip);
            }
        }
        lemma_stopped_later(ts, m1, c0, v, u);
    }
    if !cf.failed && cf.state.ip < f.len() {
        lemma_layout_at(ts, cf.state.ip);
    }
}

} // verus!
