//! The stack as a mathematical sequence, the operations on it, and the laws
//! that runs of pushes and pops obey.
use vstd::prelude::*;

verus! {

/// One operation on a stack, as the laws below speak of sequences of them.
pub enum Op {
    Push(i32),
    Pop,
}

/// The stack after pushing `elem` onto `s` (top of the stack first).
pub open spec fn push_model(s: Seq<i32>, elem: i32) -> Seq<i32> {
    seq![elem] + s
}

/// What a pop on `s` returns, and the stack it leaves.
pub open spec fn pop_model(s: Seq<i32>) -> (Option<i32>, Seq<i32>) {
    if s.len() == 0 {
        (None, s)
    } else {
        (Some(s[0]), s.drop_first())
    }
}

/// The stack after one operation.
pub open spec fn apply(s: Seq<i32>, op: Op) -> Seq<i32> {
    match op {
        Op::Push(elem) => push_model(s, elem),
        Op::Pop => pop_model(s).1,
    }
}

/// The stack after running `ops` in order, starting from `s`.
pub open spec fn run(s: Seq<i32>, ops: Seq<Op>) -> Seq<i32>
    decreases ops.len(),
{
    if ops.len() == 0 {
        s
    } else {
        run(apply(s, ops[0]), ops.drop_first())
    }
}

/// The values returned by `n` pops in a row, starting from `s`.
pub open spec fn pop_results(s: Seq<i32>, n: nat) -> Seq<Option<i32>>
    decreases n,
{
    if n == 0 {
        Seq::empty()
    } else {
        seq![pop_model(s).0] + pop_results(pop_model(s).1, (n - 1) as nat)
    }
}

/// A push of each value of `xs`, in order.
pub open spec fn pushes(xs: Seq<i32>) -> Seq<Op> {
    Seq::new(xs.len(), |i: int| Op::Push(xs[i]))
}

/// `n` pops.
pub open spec fn pops(n: nat) -> Seq<Op> {
    Seq::new(n, |i: int| Op::Pop)
}

/// How many pushes `ops` holds.
pub open spec fn push_count(ops: Seq<Op>) -> int
    decreases ops.len(),
{
    if ops.len() == 0 {
        0
    } else {
        push_count(ops.drop_last()) + if ops.last() is Push { 1int } else { 0int }
    }
}

/// How many pops `ops` holds.
pub open spec fn pop_count(ops: Seq<Op>) -> int
    decreases ops.len(),
{
    if ops.len() == 0 {
        0
    } else {
        pop_count(ops.drop_last()) + if ops.last() is Pop { 1int } else { 0int }
    }
}

/// No prefix of `ops` pops more than it pushes: run from an empty stack,
/// no pop of `ops` finds the stack empty.
pub open spec fn never_underflows(ops: Seq<Op>) -> bool {
    forall|k: int| 0 <= k <= ops.len() ==> #[trigger] pop_count(ops.take(k)) <= push_count(ops.take(k))
}

/// `ops` pops exactly what it pushes, and never more than it has pushed.
pub open spec fn balanced(ops: Seq<Op>) -> bool {
    never_underflows(ops) && pop_count(ops) == push_count(ops)
}

proof fn lemma_run_append(s: Seq<i32>, a: Seq<Op>, b: Seq<Op>)
    ensures
        run(s, a + b) == run(run(s, a), b),
    decreases a.len(),
{
    if a.len() == 0 {
        assert(a + b =~= b);
    } else {
        assert((a + b).drop_first() =~= a.drop_first() + b);
        lemma_run_append(apply(s, a[0]), a.drop_first(), b);
    }
}

proof fn lemma_run_one(s: Seq<i32>, op: Op)
    ensures
        run(s, seq![op]) == apply(s, op),
{
    assert(seq![op].drop_first() =~= Seq::<Op>::empty());
    assert(run(apply(s, op), Seq::<Op>::empty()) == apply(s, op));
}

/// What `ops` leaves on top of a stack does not depend on what lay below,
/// as long as it never pops more than it pushed.
proof fn lemma_frame(s: Seq<i32>, ops: Seq<Op>)
    requires
        never_underflows(ops),
    ensures
        run(s, ops) == run(Seq::empty(), ops) + s,
        run(Seq::empty(), ops).len() == push_count(ops) - pop_count(ops),
    decreases ops.len(),
{
    let e = Seq::<i32>::empty();
    if ops.len() == 0 {
        assert(e + s =~= s);
    } else {
        let front = ops.drop_last();
        let op = ops.last();
        lemma_never_underflows_front(ops);
        lemma_frame(s, front);
        assert(ops =~= front + seq![op]);
        lemma_run_append(s, front, seq![op]);
        lemma_run_append(e, front, seq![op]);
        lemma_run_one(run(s, front), op);
        lemma_run_one(run(e, front), op);
        let top = run(e, front);
        match op {
            Op::Push(elem) => {
                assert(seq![elem] + (top + s) =~= (seq![elem] + top) + s);
            },
            Op::Pop => {
                assert((top + s).drop_first() =~= top.drop_first() + s);
            },
        }
    }
}

/// Pushing the values of `xs` onto `s` leaves them on top, last pushed first.
proof fn lemma_run_pushes(s: Seq<i32>, xs: Seq<i32>)
    ensures
        run(s, pushes(xs)) == xs.reverse() + s,
    decreases xs.len(),
{
    if xs.len() == 0 {
        assert(xs.reverse() + s =~= s);
    } else {
        assert(pushes(xs).drop_first() =~= pushes(xs.drop_first()));
        lemma_run_pushes(push_model(s, xs[0]), xs.drop_first());
        assert(xs.drop_first().reverse() + push_model(s, xs[0]) =~= xs.reverse() + s);
    }
}

/// `n` pops on `ys + s`, where `ys` holds `n` values, return the values of
/// `ys` in order and leave `s`.
proof fn lemma_pop_prefix(ys: Seq<i32>, s: Seq<i32>)
    ensures
        pop_results(ys + s, ys.len()) == ys.map_values(|y: i32| Some(y)),
        run(ys + s, pops(ys.len())) == s,
    decreases ys.len(),
{
    if ys.len() == 0 {
        assert(ys + s =~= s);
        assert(ys.map_values(|y: i32| Some(y)) =~= Seq::<Option<i32>>::empty());
    } else {
        let rest = ys.drop_first();
        assert((ys + s).drop_first() =~= rest + s);
        assert(pops(ys.len()).drop_first() =~= pops(rest.len()));
        lemma_pop_prefix(rest, s);
        assert(ys.map_values(|y: i32| Some(y)) =~= seq![Some(ys[0])] + rest.map_values(
            |y: i32| Some(y),
        ));
    }
}

/// Last in, first out: after pushing the values of `xs` onto any stack `s`,
/// as many pops return those values in reverse order and leave `s` as it was.
pub proof fn lemma_lifo(s: Seq<i32>, xs: Seq<i32>)
    ensures
        pop_results(run(s, pushes(xs)), xs.len()).len() == xs.len(),
        forall|k: int|
            0 <= k < xs.len() ==> #[trigger] pop_results(run(s, pushes(xs)), xs.len())[k] == Some(
                xs[xs.len() - 1 - k],
            ),
        run(run(s, pushes(xs)), pops(xs.len())) == s,
{
    lemma_run_pushes(s, xs);
    lemma_pop_prefix(xs.reverse(), s);
}

/// `n` pops on `s` return its values from the top down, then nothing; they
/// leave the values below the first `n`, or an empty stack.
proof fn lemma_run_pops(s: Seq<i32>, n: nat)
    ensures
        pop_results(s, n).len() == n,
        forall|k: int|
            0 <= k < n ==> #[trigger] pop_results(s, n)[k] == if k < s.len() {
                Some(s[k])
            } else {
                None
            },
        run(s, pops(n)) == if n <= s.len() {
            s.skip(n as int)
        } else {
            Seq::empty()
        },
    decreases n,
{
    if n == 0 {
        assert(s.skip(0) =~= s);
    } else {
        let rest = pop_model(s).1;
        assert(pops(n).drop_first() =~= pops((n - 1) as nat));
        lemma_run_pops(rest, (n - 1) as nat);
        if s.len() > 0 {
            assert forall|k: int| 0 < k < n implies #[trigger] pop_results(s, n)[k] == if k
                < s.len() {
                Some(s[k])
            } else {
                None
            } by {
                assert(pop_results(s, n)[k] == pop_results(rest, (n - 1) as nat)[k - 1]);
            }
            if n <= s.len() {
                assert(rest.skip(n - 1) =~= s.skip(n as int));
            }
        } else {
            assert forall|k: int| 0 < k < n implies #[trigger] pop_results(s, n)[k] == None::<
                i32,
            > by {
                assert(pop_results(s, n)[k] == pop_results(rest, (n - 1) as nat)[k - 1]);
            }
        }
    }
}

/// A stack emptied by pops behaves as a fresh one: after at least as many pops
/// as `s` holds values, the stack is empty, the pops past its last value return
/// nothing, and any operations that follow leave what they would leave on a
/// fresh stack.
pub proof fn lemma_exhausted_is_fresh(s: Seq<i32>, n: nat, ops: Seq<Op>)
    requires
        n >= s.len(),
    ensures
        run(s, pops(n)) == Seq::<i32>::empty(),
        forall|k: int| s.len() <= k < n ==> #[trigger] pop_results(s, n)[k] == None::<i32>,
        run(run(s, pops(n)), ops) == run(Seq::empty(), ops),
{
    lemma_run_pops(s, n);
    if n == s.len() {
        assert(s.skip(n as int) =~= Seq::<i32>::empty());
    }
}

proof fn lemma_counts_append(a: Seq<Op>, b: Seq<Op>)
    ensures
        push_count(a + b) == push_count(a) + push_count(b),
        pop_count(a + b) == pop_count(a) + pop_count(b),
    decreases b.len(),
{
    if b.len() == 0 {
        assert(a + b =~= a);
    } else {
        assert((a + b).drop_last() =~= a + b.drop_last());
        lemma_counts_append(a, b.drop_last());
    }
}

proof fn lemma_never_underflows_front(ops: Seq<Op>)
    requires
        never_underflows(ops),
        ops.len() > 0,
    ensures
        never_underflows(ops.drop_last()),
        pop_count(ops) <= push_count(ops),
{
    let front = ops.drop_last();
    assert forall|k: int| 0 <= k <= front.len() implies #[trigger] pop_count(front.take(k))
        <= push_count(front.take(k)) by {
        assert(front.take(k) =~= ops.take(k));
    }
    assert(ops.take(ops.len() as int) =~= ops);
    assert(pop_count(ops.take(ops.len() as int)) <= push_count(ops.take(ops.len() as int)));
}

/// For each level `j` below the height that `ops` reaches, some push raised
/// the stack from `j` to `j + 1`, and no later prefix brought it back to `j`.
proof fn lemma_live_push(ops: Seq<Op>, j: int)
    requires
        never_underflows(ops),
        0 <= j < push_count(ops) - pop_count(ops),
    ensures
        exists|i: int|
            {
                &&& 0 <= i < ops.len()
                &&& ops[i] is Push
                &&& push_count(ops.take(i)) - pop_count(ops.take(i)) == j
                &&& forall|k: int|
                    i < k <= ops.len() ==> push_count(#[trigger] ops.take(k)) - pop_count(
                        ops.take(k),
                    ) > j
            },
    decreases ops.len(),
{
    let front = ops.drop_last();
    let n = ops.len() as int;
    lemma_never_underflows_front(ops);
    assert(ops.take(n) =~= ops);
    assert forall|k: int| 0 <= k <= front.len() implies #[trigger] ops.take(k) == front.take(
        k,
    ) by {
        assert(ops.take(k) =~= front.take(k));
    }
    if ops.last() is Push && j == push_count(front) - pop_count(front) {
        let i = n - 1;
        assert(ops.take(i) == front.take(i));
        assert(front.take(i) =~= front);
    } else {
        lemma_live_push(front, j);
        let i = choose|i: int|
            {
                &&& 0 <= i < front.len()
                &&& front[i] is Push
                &&& push_count(front.take(i)) - pop_count(front.take(i)) == j
                &&& forall|k: int|
                    i < k <= front.len() ==> push_count(#[trigger] front.take(k)) - pop_count(
                        front.take(k),
                    ) > j
            };
        assert(ops.take(i) == front.take(i));
        assert(forall|k: int| i < k <= n ==> k == n || ops.take(k) == front.take(k));
        assert(front.take(front.len() as int) =~= front);
    }
}

/// When `ops` never underflows, a push whose later operations are balanced
/// is the one whose value sits on top.
proof fn lemma_top_value(ops: Seq<Op>, i: int)
    requires
        never_underflows(ops),
        0 <= i < ops.len(),
        ops[i] is Push,
        balanced(ops.skip(i + 1)),
    ensures
        pop_model(run(Seq::empty(), ops)).0 == Some(ops[i]->Push_0),
{
    let e = Seq::<i32>::empty();
    let head = ops.take(i + 1);
    let tail = ops.skip(i + 1);
    assert(ops =~= head + tail);
    lemma_run_append(e, head, tail);
    lemma_frame(run(e, head), tail);
    assert(run(e, tail) + run(e, head) =~= run(e, head));
    assert(head =~= ops.take(i) + seq![ops[i]]);
    lemma_run_append(e, ops.take(i), seq![ops[i]]);
    lemma_run_one(run(e, ops.take(i)), ops[i]);
}

/// When `ops` never underflows and pushes more than it pops, some push has
/// balanced operations after it.
proof fn lemma_top_exists(ops: Seq<Op>)
    requires
        never_underflows(ops),
        push_count(ops) > pop_count(ops),
    ensures
        exists|p: int| 0 <= p < ops.len() && ops[p] is Push && #[trigger] balanced(ops.skip(p + 1)),
{
    let j = push_count(ops) - pop_count(ops) - 1;
    lemma_live_push(ops, j);
    let p = choose|p: int|
        {
            &&& 0 <= p < ops.len()
            &&& ops[p] is Push
            &&& push_count(ops.take(p)) - pop_count(ops.take(p)) == j
            &&& forall|k: int|
                p < k <= ops.len() ==> push_count(#[trigger] ops.take(k)) - pop_count(
                    ops.take(k),
                ) > j
        };
    let head = ops.take(p + 1);
    let tail = ops.skip(p + 1);
    assert(head =~= ops.take(p) + seq![ops[p]]);
    lemma_counts_append(ops.take(p), seq![ops[p]]);
    assert(seq![ops[p]].drop_last() =~= Seq::<Op>::empty());
    assert(push_count(Seq::<Op>::empty()) == 0 && pop_count(Seq::<Op>::empty()) == 0);
    assert(push_count(seq![ops[p]]) == 1 && pop_count(seq![ops[p]]) == 0);
    assert(push_count(head) - pop_count(head) == j + 1);
    assert forall|m: int| 0 <= m <= tail.len() implies #[trigger] pop_count(tail.take(m))
        <= push_count(tail.take(m)) by {
        assert(ops.take(p + 1 + m) =~= head + tail.take(m));
        lemma_counts_append(head, tail.take(m));
        assert(push_count(ops.take(p + 1 + m)) - pop_count(ops.take(p + 1 + m)) > j);
    }
    assert(tail.take(tail.len() as int) =~= tail);
    assert(ops =~= head + tail);
    lemma_counts_append(head, tail);
    assert(balanced(tail));
}

/// Pushes and pops interleaved on a fresh stack, never popping it empty,
/// leave as many values as there were pushes less pops. The next pop returns
/// the value of a push whose later pushes have all been popped again: the most
/// recently pushed value still present. Such a push exists whenever there
/// were more pushes than pops.
pub proof fn lemma_interleaved(ops: Seq<Op>, i: int)
    requires
        never_underflows(ops),
    ensures
        run(Seq::empty(), ops).len() == push_count(ops) - pop_count(ops),
        push_count(ops) > pop_count(ops) ==> exists|p: int|
            0 <= p < ops.len() && ops[p] is Push && #[trigger] balanced(ops.skip(p + 1)),
        0 <= i < ops.len() && ops[i] is Push && balanced(ops.skip(i + 1)) ==> pop_model(
            run(Seq::empty(), ops),
        ).0 == Some(ops[i]->Push_0),
{
    lemma_frame(Seq::empty(), ops);
    if 0 <= i < ops.len() && ops[i] is Push && balanced(ops.skip(i + 1)) {
        lemma_top_value(ops, i);
    }
    if push_count(ops) > pop_count(ops) {
        lemma_top_exists(ops);
    }
}

} // verus!
