use vstd::prelude::*;

verus! {

/// The flat, row-major sequence of the states `ys`: the components of
/// `ys[0]`, then those of `ys[1]`, and so on.
pub open spec fn flatten<T, const N: usize>(ys: Seq<[T; N]>) -> Seq<T>
    decreases ys.len(),
{
    if ys.len() == 0 {
        Seq::empty()
    } else {
        flatten(ys.drop_last()) + ys.last()@
    }
}

/// The `k`-th state of a flat trajectory whose states have `n` components.
pub open spec fn state_at<T>(r: Seq<T>, n: nat, k: int) -> Seq<T> {
    r.subrange(k * n, (k + 1) * n)
}

/// A flattened trajectory of `ys.len()` states has `ys.len() * N` entries.
pub proof fn lemma_flatten_len<T, const N: usize>(ys: Seq<[T; N]>)
    ensures
        flatten(ys).len() == ys.len() * N,
    decreases ys.len(),
{
    if ys.len() > 0 {
        lemma_flatten_len(ys.drop_last());
        assert(ys.len() * N == (ys.len() - 1) * N + N) by (nonlinear_arith);
    }
}

/// The `k`-th state of a flattened trajectory is `ys[k]`.
pub proof fn lemma_flatten_state<T, const N: usize>(ys: Seq<[T; N]>, k: int)
    requires
        0 <= k < ys.len(),
    ensures
        state_at(flatten(ys), N as nat, k) == ys[k]@,
    decreases ys.len(),
{
    let prefix = ys.drop_last();
    lemma_flatten_len(prefix);
    assert(flatten(ys) == flatten(prefix) + ys.last()@);
    assert((k + 1) * N == k * N + N) by (nonlinear_arith);
    if k == ys.len() - 1 {
        assert(k * N == prefix.len() * N);
        assert(state_at(flatten(ys), N as nat, k) =~= ys[k]@);
    } else {
        lemma_flatten_state(prefix, k);
        assert((k + 1) * N <= prefix.len() * N) by (nonlinear_arith)
            requires
                k + 1 <= prefix.len(),
        ;
        assert(0 <= k * N) by (nonlinear_arith)
            requires
                0 <= k,
        ;
        assert(state_at(flatten(ys), N as nat, k) =~= state_at(flatten(prefix), N as nat, k));
    }
}

/// `ts` and `ys` are the times and states of `steps` successive steps from
/// `(t0, y0)`: each state comes from `step` applied to the time and state
/// before it, and each time from `tick` applied to the time before it.
pub open spec fn follows<T, const N: usize, F: Fn(T, &[T; N]) -> [T; N], G: Fn(T) -> T>(
    step: F,
    tick: G,
    t0: T,
    y0: [T; N],
    steps: nat,
    ts: Seq<T>,
    ys: Seq<[T; N]>,
) -> bool {
    &&& ts.len() == steps + 1
    &&& ys.len() == steps + 1
    &&& ts[0] == t0
    &&& ys[0] == y0
    &&& forall|k: int|
        #![trigger ts[k + 1]]
        #![trigger ys[k + 1]]
        0 <= k < steps ==> {
            &&& step.ensures((ts[k], &ys[k]), ys[k + 1])
            &&& tick.ensures((ts[k],), ts[k + 1])
        }
}

/// `r` is a flat trajectory of `steps` steps of `step` from `(t0, y0)`, with
/// the clock advanced by `tick` after each step.
pub open spec fn is_trajectory<T, const N: usize, F: Fn(T, &[T; N]) -> [T; N], G: Fn(T) -> T>(
    step: F,
    tick: G,
    t0: T,
    y0: [T; N],
    steps: nat,
    r: Seq<T>,
) -> bool {
    exists|ts: Seq<T>, ys: Seq<[T; N]>|
        #[trigger] follows(step, tick, t0, y0, steps, ts, ys) && r == flatten(ys)
}

/// A step closure that gives one result for one time and state.
pub open spec fn step_is_functional<T, const N: usize, F: Fn(T, &[T; N]) -> [T; N]>(
    step: F,
) -> bool {
    forall|t: T, y: [T; N], a: [T; N], b: [T; N]|
        #![trigger step.ensures((t, &y), a), step.ensures((t, &y), b)]
        step.ensures((t, &y), a) && step.ensures((t, &y), b) ==> a == b
}

/// A clock closure that gives one result for one argument.
pub open spec fn tick_is_functional<T, G: Fn(T) -> T>(tick: G) -> bool {
    forall|t: T, a: T, b: T|
        #![trigger tick.ensures((t,), a), tick.ensures((t,), b)]
        tick.ensures((t,), a) && tick.ensures((t,), b) ==> a == b
}

proof fn lemma_follows_agree<T, const N: usize, F: Fn(T, &[T; N]) -> [T; N], G: Fn(T) -> T>(
    step: F,
    tick: G,
    t0: T,
    y0: [T; N],
    steps: nat,
    ts1: Seq<T>,
    ys1: Seq<[T; N]>,
    ts2: Seq<T>,
    ys2: Seq<[T; N]>,
    k: int,
)
    requires
        step_is_functional(step),
        tick_is_functional(tick),
        follows(step, tick, t0, y0, steps, ts1, ys1),
        follows(step, tick, t0, y0, steps, ts2, ys2),
        0 <= k <= steps,
    ensures
        ts1[k] == ts2[k],
        ys1[k] == ys2[k],
    decreases k,
{
    if k > 0 {
        lemma_follows_agree(step, tick, t0, y0, steps, ts1, ys1, ts2, ys2, k - 1);
        assert(ts1[(k - 1) + 1] == ts1[k]);
        assert(ys1[(k - 1) + 1] == ys1[k]);
        assert(ts2[(k - 1) + 1] == ts2[k]);
        assert(ys2[(k - 1) + 1] == ys2[k]);
        assert(tick.ensures((ts1[k - 1],), ts1[k]));
        assert(tick.ensures((ts1[k - 1],), ts2[k]));
        assert(step.ensures((ts1[k - 1], &ys1[k - 1]), ys1[k]));
        assert(step.ensures((ts1[k - 1], &ys1[k - 1]), ys2[k]));
    }
}

/// Integration is deterministic: where the step and the clock each give one
/// result for one argument, two trajectories of the same system from the
/// same time, state and step count are identical, entry for entry.
pub proof fn lemma_integrate_deterministic<
    T,
    const N: usize,
    F: Fn(T, &[T; N]) -> [T; N],
    G: Fn(T) -> T,
>(step: F, tick: G, t0: T, y0: [T; N], steps: nat, r1: Seq<T>, r2: Seq<T>)
    requires
        step_is_functional(step),
        tick_is_functional(tick),
        is_trajectory(step, tick, t0, y0, steps, r1),
        is_trajectory(step, tick, t0, y0, steps, r2),
    ensures
        r1 == r2,
{
    let (ts1, ys1) = choose|ts: Seq<T>, ys: Seq<[T; N]>|
        #[trigger] follows(step, tick, t0, y0, steps, ts, ys) && r1 == flatten(ys);
    let (ts2, ys2) = choose|ts: Seq<T>, ys: Seq<[T; N]>|
        #[trigger] follows(step, tick, t0, y0, steps, ts, ys) && r2 == flatten(ys);
    assert forall|k: int| 0 <= k < ys1.len() implies ys1[k] == ys2[k] by {
        lemma_follows_agree(step, tick, t0, y0, steps, ts1, ys1, ts2, ys2, k);
    }
    assert(ys1 =~= ys2);
}

/// Every trajectory of `steps` steps from `y0` holds `steps + 1` states of
/// `N` components, starts with `y0` exactly, and is `y0` alone when no step
/// is taken.
pub proof fn lemma_trajectory_shape<
    T,
    const N: usize,
    F: Fn(T, &[T; N]) -> [T; N],
    G: Fn(T) -> T,
>(step: F, tick: G, t0: T, y0: [T; N], steps: nat, r: Seq<T>)
    requires
        is_trajectory(step, tick, t0, y0, steps, r),
    ensures
        r.len() == (steps + 1) * N,
        r.subrange(0, N as int) == y0@,
        steps == 0 ==> r == y0@,
{
    let (ts, ys) = choose|ts: Seq<T>, ys: Seq<[T; N]>|
        #[trigger] follows(step, tick, t0, y0, steps, ts, ys) && r == flatten(ys);
    lemma_flatten_len(ys);
    lemma_flatten_state(ys, 0);
    assert(0 * N == 0);
    assert(1 * N == N);
    if steps == 0 {
        assert(r =~= r.subrange(0, N as int));
    }
}

/// Integrates a system for `steps` fixed steps and returns the whole
/// trajectory, flattened row-major: the initial state `y0`, then the state
/// after each step.
///
/// `step` maps the time and state at the start of a step to the state at its
/// end; `tick` maps the time at the start of a step to the time at its end.
/// The clock starts at `t0` and is never reset.
pub fn integrate<T: Copy, const N: usize, F: Fn(T, &[T; N]) -> [T; N], G: Fn(T) -> T>(
    step: &F,
    tick: &G,
    t0: T,
    y0: [T; N],
    steps: usize,
) -> (r: Vec<T>)
    requires
        (steps + 1) * N <= usize::MAX,
        forall|t: T, y: [T; N]| step.requires((t, &y)),
        forall|t: T| tick.requires((t,)),
    ensures
        is_trajectory(*step, *tick, t0, y0, steps as nat, r@),
        r@.len() == (steps + 1) * N,
        r@.subrange(0, N as int) == y0@,
        steps == 0 ==> r@ == y0@,
{
    let capacity: usize = if N == 0 {
        0
    } else {
        assert(steps + 1 <= (steps + 1) * N) by (nonlinear_arith)
            requires
                N >= 1,
        ;
        (steps + 1) * N
    };
    let mut result: Vec<T> = Vec::with_capacity(capacity);
    let ghost mut ts: Seq<T> = seq![t0];
    let ghost mut ys: Seq<[T; N]> = seq![y0];
    push_state(&mut result, &y0);
    proof {
        assert(ys.drop_last() =~= Seq::<[T; N]>::empty());
        assert(flatten(ys) == flatten(ys.drop_last()) + ys.last()@);
        assert(result@ =~= flatten(ys));
    }
    let mut t = t0;
    let mut y = y0;
    let mut s: usize = 0;
    while s < steps
        invariant
            s <= steps,
            follows(*step, *tick, t0, y0, s as nat, ts, ys),
            ts.last() == t,
            ys.last() == y,
            result@ == flatten(ys),
            forall|t: T, y: [T; N]| step.requires((t, &y)),
            forall|t: T| tick.requires((t,)),
        decreases steps - s,
    {
        let next = step(t, &y);
        let t_next = tick(t);
        proof {
            let ts0 = ts;
            let ys0 = ys;
            ts = ts.push(t_next);
            ys = ys.push(next);
            assert forall|k: int| #![trigger ts[k + 1]] 0 <= k < s + 1 implies {
                &&& step.ensures((ts[k], &ys[k]), ys[k + 1])
                &&& tick.ensures((ts[k],), ts[k + 1])
            } by {
                if k < s {
                    assert(ts0[k + 1] == ts[k + 1]);
                    assert(ys0[k + 1] == ys[k + 1]);
                }
            }
            assert(ys.drop_last() =~= ys0);
        }
        push_state(&mut result, &next);
        y = next;
        t = t_next;
        s += 1;
    }
    proof {
        assert(follows(*step, *tick, t0, y0, steps as nat, ts, ys));
        lemma_trajectory_shape(*step, *tick, t0, y0, steps as nat, result@);
    }
    result
}

/// Appends the components of `y` to `out`, in order.
fn push_state<T: Copy, const N: usize>(out: &mut Vec<T>, y: &[T; N])
    ensures
        final(out)@ == old(out)@ + y@,
{
    let mut i: usize = 0;
    while i < N
        invariant
            0 <= i <= N,
            out@ == old(out)@ + y@.subrange(0, i as int),
        decreases N - i,
    {
        out.push(y[i]);
        i += 1;
        assert(y@.subrange(0, i as int) =~= y@.subrange(0, i - 1) + seq![y@[i - 1]]);
    }
    assert(y@.subrange(0, N as int) =~= y@);
}

} // verus!
