use vstd::prelude::*;

verus! {

/// Of the concatenated path, one sample in every this many is kept in the output.
pub const DECIMATION_STEP: usize = 4;

/// The samples of all parts, one part after another.
pub open spec fn concat_views<T>(parts: Seq<Vec<T>>) -> Seq<T> {
    parts.map_values(|p: Vec<T>| p@).flatten()
}

/// Every `step`-th sample of `s`, starting with the first.
pub open spec fn every_nth<T>(s: Seq<T>, step: nat) -> Seq<T>
    recommends
        step > 0,
{
    Seq::new(((s.len() + step - 1) / step as int) as nat, |k: int| s[k * step])
}

proof fn lemma_concat_views_push<T>(parts: Seq<Vec<T>>, i: int)
    requires
        0 <= i < parts.len(),
    ensures
        concat_views(parts.take(i + 1)) == concat_views(parts.take(i)) + parts[i]@,
{
    assert(parts.take(i + 1).map_values(|p: Vec<T>| p@) =~= parts.take(i).map_values(
        |p: Vec<T>| p@,
    ).push(parts[i]@));
    parts.take(i).map_values(|p: Vec<T>| p@).lemma_flatten_push(parts[i]@);
}

proof fn lemma_ceil_step(g: int, n: int, step: int)
    requires
        step > 0,
        n >= 0,
        g >= 0,
        n * step >= g,
        (n - 1) * step < g || n == 0,
    ensures
        (g + step - 1) / step == n,
{
    assert((g + step - 1) / step == n) by (nonlinear_arith)
        requires
            step > 0,
            n >= 0,
            g >= 0,
            n * step >= g,
            (n - 1) * step < g || n == 0,
    {
        let q = (g + step - 1) / step;
        let rem = (g + step - 1) % step;
        assert(g + step - 1 == q * step + rem);
        assert(0 <= rem < step);
        if q < n {
            assert(q <= n - 1);
            assert(q * step <= (n - 1) * step);
        } else if q > n {
            assert(q >= n + 1);
            assert(q * step >= (n + 1) * step);
        }
    }
}

/// Concatenates the parts in order and keeps every `step`-th sample of the
/// result, starting with the first.
pub fn decimate_concat<T: Copy>(parts: &Vec<Vec<T>>, step: usize) -> (r: Vec<T>)
    requires
        step > 0,
    ensures
        r@ == every_nth(concat_views(parts@), step as nat),
{
    let mut r: Vec<T> = Vec::new();
    let mut phase: usize = 0;
    let ghost mut done: Seq<T> = Seq::empty();
    let mut i: usize = 0;
    while i < parts.len()
        invariant
            step > 0,
            i <= parts.len(),
            phase < step,
            done == concat_views(parts@.take(i as int)),
            phase == 0 ==> done.len() == r@.len() * step,
            phase > 0 ==> r@.len() > 0 && done.len() == (r@.len() - 1) * step + phase,
            forall|k: int| 0 <= k < r@.len() ==> #[trigger] r@[k] == done[k * step],
        decreases parts.len() - i,
    {
        let part = &parts[i];
        proof {
            lemma_concat_views_push(parts@, i as int);
            assert(done + part@.take(0) =~= done);
        }
        let ghost before = done;
        let mut j: usize = 0;
        while j < part.len()
            invariant
                step > 0,
                i < parts.len(),
                part == parts@[i as int],
                j <= part.len(),
                phase < step,
                done == before + part@.take(j as int),
                phase == 0 ==> done.len() == r@.len() * step,
                phase > 0 ==> r@.len() > 0 && done.len() == (r@.len() - 1) * step + phase,
                forall|k: int|
                    0 <= k < r@.len() ==> #[trigger] r@[k] == done[k * step],
            decreases part.len() - j,
        {
            let ghost old_len = r@.len();
            let ghost old_done = done;
            let ghost old_phase = phase;
            let x = part[j];
            if phase == 0 {
                r.push(x);
                proof {
                    assert((old_len + 1) * step == old_len * step + step) by (nonlinear_arith);
                }
            }
            phase = if phase + 1 == step {
                0
            } else {
                phase + 1
            };
            proof {
                done = done.push(x);
                assert(done =~= before + part@.take(j + 1));
                assert forall|k: int| 0 <= k < r@.len() implies #[trigger] r@[k]
                    == done[k * step] by {
                    if k < old_len {
                        assert(old_done.len() >= (old_len - 1) * step + 1) by (nonlinear_arith)
                            requires
                                0 <= k < old_len,
                                step > 0,
                                old_phase == 0 ==> old_done.len() == old_len * step,
                                old_phase > 0 ==> old_done.len() == (old_len - 1) * step + old_phase,
                        ;
                        assert(k * step <= (old_len - 1) * step) by (nonlinear_arith)
                            requires
                                0 <= k < old_len,
                                step > 0,
                        ;
                        assert(r@[k] == old_done[k * step]);
                    } else {
                        assert(k * step == old_done.len());
                    }
                }
                if phase == 0 && old_len > 0 {
                    assert((old_len - 1) * step + step == old_len * step) by (nonlinear_arith);
                }
            }
            j = j + 1;
        }
        proof {
            assert(part@.take(part@.len() as int) =~= part@);
        }
        i = i + 1;
    }
    proof {
        assert(parts@.take(parts@.len() as int) =~= parts@);
        if phase == 0 {
            if r@.len() > 0 {
                assert((r@.len() - 1) * step < r@.len() * step) by (nonlinear_arith)
                    requires
                        step > 0,
                ;
            }
        } else {
            assert(r@.len() * step == (r@.len() - 1) * step + step) by (nonlinear_arith);
        }
        lemma_ceil_step(done.len() as int, r@.len() as int, step as int);
        assert(r@ =~= every_nth(done, step as nat));
    }
    r
}

/// Where segment `k` starts: the last point of the nearest earlier segment
/// that emitted any, or the anchor where none did.
pub open spec fn start_of<P>(runs: Seq<Vec<P>>, anchor: P, k: int) -> P
    decreases k,
{
    if k <= 0 {
        anchor
    } else if runs[k - 1]@.len() > 0 {
        runs[k - 1]@.last()
    } else {
        start_of(runs, anchor, k - 1)
    }
}

/// The forces `carried[k + 1]` that segment `k + 1` starts from are those
/// derived at the end of segment `k`, or `carried[k]` where none could be.
pub open spec fn carries_forces<P, F, D: Fn(&Vec<P>) -> Option<F>>(
    runs: Seq<Vec<P>>,
    carried: Seq<F>,
    initial: F,
    derive: D,
) -> bool {
    &&& carried.len() == runs.len()
    &&& carried.len() > 0 ==> carried[0] == initial
    &&& forall|k: int|
        0 <= k < runs.len() - 1 ==> (derive.ensures((&runs[k],), Some(carried[k + 1]))
            || derive.ensures((&runs[k],), None::<F>) && carried[k + 1] == carried[k])
}

proof fn lemma_start_of_prefix<P>(long: Seq<Vec<P>>, short: Seq<Vec<P>>, anchor: P, j: int)
    requires
        0 <= j <= short.len() <= long.len(),
        forall|i: int| 0 <= i < short.len() ==> long[i] == short[i],
    ensures
        start_of(long, anchor, j) == start_of(short, anchor, j),
    decreases j,
{
    if j > 0 {
        lemma_start_of_prefix(long, short, anchor, j - 1);
    }
}

/// Integrates `n` segments in order. Segment `k` is handed to
/// `integrate(k, start, forces)`, where `start` is the last point emitted
/// before it (the anchor for the first) and `forces` are those that `derive`
/// found at the end of the segment before (`initial` for the first, and
/// unchanged where `derive` finds none).
pub fn chain_segments<P: Copy, F: Copy, I: Fn(usize, P, F) -> Vec<P>, D: Fn(&Vec<P>) -> Option<F>>(
    n: usize,
    anchor: P,
    initial: F,
    integrate: I,
    derive: D,
) -> (r: Vec<Vec<P>>)
    requires
        forall|k: usize, p: P, f: F| k < n ==> integrate.requires((k, p, f)),
        forall|v: &Vec<P>| derive.requires((v,)),
    ensures
        r@.len() == n,
        exists|carried: Seq<F>|
            {
                &&& carries_forces(r@, carried, initial, derive)
                &&& forall|k: int|
                    0 <= k < n ==> integrate.ensures(
                        (k as usize, start_of(r@, anchor, k), carried[k]),
                        #[trigger] r@[k],
                    )
            },
{
    let mut r: Vec<Vec<P>> = Vec::new();
    let mut start = anchor;
    let mut forces = initial;
    let ghost mut carried: Seq<F> = Seq::empty();
    let mut k: usize = 0;
    while k < n
        invariant
            k <= n,
            r@.len() == k,
            forall|k: usize, p: P, f: F| k < n ==> integrate.requires((k, p, f)),
            forall|v: &Vec<P>| derive.requires((v,)),
            carried.len() == k,
            k == 0 ==> forces == initial,
            k > 0 ==> carries_forces(r@, carried, initial, derive),
            k > 0 ==> (derive.ensures((&r@[k - 1],), Some(forces)) || derive.ensures(
                (&r@[k - 1],),
                None::<F>,
            ) && forces == carried[k - 1]),
            start == start_of(r@, anchor, k as int),
            forall|j: int|
                0 <= j < k ==> integrate.ensures(
                    (j as usize, start_of(r@, anchor, j), carried[j]),
                    #[trigger] r@[j],
                ),
        decreases n - k,
    {
        let points = integrate(k, start, forces);
        let next = derive(&points);
        let ghost old_r = r@;
        proof {
            carried = carried.push(forces);
        }
        if points.len() > 0 {
            start = points[points.len() - 1];
        }
        match next {
            Some(f) => {
                forces = f;
            },
            None => {},
        }
        r.push(points);
        proof {
            assert forall|j: int| 0 <= j <= k implies start_of(r@, anchor, j) == start_of(
                old_r,
                anchor,
                j,
            ) by {
                lemma_start_of_prefix(r@, old_r, anchor, j);
            }
            assert(old_r =~= r@.take(k as int));
        }
        k = k + 1;
    }
    proof {
        assert(carries_forces(r@, carried, initial, derive));
    }
    r
}

/// `points` are what `step` emitted from `init` on, one call each: call `i`
/// was made on `states[i]` and gave `states[i + 1]` and `points[i]`.
pub open spec fn emitted_by<St, P, F: Fn(St) -> Option<(St, P)>>(
    step: F,
    init: St,
    states: Seq<St>,
    points: Seq<P>,
) -> bool {
    &&& states.len() == points.len() + 1
    &&& states[0] == init
    &&& forall|i: int|
        0 <= i < points.len() ==> step.ensures(
            (states[i],),
            Some((states[i + 1], #[trigger] points[i])),
        )
}

/// Advances a segment step by step from `init`, collecting what each step
/// emits, until `step` returns `None` (the segment is done, or the vehicle
/// stalled and the step is dropped) or `max_steps` points were emitted. After
/// a `None` nothing more is emitted.
pub fn run_steps<St: Copy, P, F: Fn(St) -> Option<(St, P)>>(init: St, max_steps: usize, step: F) -> (r:
    Vec<P>)
    requires
        forall|s: St| step.requires((s,)),
    ensures
        r@.len() <= max_steps,
        exists|states: Seq<St>|
            {
                &&& emitted_by(step, init, states, r@)
                &&& r@.len() < max_steps ==> step.ensures((states.last(),), None)
            },
{
    let mut r: Vec<P> = Vec::new();
    let mut state = init;
    let mut stopped = false;
    let ghost mut states: Seq<St> = seq![init];
    while !stopped && r.len() < max_steps
        invariant
            forall|s: St| step.requires((s,)),
            r@.len() <= max_steps,
            emitted_by(step, init, states, r@),
            state == states.last(),
            stopped ==> step.ensures((state,), None),
        decreases max_steps - r@.len() + (if stopped {
            0int
        } else {
            1int
        }),
    {
        match step(state) {
            Some((next, p)) => {
                let ghost old_r = r@;
                proof {
                    states = states.push(next);
                }
                r.push(p);
                state = next;
                proof {
                    assert forall|i: int| 0 <= i < r@.len() implies step.ensures(
                        (states[i],),
                        Some((states[i + 1], #[trigger] r@[i])),
                    ) by {
                        if i < old_r.len() {
                            assert(r@[i] == old_r[i]);
                        }
                    }
                }
            },
            None => {
                stopped = true;
            },
        }
    }
    r
}

} // verus!
