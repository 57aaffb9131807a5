//! Escape-time iteration: follow an orbit from a start point and report how
//! many points it took before one left the region.
use vstd::prelude::*;

verus! {

/// `orbit` starts at `start`, each point is a result that `step` may give
/// for the one before, and `escaped` may rate each of the first `inside`
/// points as still inside the region.
pub open spec fn orbit_run<S, E: Fn(S) -> bool, N: Fn(S) -> S>(
    escaped: E,
    step: N,
    start: S,
    orbit: Seq<S>,
    inside: int,
) -> bool {
    &&& 1 <= orbit.len()
    &&& orbit[0] == start
    &&& forall|k: int| 1 <= k < orbit.len() ==> step.ensures((orbit[k - 1],), #[trigger] orbit[k])
    &&& forall|k: int| 0 <= k < inside ==> escaped.ensures((#[trigger] orbit[k],), false)
}

/// What `escape_count` may return: `Some(i)` when, along a run of the orbit,
/// the first `i` points stay inside and point `i` (below `limit`) is rated
/// outside; `None` when all `limit` points checked stay inside.
pub open spec fn escape_outcome<S, E: Fn(S) -> bool, N: Fn(S) -> S>(
    escaped: E,
    step: N,
    start: S,
    limit: usize,
    r: Option<usize>,
) -> bool {
    match r {
        Some(i) => i < limit && exists|orbit: Seq<S>|
            #[trigger] orbit_run(escaped, step, start, orbit, i as int) && orbit.len() == i + 1
                && escaped.ensures((orbit[i as int],), true),
        None => exists|orbit: Seq<S>|
            #[trigger] orbit_run(escaped, step, start, orbit, limit as int) && orbit.len() == limit
                + 1,
    }
}

/// Starting from `start`, checks up to `limit` points of the orbit that
/// `step` traces: returns `Some(i)` for the first point `i` that `escaped`
/// rates outside, or `None` if none of the `limit` points is.
pub fn escape_count<S: Copy, E: Fn(S) -> bool, N: Fn(S) -> S>(
    start: S,
    limit: usize,
    escaped: E,
    step: N,
) -> (r: Option<usize>)
    requires
        forall|s: S| escaped.requires((s,)),
        forall|s: S| step.requires((s,)),
    ensures
        escape_outcome(escaped, step, start, limit, r),
{
    let mut z = start;
    let ghost mut orbit: Seq<S> = seq![start];
    let mut i: usize = 0;
    while i < limit
        invariant
            forall|s: S| escaped.requires((s,)),
            forall|s: S| step.requires((s,)),
            i <= limit,
            orbit.len() == i + 1,
            orbit[i as int] == z,
            orbit_run(escaped, step, start, orbit, i as int),
        decreases limit - i,
    {
        if escaped(z) {
            assert(orbit_run(escaped, step, start, orbit, i as int));
            return Some(i);
        }
        let next = step(z);
        proof {
            let grown = orbit.push(next);
            assert forall|k: int| 1 <= k < grown.len() implies step.ensures(
                (grown[k - 1],),
                #[trigger] grown[k],
            ) by {
                if k <= i {
                    assert(grown[k - 1] == orbit[k - 1] && grown[k] == orbit[k]);
                }
            }
            assert forall|k: int| 0 <= k < i + 1 implies escaped.ensures(
                (#[trigger] grown[k],),
                false,
            ) by {
                if k < i {
                    assert(grown[k] == orbit[k]);
                }
            }
            orbit = grown;
        }
        z = next;
        i = i + 1;
    }
    assert(orbit_run(escaped, step, start, orbit, limit as int));
    None
}

/// Two runs of a deterministic `step` from the same start agree on every
/// point that both reach.
proof fn lemma_runs_agree<S, E: Fn(S) -> bool, N: Fn(S) -> S>(
    escaped: E,
    step: N,
    start: S,
    first: Seq<S>,
    inside_first: int,
    second: Seq<S>,
    inside_second: int,
    k: int,
)
    requires
        forall|s: S, a: S, b: S| step.ensures((s,), a) && step.ensures((s,), b) ==> a == b,
        orbit_run(escaped, step, start, first, inside_first),
        orbit_run(escaped, step, start, second, inside_second),
        0 <= k < first.len(),
        k < second.len(),
    ensures
        first[k] == second[k],
    decreases k,
{
    if k > 0 {
        lemma_runs_agree(escaped, step, start, first, inside_first, second, inside_second, k - 1);
        assert(step.ensures((first[k - 1],), first[k]));
        assert(step.ensures((second[k - 1],), second[k]));
    }
}

/// Classification is a function of its inputs: where `escaped` and `step`
/// each give one result per argument, every result that `escape_count` may
/// return for the same start and limit is the same.
pub proof fn lemma_escape_outcome_unique<S, E: Fn(S) -> bool, N: Fn(S) -> S>(
    escaped: E,
    step: N,
    start: S,
    limit: usize,
    r1: Option<usize>,
    r2: Option<usize>,
)
    requires
        forall|s: S, a: bool, b: bool|
            escaped.ensures((s,), a) && escaped.ensures((s,), b) ==> a == b,
        forall|s: S, a: S, b: S| step.ensures((s,), a) && step.ensures((s,), b) ==> a == b,
        escape_outcome(escaped, step, start, limit, r1),
        escape_outcome(escaped, step, start, limit, r2),
    ensures
        r1 == r2,
{
    match (r1, r2) {
        (Some(i), Some(j)) => {
            let o1 = choose|o: Seq<S>|
                #[trigger] orbit_run(escaped, step, start, o, i as int) && o.len() == i + 1
                    && escaped.ensures((o[i as int],), true);
            let o2 = choose|o: Seq<S>|
                #[trigger] orbit_run(escaped, step, start, o, j as int) && o.len() == j + 1
                    && escaped.ensures((o[j as int],), true);
            if i < j {
                lemma_runs_agree(escaped, step, start, o1, i as int, o2, j as int, i as int);
                assert(escaped.ensures((o2[i as int],), false));
            } else if j < i {
                lemma_runs_agree(escaped, step, start, o1, i as int, o2, j as int, j as int);
                assert(escaped.ensures((o1[j as int],), false));
            }
        },
        (Some(i), None) => {
            let o1 = choose|o: Seq<S>|
                #[trigger] orbit_run(escaped, step, start, o, i as int) && o.len() == i + 1
                    && escaped.ensures((o[i as int],), true);
            let o2 = choose|o: Seq<S>|
                #[trigger] orbit_run(escaped, step, start, o, limit as int) && o.len() == limit
                    + 1;
            lemma_runs_agree(escaped, step, start, o1, i as int, o2, limit as int, i as int);
            assert(escaped.ensures((o2[i as int],), false));
        },
        (None, Some(j)) => {
            let o1 = choose|o: Seq<S>|
                #[trigger] orbit_run(escaped, step, start, o, limit as int) && o.len() == limit
                    + 1;
            let o2 = choose|o: Seq<S>|
                #[trigger] orbit_run(escaped, step, start, o, j as int) && o.len() == j + 1
                    && escaped.ensures((o[j as int],), true);
            lemma_runs_agree(escaped, step, start, o1, limit as int, o2, j as int, j as int);
            assert(escaped.ensures((o1[j as int],), false));
        },
        (None, None) => {},
    }
}

} // verus!
