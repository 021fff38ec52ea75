//! Round-robin: the backends are taken in turn.

use vstd::prelude::*;

use crate::balancing::{BalanceError, BalancingStrategy};
use crate::config::{BackendCandidate, BackendConfig};

verus! {

/// Picks the candidates in turn: the n-th selection (counting from zero)
/// takes the candidate at position n modulo the number of candidates.
#[derive(Debug, Default)]
pub struct RoundRobin {
    next_index: usize,
}

/// The position a selection with the given cursor takes among `len` candidates.
pub open spec fn round_robin_slot(cursor: usize, len: nat) -> int {
    (cursor as int) % (len as int)
}

/// The cursor after one selection: one more, wrapping to zero after the
/// largest `usize`.
pub open spec fn next_cursor(cursor: usize) -> usize {
    if cursor == usize::MAX {
        0
    } else {
        (cursor + 1) as usize
    }
}

impl RoundRobin {
    /// The number of selections made so far (wrapping), which decides the next pick.
    pub closed spec fn cursor(&self) -> usize {
        self.next_index
    }

    /// Without candidates it fails; else it picks the candidate at the
    /// cursor's position.
    pub open spec fn pick(&self, candidates: Seq<BackendCandidate>) -> Result<BackendConfig, BalanceError> {
        if candidates.len() == 0 {
            Err(BalanceError::NoBackendsAvailable)
        } else {
            Ok(candidates[round_robin_slot(self.cursor(), candidates.len())].backend)
        }
    }

    /// Without candidates the cursor stays; else it moves on by one.
    pub open spec fn advances_to(&self, candidates: Seq<BackendCandidate>, next: Self) -> bool {
        next.cursor() == if candidates.len() == 0 {
            self.cursor()
        } else {
            next_cursor(self.cursor())
        }
    }

    /// What a selection among `candidates` would return, without advancing the turn.
    pub(crate) fn peek(&self, candidates: &[BackendCandidate]) -> (r: Result<BackendConfig, BalanceError>)
        ensures
            r == self.pick(candidates@),
    {
        if candidates.len() == 0 {
            return Err(BalanceError::NoBackendsAvailable);
        }
        Ok(candidates[self.next_index % candidates.len()].backend.clone())
    }

    /// A round-robin that starts with the first candidate.
    pub fn new() -> (r: Self)
        ensures
            r.cursor() == 0,
    {
        RoundRobin { next_index: 0 }
    }

    /// Takes the position of this turn among `len` candidates and advances the turn.
    fn take_turn(&mut self, len: usize) -> (r: usize)
        requires
            len > 0,
        ensures
            r as int == round_robin_slot(old(self).cursor(), len as nat),
            r < len,
            final(self).cursor() == next_cursor(old(self).cursor()),
    {
        let index = self.next_index % len;
        self.next_index = self.next_index.wrapping_add(1);
        index
    }
}

impl BalancingStrategy for RoundRobin {
    /// Picks the backend of the candidate of this turn.
    fn select_backend(&mut self, candidates: &[BackendCandidate]) -> (r: Result<
        BackendConfig,
        BalanceError,
    >)
        ensures
            r == old(self).pick(candidates@),
            old(self).advances_to(candidates@, *final(self)),
            candidates@.len() == 0 ==> final(self).cursor() == old(self).cursor(),
            candidates@.len() > 0 ==> r == Ok::<BackendConfig, BalanceError>(
                candidates@[round_robin_slot(old(self).cursor(), candidates@.len())].backend,
            ) && final(self).cursor() == next_cursor(old(self).cursor()),
    {
        if candidates.len() == 0 {
            return Err(BalanceError::NoBackendsAvailable);
        }
        let index = self.take_turn(candidates.len());
        Ok(candidates[index].backend.clone())
    }
}

/// Over as many consecutive selections as there are candidates, starting
/// from any turn that does not wrap, every candidate is picked.
pub proof fn lemma_round_robin_visits_every_candidate(start: usize, len: nat, j: int)
    requires
        0 <= j < len,
        start + len <= usize::MAX,
    ensures
        exists|k: int| 0 <= k < len && #[trigger] round_robin_slot((start + k) as usize, len) == j,
{
    let s = start as int;
    let n = len as int;
    let k = (j - s % n + n) % n;
    assert(0 <= k < n) by (nonlinear_arith)
        requires
            n > 0,
            k == (j - s % n + n) % n;
    assert((s + k) % n == j) by (nonlinear_arith)
        requires
            n > 0,
            0 <= j < n,
            s >= 0,
            k == (j - s % n + n) % n;
    assert(round_robin_slot((start + k) as usize, len) == j);
}

/// Successive selections take successive positions, modulo the number of candidates.
pub proof fn lemma_round_robin_successive(cursor: usize, len: nat)
    requires
        len > 0,
        cursor < usize::MAX,
    ensures
        round_robin_slot(next_cursor(cursor), len) == (round_robin_slot(cursor, len) + 1) % (len as int),
{
    let c = cursor as int;
    let n = len as int;
    assert((c + 1) % n == (c % n + 1) % n) by (nonlinear_arith)
        requires n > 0, c >= 0;
}

/// Two turns less than `len` apart take different positions.
proof fn lemma_slots_differ(s: int, n: int, i: int, j: int)
    requires
        s >= 0,
        0 <= i < j < n,
    ensures
        (s + i) % n != (s + j) % n,
{
    let q1 = (s + i) / n;
    let q2 = (s + j) / n;
    assert(s + i == q1 * n + (s + i) % n && 0 <= (s + i) % n < n) by (nonlinear_arith)
        requires n > 0, q1 == (s + i) / n;
    assert(s + j == q2 * n + (s + j) % n && 0 <= (s + j) % n < n) by (nonlinear_arith)
        requires n > 0, q2 == (s + j) / n;
    if (s + i) % n == (s + j) % n {
        assert(j - i == (q2 - q1) * n) by (nonlinear_arith)
            requires
                s + i == q1 * n + (s + i) % n,
                s + j == q2 * n + (s + j) % n,
                (s + i) % n == (s + j) % n;
        assert(false) by (nonlinear_arith)
            requires
                j - i == (q2 - q1) * n,
                0 < j - i < n;
    }
}

/// No candidate is starved: over as many consecutive selections as there
/// are candidates, each selection (from the state the previous one left)
/// succeeds, no two of them take the same candidate, and every candidate is
/// taken, as long as the turns do not wrap around.
pub proof fn lemma_round_robin_no_starvation(states: Seq<RoundRobin>, candidates: Seq<BackendCandidate>)
    requires
        candidates.len() > 0,
        states.len() == candidates.len() + 1,
        forall|i: int| 0 <= i < candidates.len() ==> #[trigger] states[i].advances_to(candidates, states[i + 1]),
        states[0].cursor() + candidates.len() <= usize::MAX,
    ensures
        forall|i: int| 0 <= i < candidates.len() ==> #[trigger] states[i].pick(candidates) == Ok::<BackendConfig, BalanceError>(
            candidates[round_robin_slot(states[i].cursor(), candidates.len())].backend,
        ),
        forall|i: int, j: int|
            0 <= i < candidates.len() && 0 <= j < candidates.len() && i != j ==> round_robin_slot(
                #[trigger] states[i].cursor(),
                candidates.len(),
            ) != round_robin_slot(#[trigger] states[j].cursor(), candidates.len()),
        forall|p: int|
            #![trigger candidates[p]]
            0 <= p < candidates.len() ==> exists|i: int|
                #![trigger states[i]]
                0 <= i < candidates.len() && round_robin_slot(states[i].cursor(), candidates.len()) == p
                    && states[i].pick(candidates) == Ok::<BackendConfig, BalanceError>(candidates[p].backend),
{
    let n = candidates.len();
    let start = states[0].cursor();
    assert forall|i: int| 0 <= i <= n implies #[trigger] states[i].cursor() == start + i by {
        lemma_cursor_run(states, candidates, i);
    }
    assert forall|i: int, j: int|
        0 <= i < n && 0 <= j < n && i != j implies round_robin_slot(
            #[trigger] states[i].cursor(),
            n,
        ) != round_robin_slot(#[trigger] states[j].cursor(), n) by {
        if i < j {
            lemma_slots_differ(start as int, n as int, i, j);
        } else {
            lemma_slots_differ(start as int, n as int, j, i);
        }
    }
    assert forall|p: int| #![trigger candidates[p]] 0 <= p < n implies exists|i: int|
        #![trigger states[i]]
        0 <= i < n && round_robin_slot(states[i].cursor(), n) == p
            && states[i].pick(candidates) == Ok::<BackendConfig, BalanceError>(candidates[p].backend) by {
        lemma_round_robin_visits_every_candidate(start, n, p);
        let k = choose|k: int| 0 <= k < n && #[trigger] round_robin_slot((start + k) as usize, n) == p;
        assert(states[k].cursor() == start + k);
        assert(round_robin_slot(states[k].cursor(), n) == p);
    }
}

/// Along a run of selections among the same non-empty candidates, the
/// cursor counts the selections.
proof fn lemma_cursor_run(states: Seq<RoundRobin>, candidates: Seq<BackendCandidate>, i: int)
    requires
        candidates.len() > 0,
        states.len() == candidates.len() + 1,
        forall|k: int| 0 <= k < candidates.len() ==> #[trigger] states[k].advances_to(candidates, states[k + 1]),
        states[0].cursor() + candidates.len() <= usize::MAX,
        0 <= i <= candidates.len(),
    ensures
        states[i].cursor() == states[0].cursor() + i,
    decreases i,
{
    if i > 0 {
        lemma_cursor_run(states, candidates, i - 1);
        let k = i - 1;
        assert(states[k].advances_to(candidates, states[k + 1]));
    }
}

/// A round-robin selection among non-empty candidates takes the candidate at
/// the cursor modulo their number and moves the cursor on by one (to zero
/// after the largest `usize`); among no candidates it fails and keeps the
/// cursor.
pub proof fn lemma_round_robin_selection(rr: RoundRobin, candidates: Seq<BackendCandidate>, next: RoundRobin)
    ensures
        candidates.len() > 0 ==> rr.pick(candidates) == Ok::<BackendConfig, BalanceError>(
            candidates[(rr.cursor() as int) % (candidates.len() as int)].backend,
        ),
        candidates.len() == 0 ==> rr.pick(candidates) == Err::<BackendConfig, BalanceError>(
            BalanceError::NoBackendsAvailable,
        ),
        rr.advances_to(candidates, next) ==> next.cursor() == (if candidates.len() == 0 {
            rr.cursor() as int
        } else if rr.cursor() == usize::MAX {
            0
        } else {
            rr.cursor() + 1
        }),
{
}

} // verus!
