//! The replay verifier: recomputes the outcome of a match from its operation
//! log alone, with no clock, no random source and no network.
use vstd::prelude::*;
use crate::types::{Address, Position, Operation};
use crate::ranking::{
    score_table, distinct_accounts, is_ranking, rank_entries, lemma_score_table,
    abi_address_array, encode_ranking, score_of,
};

verus! {

/// What a replay has derived so far: the cakes still on the board, in
/// creation order, the score of each account that ate one, and the last
/// index created.
pub struct Tally {
    pub cakes: Seq<(u32, Position)>,
    pub scores: Map<Address, nat>,
    pub last_index: nat,
}

/// The cakes of `cakes` that are not at `p`, in order.
pub open spec fn cakes_off(cakes: Seq<(u32, Position)>, p: Position) -> Seq<(u32, Position)>
    decreases cakes.len(),
{
    if cakes.len() == 0 {
        Seq::empty()
    } else {
        let rest = cakes_off(cakes.drop_last(), p);
        if cakes.last().1 == p {
            rest
        } else {
            rest.push(cakes.last())
        }
    }
}

/// How many cakes of `cakes` are at `p`.
pub open spec fn count_at(cakes: Seq<(u32, Position)>, p: Position) -> nat
    decreases cakes.len(),
{
    if cakes.len() == 0 {
        0
    } else {
        count_at(cakes.drop_last(), p) + if cakes.last().1 == p {
            1nat
        } else {
            0nat
        }
    }
}

/// The cakes of `cakes` whose index is not `i`, in order.
pub open spec fn without_index(cakes: Seq<(u32, Position)>, i: u32) -> Seq<(u32, Position)>
    decreases cakes.len(),
{
    if cakes.len() == 0 {
        Seq::empty()
    } else {
        let rest = without_index(cakes.drop_last(), i);
        if cakes.last().0 == i {
            rest
        } else {
            rest.push(cakes.last())
        }
    }
}

/// Some cake of `cakes` has index `i`.
pub open spec fn tracks(cakes: Seq<(u32, Position)>, i: u32) -> bool {
    exists|j: int| 0 <= j < cakes.len() && cakes[j].0 == i
}

/// The effect of one log entry, or `None` when the entry cannot follow the
/// tally: a created index that is not above every earlier one, or a missed
/// index that no cake on the board has.
pub open spec fn apply_operation(t: Tally, op: Operation) -> Option<Tally> {
    match op {
        Operation::Move(a, row, col) => {
            let p = Position { row, col };
            let hit = count_at(t.cakes, p);
            Some(
                Tally {
                    cakes: cakes_off(t.cakes, p),
                    scores: if hit > 0 {
                        t.scores.insert(a, score_of(t.scores, a) + hit)
                    } else {
                        t.scores
                    },
                    last_index: t.last_index,
                },
            )
        },
        Operation::CakeCreated(i, row, col) => {
            if i > t.last_index {
                Some(
                    Tally {
                        cakes: t.cakes.push((i, Position { row, col })),
                        scores: t.scores,
                        last_index: i as nat,
                    },
                )
            } else {
                None
            }
        },
        Operation::CakeMissed(i) => {
            if tracks(t.cakes, i) {
                Some(Tally { cakes: without_index(t.cakes, i), scores: t.scores, last_index: t.last_index })
            } else {
                None
            }
        },
    }
}

/// The tally before any entry.
pub open spec fn empty_tally() -> Tally {
    Tally { cakes: Seq::empty(), scores: Map::empty(), last_index: 0 }
}

/// The tally after a whole log, or `None` when some entry cannot follow the
/// ones before it.
pub open spec fn replay_log(ops: Seq<Operation>) -> Option<Tally>
    decreases ops.len(),
{
    if ops.len() == 0 {
        Some(empty_tally())
    } else {
        match replay_log(ops.drop_last()) {
            Some(t) => apply_operation(t, ops.last()),
            None => None,
        }
    }
}

/// Why a log was refused. Each names the position of the first entry that
/// cannot follow the ones before it.
#[derive(Clone, Copy, Debug, PartialEq, Eq, Structural)]
pub enum LogError {
    /// A missed cake that is not on the board.
    UnknownCake(usize),
    /// A created cake whose index is not above every earlier one.
    StaleIndex(usize),
}

/// The error a replay of `ops` reports: the first entry that cannot follow.
pub open spec fn log_fault(ops: Seq<Operation>, e: LogError) -> bool {
    match e {
        LogError::UnknownCake(k) => {
            &&& k < ops.len()
            &&& replay_log(ops.take(k as int)) is Some
            &&& ops[k as int] matches Operation::CakeMissed(i) && !tracks(
                replay_log(ops.take(k as int))->Some_0.cakes,
                i,
            )
        },
        LogError::StaleIndex(k) => {
            &&& k < ops.len()
            &&& replay_log(ops.take(k as int)) is Some
            &&& ops[k as int] matches Operation::CakeCreated(i, _, _) && i <= replay_log(
                ops.take(k as int),
            )->Some_0.last_index
        },
    }
}

/// Changing the score of an account already in a list of distinct entries
/// changes its table at that account only.
proof fn lemma_table_update(s: Seq<(Address, u64)>, j: int, v: u64)
    requires
        distinct_accounts(s),
        0 <= j < s.len(),
    ensures
        score_table(s.update(j, (s[j].0, v))) == score_table(s).insert(s[j].0, v as nat),
        distinct_accounts(s.update(j, (s[j].0, v))),
    decreases s.len(),
{
    let u = s.update(j, (s[j].0, v));
    if j == s.len() - 1 {
        assert(u.drop_last() =~= s.drop_last());
        let t = s.drop_last();
        assert(distinct_accounts(t));
        lemma_score_table(t);
        assert(score_table(u) =~= score_table(s).insert(s[j].0, v as nat));
    } else {
        let t = s.drop_last();
        assert(distinct_accounts(t));
        lemma_table_update(t, j, v);
        assert(u.drop_last() =~= t.update(j, (s[j].0, v)));
        assert(s[j].0 != s.last().0);
        assert(score_table(u) =~= score_table(s).insert(s[j].0, v as nat));
    }
}

/// One step of a replay: the effect of `op` on the cakes, scores and last index.
fn replay_step(
    cakes: &mut Vec<(u32, Position)>,
    scores: &mut Vec<(Address, u64)>,
    last_index: &mut u32,
    op: Operation,
    bound: usize,
) -> (ok: bool)
    requires
        distinct_accounts(old(scores)@),
        forall|j: int| 0 <= j < old(scores)@.len() ==> #[trigger] old(scores)@[j].1 + old(cakes)@.len() < bound,
        old(cakes)@.len() < bound,
    ensures
        ok == apply_operation(
            Tally { cakes: old(cakes)@, scores: score_table(old(scores)@), last_index: *old(last_index) as nat },
            op,
        ) is Some,
        ok ==> apply_operation(
            Tally { cakes: old(cakes)@, scores: score_table(old(scores)@), last_index: *old(last_index) as nat },
            op,
        ) == Some(Tally { cakes: final(cakes)@, scores: score_table(final(scores)@), last_index: *final(last_index) as nat }),
        distinct_accounts(final(scores)@),
        final(cakes)@.len() <= bound,
        forall|j: int| 0 <= j < final(scores)@.len() ==> #[trigger] final(scores)@[j].1 + final(cakes)@.len() <= bound,
{
    let ghost t = Tally { cakes: cakes@, scores: score_table(scores@), last_index: *last_index as nat };
    match op {
        Operation::Move(a, row, col) => {
            let p = Position { row, col };
            let mut kept: Vec<(u32, Position)> = Vec::new();
            let mut hit: u64 = 0;
            let mut j: usize = 0;
            while j < cakes.len()
                invariant
                    j <= cakes.len(),
                    cakes@ == t.cakes,
                    kept@ == cakes_off(cakes@.take(j as int), p),
                    hit == count_at(cakes@.take(j as int), p),
                    kept.len() + hit == j,
                decreases cakes.len() - j,
            {
                assert(cakes@.take(j + 1).drop_last() =~= cakes@.take(j as int));
                if cakes[j].1 == p {
                    hit = hit + 1;
                } else {
                    kept.push(cakes[j]);
                }
                j = j + 1;
            }
            assert(cakes@.take(cakes.len() as int) =~= cakes@);
            if hit > 0 {
                let mut k: usize = 0;
                while k < scores.len() && scores[k].0 != a
                    invariant
                        k <= scores.len(),
                        forall|m: int| 0 <= m < k ==> (#[trigger] scores@[m]).0 != a,
                    decreases scores.len() - k,
                {
                    k = k + 1;
                }
                proof {
                    lemma_score_table(scores@);
                }
                if k < scores.len() {
                    let v = scores[k].1 + hit;
                    proof {
                        lemma_table_update(scores@, k as int, v);
                        assert(scores@[k as int].1 + cakes.len() < bound);
                    }
                    scores.set(k, (a, v));
                } else {
                    proof {
                        assert(!score_table(scores@).contains_key(a));
                        assert(score_table(scores@.push((a, hit))) =~= score_table(scores@).insert(a, hit as nat)) by {
                            assert(scores@.push((a, hit)).drop_last() =~= scores@);
                        }
                    }
                    scores.push((a, hit));
                }
            }
            *cakes = kept;
            true
        },
        Operation::CakeCreated(i, row, col) => {
            if i > *last_index {
                cakes.push((i, Position { row, col }));
                *last_index = i;
                true
            } else {
                false
            }
        },
        Operation::CakeMissed(i) => {
            let mut kept: Vec<(u32, Position)> = Vec::new();
            let mut found = false;
            let mut j: usize = 0;
            while j < cakes.len()
                invariant
                    j <= cakes.len(),
                    cakes@ == t.cakes,
                    kept@ == without_index(cakes@.take(j as int), i),
                    found == tracks(cakes@.take(j as int), i),
                    kept.len() <= j,
                decreases cakes.len() - j,
            {
                assert(cakes@.take(j + 1).drop_last() =~= cakes@.take(j as int));
                proof {
                    let pre = cakes@.take(j as int);
                    let pre1 = cakes@.take(j + 1);
                    if tracks(pre, i) {
                        let w = choose|w: int| 0 <= w < pre.len() && pre[w].0 == i;
                        assert(pre1[w].0 == i);
                    }
                    if tracks(pre1, i) && cakes@[j as int].0 != i {
                        let w = choose|w: int| 0 <= w < pre1.len() && pre1[w].0 == i;
                        assert(pre[w].0 == i);
                    }
                    if cakes@[j as int].0 == i {
                        assert(pre1[j as int].0 == i);
                    }
                }
                if cakes[j].0 == i {
                    found = true;
                } else {
                    kept.push(cakes[j]);
                }
                j = j + 1;
            }
            assert(cakes@.take(cakes.len() as int) =~= cakes@);
            if found {
                *cakes = kept;
                true
            } else {
                false
            }
        },
    }
}

/// Replays a log: the score of each account that ate a cake, in the order
/// they first scored, or the first entry that cannot follow the ones before it.
pub fn replay_scores(ops: &Vec<Operation>) -> (r: Result<Vec<(Address, u64)>, LogError>)
    ensures
        match r {
            Ok(scores) => replay_log(ops@) is Some && distinct_accounts(scores@) && score_table(
                scores@,
            ) == replay_log(ops@)->Some_0.scores,
            Err(e) => replay_log(ops@) is None && log_fault(ops@, e),
        },
{
    let mut cakes: Vec<(u32, Position)> = Vec::new();
    let mut scores: Vec<(Address, u64)> = Vec::new();
    let mut last_index: u32 = 0;
    let mut i: usize = 0;
    assert(score_table(scores@) =~= Map::empty());
    while i < ops.len()
        invariant
            i <= ops.len(),
            replay_log(ops@.take(i as int)) == Some(
                Tally { cakes: cakes@, scores: score_table(scores@), last_index: last_index as nat },
            ),
            distinct_accounts(scores@),
            cakes.len() <= i,
            forall|j: int| 0 <= j < scores@.len() ==> #[trigger] scores@[j].1 + cakes@.len() <= i,
        decreases ops.len() - i,
    {
        let op = ops[i];
        assert(ops@.take(i + 1).drop_last() =~= ops@.take(i as int));
        let ghost before = Tally { cakes: cakes@, scores: score_table(scores@), last_index: last_index as nat };
        let ok = replay_step(&mut cakes, &mut scores, &mut last_index, op, i + 1);
        if !ok {
            proof {
                lemma_fault_stays(ops@, i as int);
            }
            return match op {
                Operation::CakeMissed(_) => Err(LogError::UnknownCake(i)),
                _ => Err(LogError::StaleIndex(i)),
            };
        }
        i = i + 1;
    }
    assert(ops@.take(ops.len() as int) =~= ops@);
    Ok(scores)
}

/// Once an entry cannot follow, no longer log replays either.
proof fn lemma_fault_stays(ops: Seq<Operation>, k: int)
    requires
        0 <= k < ops.len(),
        replay_log(ops.take(k + 1)) is None,
    ensures
        replay_log(ops) is None,
    decreases ops.len(),
{
    if ops.len() > k + 1 {
        assert(ops.drop_last().take(k + 1) =~= ops.take(k + 1));
        lemma_fault_stays(ops.drop_last(), k);
    } else {
        assert(ops.take(k + 1) =~= ops);
    }
}

/// Replays a log and ranks the accounts that ate a cake: by descending
/// score, ties by the account order. A log that cannot be replayed is
/// refused whole, naming its first faulty entry.
pub fn replay_ranking(ops: &Vec<Operation>) -> (r: Result<Vec<Address>, LogError>)
    ensures
        match r {
            Ok(order) => replay_log(ops@) is Some && is_ranking(order@, replay_log(ops@)->Some_0.scores),
            Err(e) => replay_log(ops@) is None && log_fault(ops@, e),
        },
{
    match replay_scores(ops) {
        Ok(scores) => Ok(rank_entries(&scores)),
        Err(e) => Err(e),
    }
}

/// Replays a log and commits to its ranking: the ABI encoding of the ranked
/// accounts. A log that cannot be replayed gives no output at all.
pub fn replay_commit(ops: &Vec<Operation>) -> (r: Result<Vec<u8>, LogError>)
    ensures
        match r {
            Ok(bytes) => replay_log(ops@) is Some && exists|order: Seq<Address>|
                is_ranking(order, replay_log(ops@)->Some_0.scores) && bytes@ == abi_address_array(order),
            Err(e) => replay_log(ops@) is None && log_fault(ops@, e),
        },
{
    match replay_scores(ops) {
        Ok(scores) => Ok(encode_ranking(&scores)),
        Err(e) => Err(e),
    }
}

} // verus!
