//! Properties that relate several calls of the room and of the replay verifier.
use vstd::prelude::*;
use crate::types::{
    Address, PeerId, Position, Player, Cake, Operation, Broadcast, GameError, Phase,
    MOVE_INTERVAL_MS, CAKE_LIFETIME_MS, CAKE_TARGET, elapsed,
};
use crate::ranking::{
    is_ranking, positive_table, lemma_positive_all, lemma_ranking_unique,
};
use crate::replay::replay_log;
use crate::model::{
    RoomModel, member_entries, member_scores, cakes_at, has_peer, slot_of, expired, expired_prefix,
    missed_broadcasts, eaten_broadcasts,
    lemma_cakes_split, lemma_move_wf, lemma_expiry_wf, lemma_spawn_wf, lemma_expired_prefix_bound,
};

verus! {

/// The log of every room replays without fault, to the scores of the
/// members that ate at least one cake.
pub proof fn lemma_log_replays(m: RoomModel)
    requires
        m.wf(),
    ensures
        replay_log(m.log) is Some,
        replay_log(m.log)->Some_0.scores == positive_table(member_entries(m.members)),
{
}

/// Replaying a room's log ranks the accounts exactly as the room itself
/// does, when every member ate at least one cake. (A member that ate none
/// never shows in the log, so the replay cannot rank it.)
pub proof fn lemma_replay_ranks_as_live(m: RoomModel, live: Seq<Address>, replayed: Seq<Address>)
    requires
        m.wf(),
        forall|i: int| 0 <= i < m.members.len() ==> (#[trigger] m.members[i]).player.score > 0,
        is_ranking(live, member_scores(m.members)),
        replay_log(m.log) is Some,
        is_ranking(replayed, replay_log(m.log)->Some_0.scores),
    ensures
        live == replayed,
{
    let e = member_entries(m.members);
    assert forall|j: int| 0 <= j < e.len() implies (#[trigger] e[j]).1 > 0 by {
        assert(m.members[j].player.score > 0);
    }
    lemma_positive_all(e);
    lemma_ranking_unique(live, replayed, member_scores(m.members));
}

/// A second call from a player less than the minimum interval after an
/// accepted move of theirs is refused with `Timeout`.
pub proof fn lemma_second_move_too_soon(
    m: RoomModel,
    peer: PeerId,
    method: Seq<char>,
    params: Seq<Option<u64>>,
    t0: u64,
    method2: Seq<char>,
    params2: Seq<Option<u64>>,
    t1: u64,
)
    requires
        m.wf(),
        m.after_call(peer, method, params, t0) is Ok,
        elapsed(t0, t1) < MOVE_INTERVAL_MS,
    ensures
        m.after_call(peer, method, params, t0)->Ok_0.0.after_call(peer, method2, params2, t1)
            == Err::<(RoomModel, Seq<Broadcast>), GameError>(GameError::Timeout),
{
    let slot = slot_of(m.members, peer);
    let p = Position { row: params[0]->Some_0, col: params[1]->Some_0 };
    lemma_move_wf(m, slot, p, t0);
    let m2 = m.after_call(peer, method, params, t0)->Ok_0.0;
    assert(m2.members[slot].peer == peer);
    assert(has_peer(m2.members, peer));
    let s2 = slot_of(m2.members, peer);
    if s2 < slot {
        assert(m2.members[s2].peer != m2.members[slot].peer);
    } else if s2 > slot {
        assert(m2.members[slot].peer != m2.members[s2].peer);
    }
}

/// Every cake at the front of the board up to an expired one has expired too.
proof fn lemma_expired_reaches(s: Seq<Cake>, now: u64, i: int)
    requires
        0 <= i < s.len(),
        forall|j: int| 0 <= j <= i ==> expired(#[trigger] s[j], now),
    ensures
        expired_prefix(s, now) > i,
    decreases i,
{
    if i > 0 {
        let t = s.drop_first();
        assert forall|j: int| 0 <= j <= i - 1 implies expired(#[trigger] t[j], now) by {
            assert(t[j] == s[j + 1]);
        }
        lemma_expired_reaches(t, now, i - 1);
    }
    assert(expired(s[0], now));
}

/// A cake on the board whose age reached the lifetime at a spawner run
/// leaves the board in that run: it joins the consumed cakes, the log gains
/// its `CakeMissed`, and an `eaten` broadcast with nobody and zero goes out.
pub proof fn lemma_expired_cake_missed(m: RoomModel, now: u64, cell: Position, i: int)
    requires
        m.wf(),
        m.phase == Phase::Started,
        0 <= i < m.alive.len(),
        elapsed(m.alive[i].timeout, now) >= CAKE_LIFETIME_MS,
    ensures
        m.after_tick(now, cell) is Ok,
        m.after_tick(now, cell)->Ok_0.0.consumed.contains(m.alive[i]),
        !m.after_tick(now, cell)->Ok_0.0.alive.contains(m.alive[i]),
        m.after_tick(now, cell)->Ok_0.0.log.contains(Operation::CakeMissed(m.alive[i].index)),
        m.after_tick(now, cell)->Ok_0.1.contains(Broadcast::Eaten(m.alive[i].index, None, 0)),
{
    let (m1, ev1) = m.after_expiry(now);
    let clock = m1.clock;
    let c = m.alive[i];
    assert forall|j: int| 0 <= j <= i implies expired(#[trigger] m.alive[j], clock) by {
        if j < i {
            assert(m.alive[j].timeout <= m.alive[i].timeout);
        }
    }
    lemma_expired_reaches(m.alive, clock, i);
    lemma_expired_prefix_bound(m.alive, clock);
    let k = expired_prefix(m.alive, clock) as int;
    let missed = m.alive.take(k).reverse();
    let w = k - 1 - i;
    assert(missed[w] == c);
    assert(m1.consumed[m.consumed.len() + w] == c);
    assert(m1.log[m.log.len() + w] == Operation::CakeMissed(c.index));
    assert(missed_broadcasts(missed)[w] == Broadcast::Eaten(c.index, None, 0));
    assert(ev1[w] == Broadcast::Eaten(c.index, None, 0));
    assert forall|j: int| 0 <= j < m1.alive.len() implies m1.alive[j] != c by {
        assert(m1.alive[j] == m.alive[j + k]);
        assert(m.alive[i].index < m.alive[j + k].index);
    }
    if m.spawned < CAKE_TARGET {
        let (m2, ev2) = m1.after_spawn(cell);
        assert(m2.consumed[m.consumed.len() + w] == c);
        assert(m2.log[m.log.len() + w] == Operation::CakeMissed(c.index));
        assert((ev1 + ev2)[w] == Broadcast::Eaten(c.index, None, 0));
        assert forall|j: int| 0 <= j < m2.alive.len() implies m2.alive[j] != c by {
            if j < m1.alive.len() {
                assert(m2.alive[j] == m1.alive[j]);
            } else {
                assert(c.index <= m.spawned);
            }
        }
    }
}

/// Exactly the cakes at a cell, in order: none of them.
proof fn lemma_cakes_at_none(s: Seq<Cake>, p: Position)
    requires
        forall|j: int| 0 <= j < s.len() ==> (#[trigger] s[j]).position != p,
    ensures
        cakes_at(s, p) == Seq::<Cake>::empty(),
    decreases s.len(),
{
    if s.len() > 0 {
        let t = s.drop_last();
        assert forall|j: int| 0 <= j < t.len() implies (#[trigger] t[j]).position != p by {
            assert(t[j] == s[j]);
        }
        lemma_cakes_at_none(t, p);
    }
}

/// Exactly the cakes at a cell, in order: the one at `a`.
proof fn lemma_cakes_at_one(s: Seq<Cake>, p: Position, a: int)
    requires
        0 <= a < s.len(),
        forall|j: int| 0 <= j < s.len() ==> ((#[trigger] s[j]).position == p <==> j == a),
    ensures
        cakes_at(s, p) == seq![s[a]],
    decreases s.len(),
{
    let t = s.drop_last();
    if a == s.len() - 1 {
        assert forall|j: int| 0 <= j < t.len() implies (#[trigger] t[j]).position != p by {
            assert(t[j] == s[j]);
        }
        lemma_cakes_at_none(t, p);
        assert(cakes_at(s, p) =~= seq![s[a]]);
    } else {
        assert forall|j: int| 0 <= j < t.len() implies ((#[trigger] t[j]).position == p <==> j == a) by {
            assert(t[j] == s[j]);
        }
        lemma_cakes_at_one(t, p, a);
        assert(s[s.len() - 1].position != p);
    }
}

/// Exactly the cakes at a cell, in order: the ones at `a` and `b`.
proof fn lemma_cakes_at_two(s: Seq<Cake>, p: Position, a: int, b: int)
    requires
        0 <= a < b < s.len(),
        forall|j: int| 0 <= j < s.len() ==> ((#[trigger] s[j]).position == p <==> (j == a || j == b)),
    ensures
        cakes_at(s, p) == seq![s[a], s[b]],
    decreases s.len(),
{
    let t = s.drop_last();
    if b == s.len() - 1 {
        assert forall|j: int| 0 <= j < t.len() implies ((#[trigger] t[j]).position == p <==> j == a) by {
            assert(t[j] == s[j]);
        }
        lemma_cakes_at_one(t, p, a);
        assert(cakes_at(s, p) =~= seq![s[a], s[b]]);
    } else {
        assert forall|j: int| 0 <= j < t.len() implies ((#[trigger] t[j]).position == p <==> (j == a
            || j == b)) by {
            assert(t[j] == s[j]);
        }
        lemma_cakes_at_two(t, p, a, b);
        assert(s[s.len() - 1].position != p);
    }
}

/// When exactly two cakes lie on a cell, a move onto it eats both at once
/// and raises the mover's score by exactly two.
pub proof fn lemma_two_cakes_one_move(m: RoomModel, slot: int, p: Position, now: u64, a: int, b: int)
    requires
        m.wf(),
        0 <= slot < m.members.len(),
        m.phase != Phase::Over,
        0 <= a < b < m.alive.len(),
        forall|j: int|
            0 <= j < m.alive.len() ==> ((#[trigger] m.alive[j]).position == p <==> (j == a || j == b)),
    ensures
        m.after_move(slot, p, now).0.members[slot].player.score == m.members[slot].player.score + 2,
        m.after_move(slot, p, now).0.consumed.contains(m.alive[a]),
        m.after_move(slot, p, now).0.consumed.contains(m.alive[b]),
        !m.after_move(slot, p, now).0.alive.contains(m.alive[a]),
        !m.after_move(slot, p, now).0.alive.contains(m.alive[b]),
{
    lemma_cakes_at_two(m.alive, p, a, b);
    lemma_cakes_split(m.alive, p);
    let m2 = m.after_move(slot, p, now).0;
    let eaten = cakes_at(m.alive, p).reverse();
    assert(eaten[0] == m.alive[b] && eaten[1] == m.alive[a]);
    assert(m2.consumed[m.consumed.len() as int] == m.alive[b]);
    assert(m2.consumed[m.consumed.len() + 1int] == m.alive[a]);
    assert(m.members[slot].player.score <= m.consumed.len());
}

/// A finished room refuses every call, spawner run and join with `Timeout`.
pub proof fn lemma_over_is_final(m: RoomModel, peer: PeerId, method: Seq<char>, params: Seq<Option<u64>>, player: Player, now: u64, cell: Position)
    requires
        m.phase == Phase::Over,
    ensures
        m.after_call(peer, method, params, now) == Err::<(RoomModel, Seq<Broadcast>), GameError>(GameError::Timeout),
        m.after_tick(now, cell) == Err::<(RoomModel, Seq<Broadcast>), GameError>(GameError::Timeout),
        m.after_join(player, now) == Err::<(RoomModel, Seq<Broadcast>), GameError>(GameError::Timeout),
{
}

/// An accepted move ends the match exactly when it brings the consumed
/// cakes to the target, and only then broadcasts `over`.
pub proof fn lemma_over_once_by_move(m: RoomModel, slot: int, p: Position, now: u64)
    requires
        m.wf(),
        0 <= slot < m.members.len(),
        m.phase != Phase::Over,
    ensures
        (m.after_move(slot, p, now).0.phase == Phase::Over) == (m.after_move(slot, p, now).0.consumed.len() == CAKE_TARGET),
        m.after_move(slot, p, now).1.contains(Broadcast::Over) == (m.after_move(slot, p, now).0.phase == Phase::Over),
{
    lemma_move_wf(m, slot, p, now);
    let (m2, ev) = m.after_move(slot, p, now);
    let member = m.members[slot];
    let eaten = cakes_at(m.alive, p).reverse();
    let ends = eaten.len() > 0 && m2.consumed.len() == CAKE_TARGET;
    let head = seq![Broadcast::Moved(member.account, p.row, p.col)] + eaten_broadcasts(eaten, member.account, member.player.score as nat);
    assert forall|j: int| 0 <= j < head.len() implies head[j] != Broadcast::Over by {
        if j > 0 {
            assert(head[j] == eaten_broadcasts(eaten, member.account, member.player.score as nat)[j - 1]);
        }
    }
    if ends {
        assert(ev[head.len() as int] == Broadcast::Over);
    } else {
        assert(ev =~= head);
    }
}

/// A spawner run ends the match exactly when it brings the consumed cakes to
/// the target, and only then broadcasts `over`.
pub proof fn lemma_over_once_by_tick(m: RoomModel, now: u64, cell: Position)
    requires
        m.wf(),
        m.phase != Phase::Over,
    ensures
        m.after_tick(now, cell) is Ok,
        (m.after_tick(now, cell)->Ok_0.0.phase == Phase::Over) == (m.after_tick(now, cell)->Ok_0.0.consumed.len() == CAKE_TARGET),
        m.after_tick(now, cell)->Ok_0.1.contains(Broadcast::Over) == (m.after_tick(now, cell)->Ok_0.0.phase == Phase::Over),
{
    if m.phase == Phase::Started {
        lemma_expiry_wf(m, now);
        let (m1, ev1) = m.after_expiry(now);
        let clock = m1.clock;
        lemma_expired_prefix_bound(m.alive, clock);
        let k = expired_prefix(m.alive, clock) as int;
        let missed = m.alive.take(k).reverse();
        let ends = k > 0 && m1.consumed.len() == CAKE_TARGET;
        let head = missed_broadcasts(missed);
        assert forall|j: int| 0 <= j < head.len() implies head[j] != Broadcast::Over by {}
        if ends {
            assert(ev1[head.len() as int] == Broadcast::Over);
        } else {
            assert(ev1 =~= head);
        }
        if m.spawned < CAKE_TARGET {
            lemma_spawn_wf(m1, cell);
            let (m2, ev2) = m1.after_spawn(cell);
            let ev = ev1 + ev2;
            if ends {
                assert(ev[head.len() as int] == Broadcast::Over);
            } else {
                assert forall|j: int| 0 <= j < ev.len() implies ev[j] != Broadcast::Over by {
                    if j < ev1.len() {
                        assert(ev[j] == head[j]);
                    }
                }
            }
        }
    } else {
        if m.after_tick(now, cell)->Ok_0.1.len() > 0 {
            assert(m.after_tick(now, cell)->Ok_0.1[0] == Broadcast::Started);
        }
    }
}

} // verus!
