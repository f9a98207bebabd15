//! The mathematical model of a room and of each of its transitions.
use vstd::prelude::*;
use crate::types::{
    Address, PeerId, Position, Player, GamePlayer, Member, Cake, Operation, Broadcast, GameError,
    Phase, Hosting, CAPACITY, MOVE_INTERVAL_MS, CAKE_LIFETIME_MS, CAKE_TARGET, WAITING_TIME_MS,
    elapsed, start_position,
};
use crate::ranking::{
    score_table, positive_table, distinct_accounts, lemma_positive_lookup, lemma_positive_update,
};
use crate::replay::{Tally, replay_log, apply_operation, cakes_off, count_at, without_index, tracks};

verus! {

/// The state of a room, as the contracts speak of it.
pub struct RoomModel {
    pub hosting: Hosting,
    pub phase: Phase,
    /// The registry, in joining order.
    pub members: Seq<Member>,
    /// Cakes on the board, in spawn order.
    pub alive: Seq<Cake>,
    /// Cakes eaten or missed, in the order they left the board.
    pub consumed: Seq<Cake>,
    /// The operation log.
    pub log: Seq<Operation>,
    /// Cakes spawned so far.
    pub spawned: nat,
    /// When the room was created, in milliseconds.
    pub opened_at: u64,
    /// The latest time a spawner run saw, in milliseconds.
    pub clock: u64,
}

/// The (account, score) entries of a registry, in joining order.
pub open spec fn member_entries(ms: Seq<Member>) -> Seq<(Address, u64)> {
    ms.map_values(|m: Member| (m.account, m.player.score as u64))
}

/// The score of every member's account.
pub open spec fn member_scores(ms: Seq<Member>) -> Map<Address, nat> {
    score_table(member_entries(ms))
}

/// The (index, position) of each cake, in order.
pub open spec fn cake_entries(s: Seq<Cake>) -> Seq<(u32, Position)> {
    s.map_values(|c: Cake| (c.index, c.position))
}

/// The cakes of `s` at `p`, in order.
pub open spec fn cakes_at(s: Seq<Cake>, p: Position) -> Seq<Cake>
    decreases s.len(),
{
    if s.len() == 0 {
        Seq::empty()
    } else if s.last().position == p {
        cakes_at(s.drop_last(), p).push(s.last())
    } else {
        cakes_at(s.drop_last(), p)
    }
}

/// The cakes of `s` not at `p`, in order.
pub open spec fn cakes_not_at(s: Seq<Cake>, p: Position) -> Seq<Cake>
    decreases s.len(),
{
    if s.len() == 0 {
        Seq::empty()
    } else if s.last().position == p {
        cakes_not_at(s.drop_last(), p)
    } else {
        cakes_not_at(s.drop_last(), p).push(s.last())
    }
}

/// Some member has the peer.
pub open spec fn has_peer(ms: Seq<Member>, peer: PeerId) -> bool {
    exists|i: int| 0 <= i < ms.len() && ms[i].peer == peer
}

/// Some member has the account.
pub open spec fn has_account(ms: Seq<Member>, account: Address) -> bool {
    exists|i: int| 0 <= i < ms.len() && ms[i].account == account
}

/// The place of the peer in the registry.
pub open spec fn slot_of(ms: Seq<Member>, peer: PeerId) -> int {
    choose|i: int| 0 <= i < ms.len() && ms[i].peer == peer
}

/// Whether a cake spawned at `timeout` has expired at `now`.
pub open spec fn expired(c: Cake, now: u64) -> bool {
    elapsed(c.timeout, now) >= CAKE_LIFETIME_MS
}

/// How many cakes at the front of `s` have expired at `now`.
pub open spec fn expired_prefix(s: Seq<Cake>, now: u64) -> nat
    decreases s.len(),
{
    if s.len() > 0 && expired(s[0], now) {
        1 + expired_prefix(s.drop_first(), now)
    } else {
        0
    }
}

/// The `eaten` broadcasts of a move that ate `eaten`, in that order, by an
/// account whose score was `base`: each carries the score after that cake.
pub open spec fn eaten_broadcasts(eaten: Seq<Cake>, who: Address, base: nat) -> Seq<Broadcast> {
    Seq::new(eaten.len(), |k: int| Broadcast::Eaten(eaten[k].index, Some(who), (base + k + 1) as u32))
}

/// The `eaten` broadcasts, with nobody and zero, of cakes that expired.
pub open spec fn missed_broadcasts(missed: Seq<Cake>) -> Seq<Broadcast> {
    Seq::new(missed.len(), |k: int| Broadcast::Eaten(missed[k].index, None, 0))
}

/// The log entries of cakes that expired.
pub open spec fn missed_operations(missed: Seq<Cake>) -> Seq<Operation> {
    Seq::new(missed.len(), |k: int| Operation::CakeMissed(missed[k].index))
}

/// `Over` when the match ends, nothing otherwise.
pub open spec fn over_broadcast(ends: bool) -> Seq<Broadcast> {
    if ends {
        seq![Broadcast::Over]
    } else {
        Seq::empty()
    }
}

/// The method name `move`.
pub open spec fn is_move_method(method: Seq<char>) -> bool {
    method == seq!['m', 'o', 'v', 'e']
}

/// Exactly two coordinates, each a non-negative integer.
pub open spec fn valid_move_params(params: Seq<Option<u64>>) -> bool {
    params.len() == 2 && params[0] is Some && params[1] is Some
}

/// Splitting cakes by a cell: what stays matches what a replay keeps, what
/// goes is what a replay counts, and nothing else changes.
pub proof fn lemma_cakes_split(s: Seq<Cake>, p: Position)
    ensures
        cake_entries(cakes_not_at(s, p)) == cakes_off(cake_entries(s), p),
        cakes_at(s, p).len() == count_at(cake_entries(s), p),
        cakes_at(s, p).len() + cakes_not_at(s, p).len() == s.len(),
        forall|x: Cake| #[trigger] cakes_not_at(s, p).contains(x) ==> s.contains(x) && x.position != p,
        forall|x: Cake| #[trigger] cakes_at(s, p).contains(x) ==> s.contains(x) && x.position == p,
        forall|x: Cake| s.contains(x) && x.position == p ==> #[trigger] cakes_at(s, p).contains(x),
        forall|x: Cake| s.contains(x) && x.position != p ==> #[trigger] cakes_not_at(s, p).contains(x),
    decreases s.len(),
{
    if s.len() > 0 {
        let t = s.drop_last();
        lemma_cakes_split(t, p);
        assert(cake_entries(s).drop_last() =~= cake_entries(t));
        let keep = cakes_not_at(s, p);
        let go = cakes_at(s, p);
        if s.last().position == p {
            assert(cake_entries(keep) =~= cakes_off(cake_entries(s), p));
        } else {
            assert(cake_entries(keep) =~= cakes_off(cake_entries(s), p));
        }
        assert forall|x: Cake| #[trigger] keep.contains(x) implies s.contains(x) && x.position != p by {
            let j = choose|j: int| 0 <= j < keep.len() && keep[j] == x;
            if j < cakes_not_at(t, p).len() {
                assert(cakes_not_at(t, p)[j] == x);
                assert(cakes_not_at(t, p).contains(x));
                let w = choose|w: int| 0 <= w < t.len() && t[w] == x;
                assert(s[w] == x);
            } else {
                assert(s[s.len() - 1] == x);
            }
        }
        assert forall|x: Cake| #[trigger] go.contains(x) implies s.contains(x) && x.position == p by {
            let j = choose|j: int| 0 <= j < go.len() && go[j] == x;
            if j < cakes_at(t, p).len() {
                assert(cakes_at(t, p)[j] == x);
                assert(cakes_at(t, p).contains(x));
                let w = choose|w: int| 0 <= w < t.len() && t[w] == x;
                assert(s[w] == x);
            } else {
                assert(s[s.len() - 1] == x);
            }
        }
        assert forall|x: Cake| s.contains(x) && x.position == p implies #[trigger] go.contains(x) by {
            let w = choose|w: int| 0 <= w < s.len() && s[w] == x;
            if w < s.len() - 1 {
                assert(t[w] == x);
                assert(t.contains(x));
                assert(cakes_at(t, p).contains(x));
                let j = choose|j: int| 0 <= j < cakes_at(t, p).len() && cakes_at(t, p)[j] == x;
                assert(go[j] == x);
            } else {
                assert(go[go.len() - 1] == x);
            }
        }
        assert forall|x: Cake| s.contains(x) && x.position != p implies #[trigger] keep.contains(x) by {
            let w = choose|w: int| 0 <= w < s.len() && s[w] == x;
            if w < s.len() - 1 {
                assert(t[w] == x);
                assert(t.contains(x));
                assert(cakes_not_at(t, p).contains(x));
                let j = choose|j: int| 0 <= j < cakes_not_at(t, p).len() && cakes_not_at(t, p)[j] == x;
                assert(keep[j] == x);
            } else {
                assert(keep[keep.len() - 1] == x);
            }
        }
    }
}

/// The cakes are in spawn order: increasing indices, non-decreasing spawn times.
pub open spec fn spawn_ordered(s: Seq<Cake>) -> bool {
    forall|i: int, j: int|
        0 <= i < j < s.len() ==> (#[trigger] s[i]).index < (#[trigger] s[j]).index && s[i].timeout
            <= s[j].timeout
}

/// Keeping the cakes off a cell keeps the spawn order.
pub proof fn lemma_not_at_ordered(s: Seq<Cake>, p: Position)
    requires
        spawn_ordered(s),
    ensures
        spawn_ordered(cakes_not_at(s, p)),
    decreases s.len(),
{
    if s.len() > 0 {
        let t = s.drop_last();
        assert(spawn_ordered(t));
        lemma_not_at_ordered(t, p);
        lemma_cakes_split(t, p);
        let r = cakes_not_at(t, p);
        if s.last().position != p {
            let k = r.push(s.last());
            assert forall|i: int, j: int| 0 <= i < j < k.len() implies (#[trigger] k[i]).index < (
            #[trigger] k[j]).index && k[i].timeout <= k[j].timeout by {
                if j == k.len() - 1 {
                    assert(r.contains(r[i]));
                    assert(t.contains(k[i]));
                    let w = choose|w: int| 0 <= w < t.len() && t[w] == k[i];
                    assert(s[w] == k[i]);
                    assert(s[s.len() - 1] == k[j]);
                } else {
                    assert(k[i] == r[i] && k[j] == r[j]);
                }
            }
        }
    }
}

/// Without any cake of index `i`, removing index `i` changes nothing.
pub proof fn lemma_without_absent(s: Seq<(u32, Position)>, i: u32)
    requires
        forall|j: int| 0 <= j < s.len() ==> (#[trigger] s[j]).0 != i,
    ensures
        without_index(s, i) == s,
    decreases s.len(),
{
    if s.len() > 0 {
        let t = s.drop_last();
        assert forall|j: int| 0 <= j < t.len() implies (#[trigger] t[j]).0 != i by {
            assert(t[j] == s[j]);
        }
        lemma_without_absent(t, i);
        assert(t.push(s.last()) =~= s);
    }
}

/// In spawn order, removing the index of the cake at `j` removes that cake alone.
pub proof fn lemma_without_index(s: Seq<Cake>, j: int)
    requires
        spawn_ordered(s),
        0 <= j < s.len(),
    ensures
        tracks(cake_entries(s), s[j].index),
        without_index(cake_entries(s), s[j].index) == cake_entries(s.remove(j)),
    decreases s.len(),
{
    let e = cake_entries(s);
    let t = s.drop_last();
    assert(e[j].0 == s[j].index);
    assert(e.drop_last() =~= cake_entries(t));
    if j == s.len() - 1 {
        assert forall|w: int| 0 <= w < t.len() implies (#[trigger] cake_entries(t)[w]).0 != s[j].index by {
            assert(s[w].index < s[j].index);
        }
        lemma_without_absent(cake_entries(t), s[j].index);
        assert(s.remove(j) =~= t);
    } else {
        assert(spawn_ordered(t));
        lemma_without_index(t, j);
        assert(s[j].index < s[s.len() - 1].index);
        assert(s.remove(j) =~= t.remove(j).push(s.last()));
        assert(cake_entries(s.remove(j)) =~= cake_entries(t.remove(j)).push(e.last()));
    }
}

/// The accounts of a well-formed room's entries are distinct.
pub proof fn lemma_entries_distinct(m: RoomModel)
    requires
        m.wf(),
    ensures
        distinct_accounts(member_entries(m.members)),
{
    let e = member_entries(m.members);
    assert forall|i: int, j: int| 0 <= i < j < e.len() implies e[i].0 != e[j].0 by {
        assert(m.members[i].account != m.members[j].account);
    }
}

/// An accepted move keeps a room well formed.
pub proof fn lemma_move_wf(m: RoomModel, slot: int, p: Position, now: u64)
    requires
        m.wf(),
        0 <= slot < m.members.len(),
        m.phase != Phase::Over,
    ensures
        m.after_move(slot, p, now).0.wf(),
{
    let m2 = m.after_move(slot, p, now).0;
    let member = m.members[slot];
    let hits = cakes_at(m.alive, p);
    let h = hits.len();
    lemma_cakes_split(m.alive, p);
    lemma_not_at_ordered(m.alive, p);
    assert(m2.alive.len() + m2.consumed.len() == m2.spawned);
    if m.phase == Phase::Forming {
        assert(m.alive.len() == 0);
        assert(h == 0);
    }
    assert forall|i: int| 0 <= i < m2.alive.len() implies (#[trigger] m2.alive[i]).timeout <= m2.clock
        && m2.alive[i].index <= m2.spawned by {
        assert(m2.alive.contains(m2.alive[i]));
        let w = choose|w: int| 0 <= w < m.alive.len() && m.alive[w] == m2.alive[i];
    }
    assert forall|i: int| 0 <= i < m2.members.len() implies (#[trigger] m2.members[i]).player.score
        <= m2.consumed.len() by {
        if i != slot {
            assert(m.members[i].player.score <= m.consumed.len());
        }
    }
    // The replay of the longer log.
    let op = Operation::Move(member.account, p.row, p.col);
    assert(m2.log.drop_last() =~= m.log);
    let e = member_entries(m.members);
    let e2 = member_entries(m2.members);
    lemma_entries_distinct(m);
    let t = Tally { cakes: cake_entries(m.alive), scores: positive_table(e), last_index: m.spawned };
    assert(Position { row: p.row, col: p.col } == p);
    assert(apply_operation(t, op) == Some(
        Tally { cakes: cake_entries(m2.alive), scores: positive_table(e2), last_index: m2.spawned },
    )) by {
        if h > 0 {
            lemma_positive_lookup(e, slot);
            assert(member.player.score + h <= CAKE_TARGET);
            assert(e2 =~= e.update(slot, (member.account, (member.player.score + h) as u64)));
            lemma_positive_update(e, slot, (member.player.score + h) as u64);
        } else {
            assert(e2 =~= e);
        }
    }
}

/// The length of the expired front of `s` is the first place that has not expired.
pub proof fn lemma_expired_prefix(s: Seq<Cake>, now: u64, k: int)
    requires
        0 <= k <= s.len(),
        forall|j: int| 0 <= j < k ==> expired(#[trigger] s[j], now),
        k == s.len() || !expired(s[k], now),
    ensures
        expired_prefix(s, now) == k,
    decreases k,
{
    if k > 0 {
        let t = s.drop_first();
        assert forall|j: int| 0 <= j < k - 1 implies expired(#[trigger] t[j], now) by {
            assert(t[j] == s[j + 1]);
        }
        if k < s.len() {
            assert(t[k - 1] == s[k]);
        }
        lemma_expired_prefix(t, now, k - 1);
    }
}

/// Replaying the missed entries of the first `n` of the `k` expired cakes,
/// last expired first, takes exactly those cakes off the board.
pub proof fn lemma_replay_missed(log: Seq<Operation>, t0: Tally, alive: Seq<Cake>, k: int, n: int)
    requires
        replay_log(log) == Some(t0),
        t0.cakes == cake_entries(alive),
        spawn_ordered(alive),
        0 <= n <= k <= alive.len(),
    ensures
        replay_log(log + missed_operations(alive.take(k).reverse().take(n))) == Some(
            Tally { cakes: cake_entries(alive.take(k - n) + alive.skip(k)), ..t0 },
        ),
    decreases n,
{
    let r = alive.take(k).reverse();
    if n == 0 {
        assert(log + missed_operations(r.take(0)) =~= log);
        assert(alive.take(k) + alive.skip(k) =~= alive);
    } else {
        lemma_replay_missed(log, t0, alive, k, n - 1);
        let l = log + missed_operations(r.take(n));
        assert(l.drop_last() =~= log + missed_operations(r.take(n - 1)));
        assert(r[n - 1] == alive[k - n]);
        assert(l.last() == Operation::CakeMissed(alive[k - n].index));
        let s = alive.take(k - n + 1) + alive.skip(k);
        assert forall|a: int, b: int| 0 <= a < b < s.len() implies (#[trigger] s[a]).index < (
        #[trigger] s[b]).index && s[a].timeout <= s[b].timeout by {
            let a2 = if a < k - n + 1 { a } else { a - (k - n + 1) + k };
            let b2 = if b < k - n + 1 { b } else { b - (k - n + 1) + k };
            assert(s[a] == alive[a2]);
            assert(s[b] == alive[b2]);
        }
        assert(s[k - n] == alive[k - n]);
        lemma_without_index(s, k - n);
        assert(s.remove(k - n) =~= alive.take(k - n) + alive.skip(k));
    }
}

/// Expiring cakes keeps a started room well formed.
pub proof fn lemma_expiry_wf(m: RoomModel, now: u64)
    requires
        m.wf(),
        m.phase == Phase::Started,
    ensures
        m.after_expiry(now).0.wf(),
{
    let m2 = m.after_expiry(now).0;
    let clock = m2.clock;
    let k = expired_prefix(m.alive, clock);
    lemma_expired_prefix_bound(m.alive, clock);
    let missed = m.alive.take(k as int).reverse();
    assert(m2.alive.len() + m2.consumed.len() == m2.spawned);
    assert forall|i: int, j: int| 0 <= i < j < m2.alive.len() implies (#[trigger] m2.alive[i]).index < (
    #[trigger] m2.alive[j]).index && m2.alive[i].timeout <= m2.alive[j].timeout by {
        assert(m2.alive[i] == m.alive[i + k]);
        assert(m2.alive[j] == m.alive[j + k]);
    }
    assert forall|i: int| 0 <= i < m2.alive.len() implies (#[trigger] m2.alive[i]).timeout <= m2.clock
        && m2.alive[i].index <= m2.spawned by {
        assert(m2.alive[i] == m.alive[i + k]);
    }
    assert forall|i: int| 0 <= i < m2.members.len() implies (#[trigger] m2.members[i]).player.score
        <= m2.consumed.len() by {
        assert(m.members[i].player.score <= m.consumed.len());
    }
    let t0 = Tally {
        cakes: cake_entries(m.alive),
        scores: positive_table(member_entries(m.members)),
        last_index: m.spawned,
    };
    lemma_replay_missed(m.log, t0, m.alive, k as int, k as int);
    assert(missed.take(k as int) =~= missed);
    assert(m.alive.take(0) + m.alive.skip(k as int) =~= m2.alive);
}

/// The expired front is never longer than the cakes.
pub proof fn lemma_expired_prefix_bound(s: Seq<Cake>, now: u64)
    ensures
        expired_prefix(s, now) <= s.len(),
        forall|j: int| 0 <= j < expired_prefix(s, now) ==> expired(#[trigger] s[j], now),
    decreases s.len(),
{
    if s.len() > 0 && expired(s[0], now) {
        let t = s.drop_first();
        lemma_expired_prefix_bound(t, now);
        assert forall|j: int| 0 <= j < expired_prefix(s, now) implies expired(#[trigger] s[j], now) by {
            if j > 0 {
                assert(s[j] == t[j - 1]);
            }
        }
    }
}

/// Spawning the next cake keeps a started room well formed.
pub proof fn lemma_spawn_wf(m: RoomModel, cell: Position)
    requires
        m.wf(),
        m.phase != Phase::Forming,
        m.spawned < CAKE_TARGET,
    ensures
        m.after_spawn(cell).0.wf(),
{
    let m2 = m.after_spawn(cell).0;
    let cake = m2.alive.last();
    assert(m2.log.drop_last() =~= m.log);
    assert(cake_entries(m2.alive) =~= cake_entries(m.alive).push((cake.index, cake.position)));
    assert forall|i: int, j: int| 0 <= i < j < m2.alive.len() implies (#[trigger] m2.alive[i]).index < (
    #[trigger] m2.alive[j]).index && m2.alive[i].timeout <= m2.alive[j].timeout by {
        assert(m2.alive[i] == m.alive[i]);
        if j < m.alive.len() {
            assert(m2.alive[j] == m.alive[j]);
        }
    }
    assert forall|i: int| 0 <= i < m2.alive.len() implies (#[trigger] m2.alive[i]).timeout <= m2.clock
        && m2.alive[i].index <= m2.spawned by {
        if i < m.alive.len() {
            assert(m2.alive[i] == m.alive[i]);
        }
    }
}

impl RoomModel {
    /// The invariant of every room.
    pub open spec fn wf(self) -> bool {
        &&& self.members.len() <= CAPACITY
        &&& forall|i: int, j: int|
            0 <= i < j < self.members.len() ==> (#[trigger] self.members[i]).peer != (
            #[trigger] self.members[j]).peer && self.members[i].account != self.members[j].account
        &&& self.phase == Phase::Forming ==> self.hosting == Hosting::Joinable && self.members.len()
            < CAPACITY && self.spawned == 0
        &&& self.spawned <= CAKE_TARGET
        &&& self.alive.len() + self.consumed.len() == self.spawned
        &&& (self.phase == Phase::Over) == (self.consumed.len() == CAKE_TARGET)
        &&& forall|i: int, j: int|
            0 <= i < j < self.alive.len() ==> (#[trigger] self.alive[i]).index < (
            #[trigger] self.alive[j]).index && self.alive[i].timeout <= self.alive[j].timeout
        &&& forall|i: int|
            0 <= i < self.alive.len() ==> (#[trigger] self.alive[i]).timeout <= self.clock
                && self.alive[i].index <= self.spawned
        &&& forall|i: int|
            0 <= i < self.members.len() ==> (#[trigger] self.members[i]).player.score
                <= self.consumed.len()
        &&& replay_log(self.log) == Some(
            Tally {
                cakes: cake_entries(self.alive),
                scores: positive_table(member_entries(self.members)),
                last_index: self.spawned,
            },
        )
    }

    /// The effect of an accepted move of the member at `slot` to `p` at `now`.
    pub open spec fn after_move(self, slot: int, p: Position, now: u64) -> (RoomModel, Seq<Broadcast>) {
        let member = self.members[slot];
        let eaten = cakes_at(self.alive, p).reverse();
        let score = member.player.score + eaten.len();
        let consumed = self.consumed + eaten;
        let ends = eaten.len() > 0 && consumed.len() == CAKE_TARGET;
        let moved = Member {
            peer: member.peer,
            account: member.account,
            player: GamePlayer { position: p, score: score as u32, timeout: now },
        };
        (
            RoomModel {
                members: self.members.update(slot, moved),
                alive: cakes_not_at(self.alive, p),
                consumed,
                log: self.log.push(Operation::Move(member.account, p.row, p.col)),
                phase: if ends {
                    Phase::Over
                } else {
                    self.phase
                },
                ..self
            },
            seq![Broadcast::Moved(member.account, p.row, p.col)] + eaten_broadcasts(
                eaten,
                member.account,
                member.player.score as nat,
            ) + over_broadcast(ends),
        )
    }

    /// The outcome of a call of `method` with `params` from `peer` at `now`.
    pub open spec fn after_call(
        self,
        peer: PeerId,
        method: Seq<char>,
        params: Seq<Option<u64>>,
        now: u64,
    ) -> Result<(RoomModel, Seq<Broadcast>), GameError> {
        if self.phase == Phase::Over {
            Err(GameError::Timeout)
        } else if !has_peer(self.members, peer) {
            Err(GameError::NoPlayer)
        } else if elapsed(self.members[slot_of(self.members, peer)].player.timeout, now)
            < MOVE_INTERVAL_MS {
            Err(GameError::Timeout)
        } else if !is_move_method(method) || !valid_move_params(params) {
            Err(GameError::Params)
        } else {
            Ok(
                self.after_move(
                    slot_of(self.members, peer),
                    Position { row: params[0]->Some_0, col: params[1]->Some_0 },
                    now,
                ),
            )
        }
    }

    /// The effect of expiring, at `now`, the cakes at the front of the board
    /// whose age reached the lifetime.
    pub open spec fn after_expiry(self, now: u64) -> (RoomModel, Seq<Broadcast>) {
        let clock = if now > self.clock {
            now
        } else {
            self.clock
        };
        let k = expired_prefix(self.alive, clock);
        let missed = self.alive.take(k as int).reverse();
        let consumed = self.consumed + missed;
        let ends = k > 0 && consumed.len() == CAKE_TARGET;
        (
            RoomModel {
                alive: self.alive.skip(k as int),
                consumed,
                log: self.log + missed_operations(missed),
                phase: if ends {
                    Phase::Over
                } else {
                    self.phase
                },
                clock,
                ..self
            },
            missed_broadcasts(missed) + over_broadcast(ends),
        )
    }

    /// The effect of spawning the next cake at `cell`, at the room's clock.
    pub open spec fn after_spawn(self, cell: Position) -> (RoomModel, Seq<Broadcast>) {
        let index = (self.spawned + 1) as u32;
        let cake = Cake { index, position: cell, timeout: self.clock };
        (
            RoomModel {
                alive: self.alive.push(cake),
                log: self.log.push(Operation::CakeCreated(index, cell.row, cell.col)),
                spawned: self.spawned + 1,
                ..self
            },
            seq![Broadcast::Cake(index, cell.row, cell.col)],
        )
    }

    /// The outcome of a spawner run at `now`, where `cell` is the cell drawn
    /// for a new cake.
    pub open spec fn after_tick(self, now: u64, cell: Position) -> Result<(RoomModel, Seq<Broadcast>), GameError> {
        if self.phase == Phase::Over {
            Err(GameError::Timeout)
        } else if self.phase == Phase::Forming {
            if elapsed(self.opened_at, now) >= WAITING_TIME_MS {
                Ok((RoomModel { phase: Phase::Started, ..self }, seq![Broadcast::Started]))
            } else {
                Ok((self, Seq::empty()))
            }
        } else {
            let (m1, ev1) = self.after_expiry(now);
            if self.spawned < CAKE_TARGET {
                let (m2, ev2) = m1.after_spawn(cell);
                Ok((m2, ev1 + ev2))
            } else {
                Ok((m1, ev1))
            }
        }
    }

    /// The outcome of `player` asking to join at `now`.
    pub open spec fn after_join(self, player: Player, now: u64) -> Result<(RoomModel, Seq<Broadcast>), GameError> {
        if self.phase == Phase::Over {
            Err(GameError::Timeout)
        } else if self.phase == Phase::Started {
            Ok((self, Seq::empty()))
        } else if has_peer(self.members, player.peer) || has_account(self.members, player.account) {
            Err(GameError::Params)
        } else {
            let member = Member {
                peer: player.peer,
                account: player.account,
                player: GamePlayer {
                    position: start_position(self.members.len() as int),
                    score: 0,
                    timeout: now,
                },
            };
            let members = self.members.push(member);
            if members.len() == CAPACITY {
                Ok((RoomModel { members, phase: Phase::Started, ..self }, seq![Broadcast::Started]))
            } else {
                Ok((RoomModel { members, ..self }, Seq::empty()))
            }
        }
    }
}

/// The registry of a room created with all its players: each at its start
/// position, with no score, last acting at `now`.
pub open spec fn provisioned_members(players: Seq<Player>, now: u64) -> Seq<Member> {
    Seq::new(
        players.len(),
        |i: int|
            Member {
                peer: players[i].peer,
                account: players[i].account,
                player: GamePlayer { position: start_position(i), score: 0, timeout: now },
            },
    )
}

/// A fresh room.
pub open spec fn fresh_room(hosting: Hosting, phase: Phase, members: Seq<Member>, now: u64) -> RoomModel {
    RoomModel {
        hosting,
        phase,
        members,
        alive: Seq::empty(),
        consumed: Seq::empty(),
        log: Seq::empty(),
        spawned: 0,
        opened_at: now,
        clock: now,
    }
}

} // verus!
