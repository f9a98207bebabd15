//! The room state machine: registry, life cycle, moves, the cake spawner and
//! the live ranking.
use vstd::prelude::*;
use vstd::string::StrSliceExecFns;
use rand_chacha::ChaCha20Rng;
use crate::types::{
    Address, PeerId, Position, Player, GamePlayer, Member, Cake, Operation, Broadcast, GameError,
    Phase, Hosting, BOARD_ROWS, BOARD_COLS, CAPACITY, MOVE_INTERVAL_MS, CAKE_TARGET,
    WAITING_TIME_MS, FIRST_SPAWN_DELAY_PROVISIONED, FIRST_SPAWN_DELAY_JOINABLE, SPAWN_PERIOD,
    CAKE_LIFETIME_MS, elapsed_ms, init_position, start_position,
};
use crate::model::{
    RoomModel, member_entries, member_scores, cake_entries, cakes_at, cakes_not_at, has_peer,
    has_account, slot_of, eaten_broadcasts, over_broadcast, is_move_method,
    provisioned_members, fresh_room, lemma_cakes_split, lemma_move_wf, expired,
    missed_broadcasts, missed_operations, lemma_expired_prefix, lemma_expiry_wf, lemma_spawn_wf,
    lemma_entries_distinct,
};
use crate::ranking::{
    is_ranking, rank_entries, abi_address_array, encode_ranking, positive_table, distinct_accounts,
};
use crate::prng::gen_below;

verus! {

/// One match: its players, its cakes, its log and its random source.
pub struct GameHandler {
    prng: ChaCha20Rng,
    hosting: Hosting,
    phase: Phase,
    members: Vec<Member>,
    alive_cakes: Vec<Cake>,
    cakes: Vec<Cake>,
    operations: Vec<Operation>,
    spawned: usize,
    opened_at: u64,
    clock: u64,
}

impl View for GameHandler {
    type V = RoomModel;

    closed spec fn view(&self) -> RoomModel {
        RoomModel {
            hosting: self.hosting,
            phase: self.phase,
            members: self.members@,
            alive: self.alive_cakes@,
            consumed: self.cakes@,
            log: self.operations@,
            spawned: self.spawned as nat,
            opened_at: self.opened_at,
            clock: self.clock,
        }
    }
}

/// Whether the method name is `move`.
fn is_move(method: &str) -> (r: bool)
    ensures
        r == is_move_method(method@),
{
    if method.unicode_len() != 4 {
        return false;
    }
    let r = method.get_char(0) == 'm' && method.get_char(1) == 'o' && method.get_char(2) == 'v'
        && method.get_char(3) == 'e';
    proof {
        if r {
            assert(method@ =~= seq!['m', 'o', 'v', 'e']);
        }
    }
    r
}

impl GameHandler {
    /// Creates a room whose players are all known: it starts at once, each
    /// player at its start position. `prng` is the room's random stream.
    pub fn create(peers: &Vec<Player>, prng: ChaCha20Rng, now: u64) -> (r: GameHandler)
        requires
            peers.len() <= CAPACITY,
            forall|i: int, j: int|
                0 <= i < j < peers.len() ==> (#[trigger] peers@[i]).peer != (#[trigger] peers@[j]).peer
                    && peers@[i].account != peers@[j].account,
        ensures
            r@ == fresh_room(Hosting::Provisioned, Phase::Started, provisioned_members(peers@, now), now),
            r@.wf(),
    {
        let mut members: Vec<Member> = Vec::new();
        let mut i: usize = 0;
        while i < peers.len()
            invariant
                i <= peers.len(),
                peers.len() <= CAPACITY,
                members@ =~= provisioned_members(peers@, now).take(i as int),
            decreases peers.len() - i,
        {
            members.push(
                Member {
                    peer: peers[i].peer,
                    account: peers[i].account,
                    player: GamePlayer { position: init_position(i), score: 0, timeout: now },
                },
            );
            i = i + 1;
        }
        let r = GameHandler {
            prng,
            hosting: Hosting::Provisioned,
            phase: Phase::Started,
            members,
            alive_cakes: Vec::new(),
            cakes: Vec::new(),
            operations: Vec::new(),
            spawned: 0,
            opened_at: now,
            clock: now,
        };
        proof {
            assert(provisioned_members(peers@, now).take(peers.len() as int) =~= provisioned_members(peers@, now));
            lemma_fresh_wf(r@);
        }
        r
    }

    /// Opens a room that players join one by one, with `first` as its first
    /// player; it waits for more. `prng` is the room's random stream.
    pub fn pozk_create(first: Player, prng: ChaCha20Rng, now: u64) -> (r: GameHandler)
        ensures
            r@ == fresh_room(
                Hosting::Joinable,
                Phase::Forming,
                seq![Member { peer: first.peer, account: first.account, player: GamePlayer { position: start_position(0), score: 0, timeout: now } }],
                now,
            ),
            r@.wf(),
    {
        let mut members: Vec<Member> = Vec::new();
        members.push(
            Member {
                peer: first.peer,
                account: first.account,
                player: GamePlayer { position: init_position(0), score: 0, timeout: now },
            },
        );
        let r = GameHandler {
            prng,
            hosting: Hosting::Joinable,
            phase: Phase::Forming,
            members,
            alive_cakes: Vec::new(),
            cakes: Vec::new(),
            operations: Vec::new(),
            spawned: 0,
            opened_at: now,
            clock: now,
        };
        proof {
            lemma_fresh_wf(r@);
        }
        r
    }

    /// The place of a peer in the registry.
    fn find_peer(&self, peer: PeerId) -> (r: Option<usize>)
        requires
            self@.wf(),
        ensures
            match r {
                Some(i) => i < self@.members.len() && i == slot_of(self@.members, peer) && has_peer(
                    self@.members,
                    peer,
                ),
                None => !has_peer(self@.members, peer),
            },
    {
        let mut i: usize = 0;
        while i < self.members.len()
            invariant
                i <= self.members.len(),
                self@.wf(),
                forall|j: int| 0 <= j < i ==> (#[trigger] self.members@[j]).peer != peer,
            decreases self.members.len() - i,
        {
            if self.members[i].peer == peer {
                proof {
                    assert(has_peer(self@.members, peer));
                    let s = slot_of(self@.members, peer);
                    if s < i {
                        assert(self@.members[s].peer != self@.members[i as int].peer);
                    } else if s > i {
                        assert(self@.members[i as int].peer != self@.members[s].peer);
                    }
                }
                return Some(i);
            }
            i = i + 1;
        }
        None
    }

    /// Handles a call of `method` with `params` from `peer` at time `now`.
    /// Only `move` is known: it takes exactly two non-negative integer
    /// coordinates. A call is refused, changing nothing, when the match is
    /// over or the player acted less than the minimum interval ago
    /// (`Timeout`), when the peer is no member (`NoPlayer`), or when the
    /// method or its parameters are not understood (`Params`).
    pub fn handle(&mut self, peer: PeerId, method: &str, params: &Vec<Option<u64>>, now: u64) -> (r: Result<Vec<Broadcast>, GameError>)
        requires
            old(self)@.wf(),
        ensures
            final(self)@.wf(),
            match r {
                Ok(events) => old(self)@.after_call(peer, method@, params@, now) == Ok::<_, GameError>((final(self)@, events@)),
                Err(e) => old(self)@.after_call(peer, method@, params@, now) == Err::<(RoomModel, Seq<Broadcast>), _>(e)
                    && final(self)@ == old(self)@,
            },
    {
        if self.phase == Phase::Over {
            return Err(GameError::Timeout);
        }
        let slot = match self.find_peer(peer) {
            Some(i) => i,
            None => {
                return Err(GameError::NoPlayer);
            },
        };
        if elapsed_ms(self.members[slot].player.timeout, now) < MOVE_INTERVAL_MS {
            return Err(GameError::Timeout);
        }
        if !is_move(method) || params.len() != 2 {
            return Err(GameError::Params);
        }
        let row = match params[0] {
            Some(v) => v,
            None => {
                return Err(GameError::Params);
            },
        };
        let col = match params[1] {
            Some(v) => v,
            None => {
                return Err(GameError::Params);
            },
        };
        Ok(self.do_move(slot, Position { row, col }, now))
    }

    /// Moves the member at `slot` to `p`, eating every cake there.
    fn do_move(&mut self, slot: usize, p: Position, now: u64) -> (r: Vec<Broadcast>)
        requires
            old(self)@.wf(),
            slot < old(self)@.members.len(),
            old(self)@.phase != Phase::Over,
        ensures
            (final(self)@, r@) == old(self)@.after_move(slot as int, p, now),
            final(self)@.wf(),
    {
        let ghost m = self@;
        proof {
            lemma_move_wf(m, slot as int, p, now);
            lemma_cakes_split(m.alive, p);
        }
        let member = self.members[slot];
        let mut kept: Vec<Cake> = Vec::new();
        let mut hits: Vec<Cake> = Vec::new();
        let mut j: usize = 0;
        while j < self.alive_cakes.len()
            invariant
                j <= self.alive_cakes.len(),
                kept@ == cakes_not_at(self.alive_cakes@.take(j as int), p),
                hits@ == cakes_at(self.alive_cakes@.take(j as int), p),
            decreases self.alive_cakes.len() - j,
        {
            assert(self.alive_cakes@.take(j + 1).drop_last() =~= self.alive_cakes@.take(j as int));
            if self.alive_cakes[j].position == p {
                hits.push(self.alive_cakes[j]);
            } else {
                kept.push(self.alive_cakes[j]);
            }
            j = j + 1;
        }
        assert(self.alive_cakes@.take(self.alive_cakes.len() as int) =~= m.alive);
        let account = member.account;
        let mut events: Vec<Broadcast> = Vec::new();
        events.push(Broadcast::Moved(account, p.row, p.col));
        let ghost eaten = hits@.reverse();
        let n = hits.len();
        let mut eaten_now: Vec<Cake> = Vec::new();
        let mut score: u32 = member.player.score;
        let mut t: usize = n;
        while t > 0
            invariant
                t <= n,
                n == hits.len(),
                eaten == hits@.reverse(),
                score == member.player.score + (n - t),
                member.player.score + n <= CAKE_TARGET,
                eaten_now@ == eaten.take(n - t),
                events@ == seq![Broadcast::Moved(account, p.row, p.col)] + eaten_broadcasts(
                    eaten.take(n - t),
                    account,
                    member.player.score as nat,
                ),
            decreases t,
        {
            t = t - 1;
            let c = hits[t];
            score = score + 1;
            proof {
                assert(eaten[n - 1 - t] == c);
                assert(eaten.take(n - t) =~= eaten.take(n - 1 - t).push(c));
                assert(seq![Broadcast::Moved(account, p.row, p.col)] + eaten_broadcasts(
                    eaten.take(n - t),
                    account,
                    member.player.score as nat,
                ) =~= (seq![Broadcast::Moved(account, p.row, p.col)] + eaten_broadcasts(
                    eaten.take(n - 1 - t),
                    account,
                    member.player.score as nat,
                )).push(Broadcast::Eaten(c.index, Some(account), score)));
            }
            events.push(Broadcast::Eaten(c.index, Some(account), score));
            eaten_now.push(c);
        }
        assert(eaten.take(n as int) =~= eaten);
        self.operations.push(Operation::Move(account, p.row, p.col));
        self.cakes.append(&mut eaten_now);
        self.alive_cakes = kept;
        self.members.set(
            slot,
            Member {
                peer: member.peer,
                account,
                player: GamePlayer { position: p, score, timeout: now },
            },
        );
        if n > 0 && self.cakes.len() == CAKE_TARGET {
            self.phase = Phase::Over;
            events.push(Broadcast::Over);
        }
        proof {
            let ends = n > 0 && self.cakes.len() == CAKE_TARGET;
            assert(events@ =~= seq![Broadcast::Moved(account, p.row, p.col)] + eaten_broadcasts(
                eaten,
                account,
                member.player.score as nat,
            ) + over_broadcast(ends));
            assert(self@ =~= m.after_move(slot as int, p, now).0);
        }
        events
    }
    /// Runs the spawner at `now`, with `cell` as the cell drawn for a new cake.
    /// In a forming room it only starts the match once the waiting time has
    /// passed. In a started room it expires the cakes at the front of the
    /// board whose age reached the lifetime, ends the match when the last cake
    /// is consumed, and spawns the next cake while fewer than the target were
    /// spawned. A finished room refuses the run with `Timeout`.
    pub fn tick_at(&mut self, now: u64, cell: Position) -> (r: Result<Vec<Broadcast>, GameError>)
        requires
            old(self)@.wf(),
        ensures
            final(self)@.wf(),
            match r {
                Ok(events) => old(self)@.after_tick(now, cell) == Ok::<_, GameError>((final(self)@, events@)),
                Err(e) => old(self)@.after_tick(now, cell) == Err::<(RoomModel, Seq<Broadcast>), _>(e)
                    && final(self)@ == old(self)@,
            },
    {
        if self.phase == Phase::Over {
            return Err(GameError::Timeout);
        }
        if self.phase == Phase::Forming {
            if elapsed_ms(self.opened_at, now) >= WAITING_TIME_MS {
                self.phase = Phase::Started;
                let mut events: Vec<Broadcast> = Vec::new();
                events.push(Broadcast::Started);
                assert(events@ =~= seq![Broadcast::Started]);
                return Ok(events);
            }
            return Ok(Vec::new());
        }
        let ghost m = self@;
        let mut events = self.expire(now);
        if self.spawned < CAKE_TARGET {
            let ghost m1 = self@;
            let ghost ev1 = events@;
            let index = (self.spawned + 1) as u32;
            let cake = Cake { index, position: cell, timeout: self.clock };
            proof {
                lemma_spawn_wf(m1, cell);
            }
            self.alive_cakes.push(cake);
            self.operations.push(Operation::CakeCreated(index, cell.row, cell.col));
            self.spawned = self.spawned + 1;
            events.push(Broadcast::Cake(index, cell.row, cell.col));
            proof {
                assert(self@ =~= m1.after_spawn(cell).0);
                assert(events@ =~= ev1 + m1.after_spawn(cell).1);
            }
        }
        Ok(events)
    }

    /// Expires, at `now`, the cakes at the front of the board whose age
    /// reached the lifetime, last expired first.
    fn expire(&mut self, now: u64) -> (r: Vec<Broadcast>)
        requires
            old(self)@.wf(),
            old(self)@.phase == Phase::Started,
        ensures
            (final(self)@, r@) == old(self)@.after_expiry(now),
            final(self)@.wf(),
    {
        let ghost m = self@;
        proof {
            lemma_expiry_wf(m, now);
        }
        let clock = if now > self.clock {
            now
        } else {
            self.clock
        };
        let mut k: usize = 0;
        while k < self.alive_cakes.len() && elapsed_ms(self.alive_cakes[k].timeout, clock)
            >= CAKE_LIFETIME_MS
            invariant
                k <= self.alive_cakes.len(),
                forall|j: int| 0 <= j < k ==> expired(#[trigger] self.alive_cakes@[j], clock),
            decreases self.alive_cakes.len() - k,
        {
            k = k + 1;
        }
        proof {
            lemma_expired_prefix(m.alive, clock, k as int);
        }
        let ghost missed = m.alive.take(k as int).reverse();
        let mut events: Vec<Broadcast> = Vec::new();
        let mut gone: Vec<Cake> = Vec::new();
        let mut entries: Vec<Operation> = Vec::new();
        let mut j: usize = k;
        while j > 0
            invariant
                j <= k,
                k <= self.alive_cakes.len(),
                self.alive_cakes@ == m.alive,
                missed == m.alive.take(k as int).reverse(),
                gone@ == missed.take(k - j),
                events@ == missed_broadcasts(missed.take(k - j)),
                entries@ == missed_operations(missed.take(k - j)),
            decreases j,
        {
            j = j - 1;
            let c = self.alive_cakes[j];
            proof {
                assert(missed[k - 1 - j] == c);
                assert(missed.take(k - j) =~= missed.take(k - 1 - j).push(c));
                assert(missed_broadcasts(missed.take(k - j)) =~= missed_broadcasts(missed.take(k - 1 - j)).push(Broadcast::Eaten(c.index, None, 0)));
                assert(missed_operations(missed.take(k - j)) =~= missed_operations(missed.take(k - 1 - j)).push(Operation::CakeMissed(c.index)));
            }
            events.push(Broadcast::Eaten(c.index, None, 0));
            entries.push(Operation::CakeMissed(c.index));
            gone.push(c);
        }
        assert(missed.take(k as int) =~= missed);
        let mut rest: Vec<Cake> = Vec::new();
        let mut i: usize = k;
        while i < self.alive_cakes.len()
            invariant
                k <= i <= self.alive_cakes.len(),
                self.alive_cakes@ == m.alive,
                rest@ =~= m.alive.subrange(k as int, i as int),
            decreases self.alive_cakes.len() - i,
        {
            rest.push(self.alive_cakes[i]);
            i = i + 1;
        }
        self.clock = clock;
        self.alive_cakes = rest;
        self.cakes.append(&mut gone);
        self.operations.append(&mut entries);
        if k > 0 && self.cakes.len() == CAKE_TARGET {
            self.phase = Phase::Over;
            events.push(Broadcast::Over);
        }
        proof {
            let ends = k > 0 && self.cakes.len() == CAKE_TARGET;
            assert(events@ =~= missed_broadcasts(missed) + over_broadcast(ends));
            assert(self@ =~= m.after_expiry(now).0);
        }
        events
    }

    /// Runs the spawner at `now`: draws a cell of the board from the room's
    /// random stream when a cake is to be spawned, then acts as `tick_at`.
    pub fn tick(&mut self, now: u64) -> (r: Result<Vec<Broadcast>, GameError>)
        requires
            old(self)@.wf(),
        ensures
            final(self)@.wf(),
            match r {
                Ok(events) => exists|cell: Position|
                    cell.row < BOARD_ROWS && cell.col < BOARD_COLS && #[trigger] old(self)@.after_tick(now, cell)
                        == Ok::<_, GameError>((final(self)@, events@)),
                Err(e) => e == GameError::Timeout && old(self)@.phase == Phase::Over && final(self)@ == old(self)@,
            },
    {
        let cell = if self.phase == Phase::Started && self.spawned < CAKE_TARGET {
            let row = gen_below(&mut self.prng, BOARD_ROWS);
            let col = gen_below(&mut self.prng, BOARD_COLS);
            Position { row: row as u64, col: col as u64 }
        } else {
            Position { row: 0, col: 0 }
        };
        self.tick_at(now, cell)
    }

    /// Whether some member has the account.
    fn find_account(&self, account: Address) -> (r: bool)
        ensures
            r == has_account(self@.members, account),
    {
        let mut i: usize = 0;
        while i < self.members.len()
            invariant
                i <= self.members.len(),
                forall|j: int| 0 <= j < i ==> (#[trigger] self.members@[j]).account != account,
            decreases self.members.len() - i,
        {
            if self.members[i].account == account {
                assert(self@.members[i as int].account == account);
                return true;
            }
            i = i + 1;
        }
        false
    }

    /// Adds `player` at `now` to a forming room, at the next start position;
    /// the match starts when the room is full. A started room ignores the
    /// request; a finished one refuses it with `Timeout`; a peer or an account
    /// already in the room is refused with `Params`.
    pub fn pozk_join(&mut self, player: Player, now: u64) -> (r: Result<Vec<Broadcast>, GameError>)
        requires
            old(self)@.wf(),
        ensures
            final(self)@.wf(),
            match r {
                Ok(events) => old(self)@.after_join(player, now) == Ok::<_, GameError>((final(self)@, events@)),
                Err(e) => old(self)@.after_join(player, now) == Err::<(RoomModel, Seq<Broadcast>), _>(e)
                    && final(self)@ == old(self)@,
            },
    {
        if self.phase == Phase::Over {
            return Err(GameError::Timeout);
        }
        if self.phase == Phase::Started {
            return Ok(Vec::new());
        }
        let known_peer = match self.find_peer(player.peer) {
            Some(_) => true,
            None => false,
        };
        if known_peer || self.find_account(player.account) {
            return Err(GameError::Params);
        }
        let ghost m = self@;
        let i = self.members.len();
        self.members.push(
            Member {
                peer: player.peer,
                account: player.account,
                player: GamePlayer { position: init_position(i), score: 0, timeout: now },
            },
        );
        proof {
            let e = member_entries(m.members);
            let e2 = member_entries(self@.members);
            assert(e2.drop_last() =~= e);
            assert(positive_table(e2) == positive_table(e));
            assert forall|a: int, b: int| 0 <= a < b < self@.members.len() implies (#[trigger] self@.members[a]).peer != (
            #[trigger] self@.members[b]).peer && self@.members[a].account != self@.members[b].account by {
                if b == i {
                    assert(m.members[a].peer != player.peer);
                    assert(m.members[a].account != player.account);
                }
            }
        }
        if self.members.len() == CAPACITY {
            self.phase = Phase::Started;
            let mut events: Vec<Broadcast> = Vec::new();
            events.push(Broadcast::Started);
            assert(events@ =~= seq![Broadcast::Started]);
            return Ok(events);
        }
        Ok(Vec::new())
    }

    /// The accounts ranked by descending score, ties broken by the account order.
    pub fn ranking(&self) -> (r: Vec<Address>)
        requires
            self@.wf(),
        ensures
            is_ranking(r@, member_scores(self@.members)),
    {
        let entries = self.entries();
        rank_entries(&entries)
    }

    /// The (account, score) entries of the registry.
    fn entries(&self) -> (r: Vec<(Address, u64)>)
        requires
            self@.wf(),
        ensures
            r@ == member_entries(self@.members),
            distinct_accounts(r@),
    {
        let mut entries: Vec<(Address, u64)> = Vec::new();
        let mut i: usize = 0;
        while i < self.members.len()
            invariant
                i <= self.members.len(),
                entries@ =~= member_entries(self@.members).take(i as int),
            decreases self.members.len() - i,
        {
            entries.push((self.members[i].account, self.members[i].player.score as u64));
            i = i + 1;
        }
        proof {
            assert(member_entries(self@.members).take(i as int) =~= member_entries(self@.members));
            lemma_entries_distinct(self@);
        }
        entries
    }

    /// The outcome to surface on chain: the ranking, ABI-encoded as an array of
    /// addresses, and an empty proof.
    pub fn prove(&self) -> (r: (Vec<u8>, Vec<u8>))
        requires
            self@.wf(),
        ensures
            exists|order: Seq<Address>|
                is_ranking(order, member_scores(self@.members)) && r.0@ == abi_address_array(order),
            r.1@.len() == 0,
    {
        let entries = self.entries();
        (encode_ranking(&entries), Vec::new())
    }

    /// Seconds until the next spawner run: longer before the first spawn.
    pub fn timer(&self) -> (r: u64)
        ensures
            r == if self@.spawned == 0 {
                if self@.hosting == Hosting::Provisioned {
                    FIRST_SPAWN_DELAY_PROVISIONED
                } else {
                    FIRST_SPAWN_DELAY_JOINABLE
                }
            } else {
                SPAWN_PERIOD
            },
    {
        if self.spawned == 0 {
            match self.hosting {
                Hosting::Provisioned => FIRST_SPAWN_DELAY_PROVISIONED,
                Hosting::Joinable => FIRST_SPAWN_DELAY_JOINABLE,
            }
        } else {
            SPAWN_PERIOD
        }
    }

    /// Each member's account, row, column and score, in joining order: the
    /// player part of the snapshot sent to a peer that comes online.
    pub fn status(&self) -> (r: Vec<(Address, u64, u64, u32)>)
        ensures
            r@.len() == self@.members.len(),
            forall|i: int|
                0 <= i < r@.len() ==> #[trigger] r@[i] == (
                    self@.members[i].account,
                    self@.members[i].player.position.row,
                    self@.members[i].player.position.col,
                    self@.members[i].player.score,
                ),
    {
        let mut r: Vec<(Address, u64, u64, u32)> = Vec::new();
        let mut i: usize = 0;
        while i < self.members.len()
            invariant
                i <= self.members.len(),
                r@.len() == i,
                forall|j: int|
                    0 <= j < i ==> #[trigger] r@[j] == (
                        self@.members[j].account,
                        self@.members[j].player.position.row,
                        self@.members[j].player.position.col,
                        self@.members[j].player.score,
                    ),
            decreases self.members.len() - i,
        {
            let m = self.members[i];
            r.push((m.account, m.player.position.row, m.player.position.col, m.player.score));
            i = i + 1;
        }
        r
    }

    /// The life-cycle phase.
    pub fn phase(&self) -> (r: Phase)
        ensures
            r == self@.phase,
    {
        self.phase
    }

    /// The operation log, in the order the room changed.
    pub fn operations(&self) -> (r: &Vec<Operation>)
        ensures
            r@ == self@.log,
    {
        &self.operations
    }

    /// The cakes on the board, in spawn order.
    pub fn alive_cakes(&self) -> (r: &Vec<Cake>)
        ensures
            r@ == self@.alive,
    {
        &self.alive_cakes
    }

    /// The cakes eaten or missed, in the order they left the board.
    pub fn consumed_cakes(&self) -> (r: &Vec<Cake>)
        ensures
            r@ == self@.consumed,
    {
        &self.cakes
    }
}

/// A fresh room with distinct members at their start positions is well formed.
proof fn lemma_fresh_wf(m: RoomModel)
    requires
        m.members.len() <= CAPACITY,
        m.phase == Phase::Forming ==> m.hosting == Hosting::Joinable && m.members.len() < CAPACITY,
        m.phase != Phase::Over,
        forall|i: int, j: int|
            0 <= i < j < m.members.len() ==> (#[trigger] m.members[i]).peer != (#[trigger] m.members[j]).peer
                && m.members[i].account != m.members[j].account,
        forall|i: int| 0 <= i < m.members.len() ==> (#[trigger] m.members[i]).player.score == 0,
        m.alive.len() == 0,
        m.consumed.len() == 0,
        m.log.len() == 0,
        m.spawned == 0,
    ensures
        m.wf(),
{
    lemma_zero_positive(member_entries(m.members));
    assert(cake_entries(m.alive) =~= Seq::empty());
}

/// Entries that all score zero have an empty positive table.
proof fn lemma_zero_positive(s: Seq<(Address, u64)>)
    requires
        forall|i: int| 0 <= i < s.len() ==> (#[trigger] s[i]).1 == 0,
    ensures
        positive_table(s) == Map::<Address, nat>::empty(),
    decreases s.len(),
{
    if s.len() > 0 {
        let t = s.drop_last();
        assert forall|i: int| 0 <= i < t.len() implies (#[trigger] t[i]).1 == 0 by {
            assert(t[i] == s[i]);
        }
        lemma_zero_positive(t);
        assert(s[s.len() - 1].1 == 0);
    }
}

} // verus!
