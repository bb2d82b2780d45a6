//! Ghosts: frozen opponents reconstructed from a recorded match's input log.
//! A ghost replays one side's command stream, remapping entity ids by
//! creation order so its references stay correct against a new opponent;
//! the pool keeps recent and champion-beating matches. The same inputs
//! always give the same commands.
use vstd::prelude::*;

use crate::bot::{all_issued_by, Bot};
use crate::entity::{EntityId, Player};
use crate::game::{first_where, Game, GameConfig};

use crate::headless::{tick_cap, DetailedOutcome, MatchOutcome};
use crate::map::GameMap;
use crate::orders::Command;
use crate::rng::{mix, Rng, GAMMA};
use crate::golden::issued;
use crate::serialize::{lemma_steps_push, replay_start, steps_toward, Replay, TimedCommand};

verus! {

// --- Ordering helpers -------------------------------------------------------

/// The position at which a command of tick `t` joins a tick-sorted stream:
/// after every entry of tick at most `t`.
pub open spec fn tick_slot(s: Seq<TimedCommand>, t: i32) -> int
    decreases s.len(),
{
    if s.len() == 0 {
        0
    } else if s.last().tick <= t {
        s.len() as int
    } else {
        tick_slot(s.drop_last(), t)
    }
}

/// `player`'s commands of a log, stably sorted by tick.
pub open spec fn ghost_stream(s: Seq<TimedCommand>, player: Player) -> Seq<TimedCommand>
    decreases s.len(),
{
    if s.len() == 0 {
        Seq::empty()
    } else {
        let prev = ghost_stream(s.drop_last(), player);
        if s.last().player == player {
            prev.insert(tick_slot(prev, s.last().tick), s.last())
        } else {
            prev
        }
    }
}

/// Entries sorted by tick.
pub open spec fn tick_sorted(s: Seq<TimedCommand>) -> bool {
    forall|i: int, j: int| 0 <= i <= j < s.len() ==> (#[trigger] s[i]).tick <= (#[trigger] s[j]).tick
}

pub proof fn lemma_tick_slot(s: Seq<TimedCommand>, t: i32)
    requires
        tick_sorted(s),
    ensures
        0 <= tick_slot(s, t) <= s.len(),
        forall|i: int| 0 <= i < tick_slot(s, t) ==> (#[trigger] s[i]).tick <= t,
        forall|i: int| tick_slot(s, t) <= i < s.len() ==> (#[trigger] s[i]).tick > t,
    decreases s.len(),
{
    if s.len() > 0 && s.last().tick > t {
        assert(tick_sorted(s.drop_last())) by {
            assert forall|i: int, j: int| 0 <= i <= j < s.drop_last().len() implies (
            #[trigger] s.drop_last()[i]).tick <= (#[trigger] s.drop_last()[j]).tick by {
                assert(s.drop_last()[i] == s[i] && s.drop_last()[j] == s[j]);
            }
        }
        lemma_tick_slot(s.drop_last(), t);
        assert forall|i: int| 0 <= i < tick_slot(s, t) implies (#[trigger] s[i]).tick <= t by {
            assert(s[i] == s.drop_last()[i]);
        }
        assert forall|i: int| tick_slot(s, t) <= i < s.len() implies (#[trigger] s[i]).tick > t by {
            if i < s.len() - 1 {
                assert(s[i] == s.drop_last()[i]);
            }
        }
    } else if s.len() > 0 {
        assert forall|i: int| 0 <= i < tick_slot(s, t) implies (#[trigger] s[i]).tick <= t by {
            assert(s[i].tick <= s[s.len() - 1].tick);
        }
    }
}

/// A ghost's stream is sorted by tick.
pub proof fn lemma_ghost_stream_sorted(s: Seq<TimedCommand>, player: Player)
    ensures
        tick_sorted(ghost_stream(s, player)),
    decreases s.len(),
{
    if s.len() > 0 {
        lemma_ghost_stream_sorted(s.drop_last(), player);
        let prev = ghost_stream(s.drop_last(), player);
        if s.last().player == player {
            let t = s.last().tick;
            lemma_tick_slot(prev, t);
            let k = tick_slot(prev, t);
            let r = prev.insert(k, s.last());
            assert forall|i: int, j: int| 0 <= i <= j < r.len() implies (#[trigger] r[i]).tick
                <= (#[trigger] r[j]).tick by {
                if i < k && j < k {
                    assert(r[i] == prev[i] && r[j] == prev[j]);
                } else if i < k && j == k {
                    assert(r[i] == prev[i]);
                } else if i < k {
                    assert(r[i] == prev[i] && r[j] == prev[j - 1]);
                } else if i == k && j > k {
                    assert(r[j] == prev[j - 1]);
                } else if i > k {
                    assert(r[i] == prev[i - 1] && r[j] == prev[j - 1]);
                }
            }
        }
    }
}

/// Entries related position by position.
pub open spec fn same_stream(a: Seq<TimedCommand>, b: Seq<TimedCommand>) -> bool {
    a.len() == b.len() && forall|k: int| 0 <= k < a.len() ==> (#[trigger] a[k]).same(b[k])
}

/// Insert `x` after every entry of a sorted vector with a tick at most
/// `x.tick`.
fn insert_by_tick(v: &mut Vec<TimedCommand>, x: TimedCommand, Ghost(model): Ghost<Seq<TimedCommand>>, Ghost(mx): Ghost<TimedCommand>)
    requires
        same_stream(model, old(v)@),
        mx.same(x),
    ensures
        same_stream(model.insert(tick_slot(model, mx.tick), mx), final(v)@),
{
    let mut k: usize = v.len();
    assert(model.subrange(0, k as int) =~= model);
    while k > 0 && v[k - 1].tick > x.tick
        invariant
            0 <= k <= v@.len(),
            same_stream(model, v@),
            mx.same(x),
            tick_slot(model, mx.tick) == tick_slot(model.subrange(0, k as int), mx.tick),
        decreases k,
    {
        assert(model.subrange(0, k - 1) =~= model.subrange(0, k as int).drop_last());
        k -= 1;
    }
    proof {
        assert(model.subrange(0, k as int).len() == 0 || model.subrange(0, k as int).last().tick
            <= mx.tick);
    }
    v.insert(k, x);
    proof {
        let r = model.insert(k as int, mx);
        assert forall|j: int| 0 <= j < r.len() implies (#[trigger] r[j]).same(v@[j]) by {
            if j < k {
                assert(r[j] == model[j]);
            } else if j > k {
                assert(r[j] == model[j - 1]);
            }
        }
    }
}

/// The ids of a list inserted one by one into ascending order (equal ids
/// after each other).
pub open spec fn id_slot(s: Seq<EntityId>, x: EntityId) -> int
    decreases s.len(),
{
    if s.len() == 0 {
        0
    } else if s.last() <= x {
        s.len() as int
    } else {
        id_slot(s.drop_last(), x)
    }
}

pub open spec fn sort_ids(s: Seq<EntityId>) -> Seq<EntityId>
    decreases s.len(),
{
    if s.len() == 0 {
        Seq::empty()
    } else {
        let prev = sort_ids(s.drop_last());
        prev.insert(id_slot(prev, s.last()), s.last())
    }
}

fn insert_id_sorted(v: &mut Vec<EntityId>, x: EntityId)
    ensures
        final(v)@ == old(v)@.insert(id_slot(old(v)@, x), x),
{
    let ghost model = v@;
    let mut k: usize = v.len();
    assert(model.subrange(0, k as int) =~= model);
    while k > 0 && v[k - 1] > x
        invariant
            0 <= k <= v@.len(),
            v@ == model,
            id_slot(model, x) == id_slot(model.subrange(0, k as int), x),
        decreases k,
    {
        assert(model.subrange(0, k - 1) =~= model.subrange(0, k as int).drop_last());
        k -= 1;
    }
    v.insert(k, x);
}

/// Ascending without repetition.
pub open spec fn strictly_ascending(s: Seq<EntityId>) -> bool {
    forall|i: int, j: int| 0 <= i < j < s.len() ==> (#[trigger] s[i]) < (#[trigger] s[j])
}

/// Add `x` to a strictly ascending list unless it is already there.
fn insert_id_unique(v: &mut Vec<EntityId>, x: EntityId)
    requires
        strictly_ascending(old(v)@),
    ensures
        strictly_ascending(final(v)@),
        forall|y: EntityId| final(v)@.contains(y) <==> (old(v)@.contains(y) || y == x),
{
    let ghost model = v@;
    let mut k: usize = v.len();
    while k > 0 && v[k - 1] > x
        invariant
            0 <= k <= v@.len(),
            v@ == model,
            strictly_ascending(model),
            forall|j: int| k <= j < model.len() ==> (#[trigger] model[j]) > x,
        decreases k,
    {
        k -= 1;
    }
    if k > 0 && v[k - 1] == x {
        return;
    }
    v.insert(k, x);
    proof {
        let r = v@;
        assert forall|i: int, j: int| 0 <= i < j < r.len() implies (#[trigger] r[i]) < (#[trigger] r[j]) by {
            if j < k {
                assert(r[i] == model[i] && r[j] == model[j]);
            } else if j == k {
                if i < k {
                    assert(r[i] == model[i]);
                    if i < k - 1 {
                        assert(model[i] < model[k - 1]);
                    }
                }
            } else if i < k {
                assert(r[i] == model[i] && r[j] == model[j - 1]);
            } else if i == k {
                assert(r[j] == model[j - 1]);
            } else {
                assert(r[i] == model[i - 1] && r[j] == model[j - 1]);
            }
        }
        assert forall|y: EntityId| r.contains(y) <==> (model.contains(y) || y == x) by {
            if r.contains(y) {
                let j = choose|j: int| 0 <= j < r.len() && r[j] == y;
                if j < k {
                    assert(model[j] == y);
                } else if j > k {
                    assert(model[j - 1] == y);
                }
            }
            if model.contains(y) {
                let j = choose|j: int| 0 <= j < model.len() && model[j] == y;
                if j < k {
                    assert(r[j] == y);
                } else {
                    assert(r[j + 1] == y);
                }
            }
            if y == x {
                assert(r[k as int] == x);
            }
        }
    }
}

// --- Remapping --------------------------------------------------------------

pub open spec fn id_is(id: EntityId) -> spec_fn(EntityId) -> bool {
    |x: EntityId| x == id
}

/// The entity that now holds the creation rank `id` had in the recording.
pub open spec fn spec_at(created: Seq<EntityId>, entities: Seq<EntityId>, id: EntityId) -> Option<
    EntityId,
> {
    match first_where(created, id_is(id), 0) {
        Some(k) => if k < entities.len() {
            Some(entities[k])
        } else {
            None
        },
        None => None,
    }
}

/// Every id of a list remapped; `None` when one has no counterpart.
pub open spec fn map_ids(created: Seq<EntityId>, entities: Seq<EntityId>, ids: Seq<EntityId>) -> Option<
    Seq<EntityId>,
>
    decreases ids.len(),
{
    if ids.len() == 0 {
        Some(Seq::empty())
    } else {
        match (map_ids(created, entities, ids.drop_last()), spec_at(created, entities, ids.last())) {
            (Some(prev), Some(x)) => Some(prev.push(x)),
            _ => None,
        }
    }
}

/// `r` is `cmd` issued for `player` with every entity reference remapped
/// (`None` when one has no counterpart).
pub open spec fn remapped(
    cmd: Command,
    created: Seq<EntityId>,
    entities: Seq<EntityId>,
    player: Player,
    r: Option<Command>,
) -> bool {
    let at = |id: EntityId| spec_at(created, entities, id);
    match cmd {
        Command::PlaceBuilding { btype, tile, .. } => r == Some(
            Command::PlaceBuilding { player, btype, tile },
        ),
        Command::TrainUnit { building, utype, .. } => match at(building) {
            Some(b) => r == Some(Command::TrainUnit { player, building: b, utype }),
            None => r is None,
        },
        Command::MoveGroup { units, waypoint, stance, .. } => match map_ids(
            created,
            entities,
            units@,
        ) {
            Some(us) => r matches Some(Command::MoveGroup { player: q, units: u2, waypoint: w, stance: s })
                && q == player && u2@ == us && w == waypoint && s == stance,
            None => r is None,
        },
        Command::Attack { units, target, .. } => match (
            map_ids(created, entities, units@),
            at(target),
        ) {
            (Some(us), Some(t)) => r matches Some(Command::Attack { player: q, units: u2, target: t2 })
                && q == player && u2@ == us && t2 == t,
            _ => r is None,
        },
        Command::SetRally { building, waypoint, .. } => match at(building) {
            Some(b) => r == Some(Command::SetRally { player, building: b, waypoint }),
            None => r is None,
        },
        Command::ChooseUpgrade { lab, upgrade, .. } => match at(lab) {
            Some(b) => r == Some(Command::ChooseUpgrade { player, lab: b, upgrade }),
            None => r is None,
        },
        Command::Sell { building, .. } => match at(building) {
            Some(b) => r == Some(Command::Sell { player, building: b }),
            None => r is None,
        },
        Command::Repair { building, .. } => match at(building) {
            Some(b) => r == Some(Command::Repair { player, building: b }),
            None => r is None,
        },
    }
}

fn at(created: &Vec<EntityId>, entities: &Vec<EntityId>, id: EntityId) -> (r: Option<EntityId>)
    ensures
        r == spec_at(created@, entities@, id),
{
    let mut k: usize = 0;
    while k < created.len()
        invariant
            0 <= k <= created@.len(),
            first_where(created@, id_is(id), 0) == first_where(created@, id_is(id), k as int),
        decreases created.len() - k,
    {
        if created[k] == id {
            if k < entities.len() {
                return Some(entities[k]);
            } else {
                return None;
            }
        }
        k += 1;
    }
    None
}

fn map_all(created: &Vec<EntityId>, entities: &Vec<EntityId>, ids: &Vec<EntityId>) -> (r: Option<
    Vec<EntityId>,
>)
    ensures
        r matches Some(v) ==> map_ids(created@, entities@, ids@) == Some(v@),
        r is None ==> map_ids(created@, entities@, ids@) is None,
{
    let mut out: Vec<EntityId> = Vec::new();
    let mut i: usize = 0;
    while i < ids.len()
        invariant
            0 <= i <= ids@.len(),
            map_ids(created@, entities@, ids@.subrange(0, i as int)) == Some(out@),
        decreases ids.len() - i,
    {
        assert(ids@.subrange(0, i + 1).drop_last() =~= ids@.subrange(0, i as int));
        match at(created, entities, ids[i]) {
            Some(x) => {
                out.push(x);
            },
            None => {
                proof {
                    lemma_map_ids_prefix_none(created@, entities@, ids@, i + 1);
                }
                return None;
            },
        }
        i += 1;
    }
    assert(ids@.subrange(0, ids@.len() as int) =~= ids@);
    Some(out)
}

/// Once a prefix fails to map, the whole list does.
pub proof fn lemma_map_ids_prefix_none(
    created: Seq<EntityId>,
    entities: Seq<EntityId>,
    ids: Seq<EntityId>,
    n: int,
)
    requires
        0 <= n <= ids.len(),
        map_ids(created, entities, ids.subrange(0, n)) is None,
    ensures
        map_ids(created, entities, ids) is None,
    decreases ids.len() - n,
{
    if n < ids.len() {
        assert(ids.subrange(0, n + 1).drop_last() =~= ids.subrange(0, n));
        lemma_map_ids_prefix_none(created, entities, ids, n + 1);
    } else {
        assert(ids.subrange(0, n) =~= ids);
    }
}

/// Re-issue `cmd` for `player`, remapping entity references by creation
/// rank.
pub fn remap(cmd: &Command, created: &Vec<EntityId>, entities: &Vec<EntityId>, player: Player) -> (r:
    Option<Command>)
    ensures
        remapped(*cmd, created@, entities@, player, r),
        r matches Some(c) ==> c.issuer() == player,
{
    match cmd {
        Command::PlaceBuilding { btype, tile, .. } => Some(
            Command::PlaceBuilding { player, btype: *btype, tile: *tile },
        ),
        Command::TrainUnit { building, utype, .. } => match at(created, entities, *building) {
            Some(b) => Some(Command::TrainUnit { player, building: b, utype: *utype }),
            None => None,
        },
        Command::MoveGroup { units, waypoint, stance, .. } => match map_all(
            created,
            entities,
            units,
        ) {
            Some(us) => Some(
                Command::MoveGroup { player, units: us, waypoint: *waypoint, stance: *stance },
            ),
            None => None,
        },
        Command::Attack { units, target, .. } => match map_all(created, entities, units) {
            Some(us) => match at(created, entities, *target) {
                Some(t) => Some(Command::Attack { player, units: us, target: t }),
                None => None,
            },
            None => None,
        },
        Command::SetRally { building, waypoint, .. } => match at(created, entities, *building) {
            Some(b) => Some(Command::SetRally { player, building: b, waypoint: *waypoint }),
            None => None,
        },
        Command::ChooseUpgrade { lab, upgrade, .. } => match at(created, entities, *lab) {
            Some(b) => Some(Command::ChooseUpgrade { player, lab: b, upgrade: *upgrade }),
            None => None,
        },
        Command::Sell { building, .. } => match at(created, entities, *building) {
            Some(b) => Some(Command::Sell { player, building: b }),
            None => None,
        },
        Command::Repair { building, .. } => match at(created, entities, *building) {
            Some(b) => Some(Command::Repair { player, building: b }),
            None => None,
        },
    }
}


// --- Ghosts -----------------------------------------------------------------

/// A frozen policy reconstructed from a replay.
pub struct GhostReplay {
    map_seed: u64,
    /// The recorded side's commands, sorted by tick.
    commands: Vec<TimedCommand>,
    /// Every id the recorded side ever owned, ascending: creation order.
    created: Vec<EntityId>,
    /// The next command to consider.
    cursor: usize,
    /// Every id the replaying side has owned so far in the live match,
    /// ascending: its creation order there.
    live: Vec<EntityId>,
}

impl GhostReplay {
    pub closed spec fn seed(self) -> u64 {
        self.map_seed
    }

    pub closed spec fn stream(self) -> Seq<TimedCommand> {
        self.commands@
    }

    pub closed spec fn ranks(self) -> Seq<EntityId> {
        self.created@
    }

    pub closed spec fn position(self) -> int {
        self.cursor as int
    }

    /// The ids the replaying side has owned so far in the live match.
    pub closed spec fn seen(self) -> Seq<EntityId> {
        self.live@
    }

    pub closed spec fn wf(self) -> bool {
        &&& self.cursor <= self.commands@.len()
        &&& strictly_ascending(self.created@)
        &&& strictly_ascending(self.live@)
    }

    /// `other` replays exactly like `self`.
    pub open spec fn same(self, other: GhostReplay) -> bool {
        &&& other.seed() == self.seed()
        &&& other.position() == self.position()
        &&& other.ranks() == self.ranks()
        &&& other.seen() == self.seen()
        &&& same_stream(self.stream(), other.stream())
        &&& (self.wf() ==> other.wf())
    }
}

fn copy_stream(v: &Vec<TimedCommand>) -> (r: Vec<TimedCommand>)
    ensures
        same_stream(v@, r@),
{
    let mut r: Vec<TimedCommand> = Vec::new();
    let mut i: usize = 0;
    while i < v.len()
        invariant
            0 <= i <= v@.len(),
            r@.len() == i,
            forall|k: int| 0 <= k < i ==> (#[trigger] v@[k]).same(r@[k]),
        decreases v.len() - i,
    {
        r.push(v[i].clone());
        i += 1;
    }
    r
}

fn copy_ids(v: &Vec<EntityId>) -> (r: Vec<EntityId>)
    ensures
        r@ == v@,
{
    let mut r: Vec<EntityId> = Vec::new();
    let mut i: usize = 0;
    while i < v.len()
        invariant
            0 <= i <= v@.len(),
            r@ == v@.subrange(0, i as int),
        decreases v.len() - i,
    {
        r.push(v[i]);
        i += 1;
        assert(r@ =~= v@.subrange(0, i as int));
    }
    assert(r@ =~= v@);
    r
}

impl Clone for GhostReplay {
    fn clone(&self) -> (r: Self)
        ensures
            self.same(r),
    {
        GhostReplay {
            map_seed: self.map_seed,
            commands: copy_stream(&self.commands),
            created: copy_ids(&self.created),
            cursor: self.cursor,
            live: copy_ids(&self.live),
        }
    }
}

/// Add the ids of every unit and building `player` owns now.
fn capture(g: &Game, player: Player, created: &mut Vec<EntityId>)
    requires
        strictly_ascending(old(created)@),
    ensures
        strictly_ascending(final(created)@),
        forall|y: EntityId|
            #[trigger] final(created)@.contains(y) <==> (old(created)@.contains(y) || own_ids(
                *g,
                player,
            ).contains(y)),
{
    let mut i: usize = 0;
    while i < g.units.len()
        invariant
            0 <= i <= g.units@.len(),
            strictly_ascending(created@),
            forall|y: EntityId|
                #[trigger] created@.contains(y) <==> (old(created)@.contains(y) || own_unit_ids(
                    g.units@.subrange(0, i as int),
                    player,
                ).contains(y)),
        decreases g.units.len() - i,
    {
        assert(g.units@.subrange(0, i + 1).drop_last() =~= g.units@.subrange(0, i as int));
        if g.units[i].owner == player {
            insert_id_unique(created, g.units[i].id);
        }
        proof {
            broadcast use vstd::seq_lib::lemma_seq_contains_after_push;

            let sub = g.units@.subrange(0, i + 1);
            assert(sub.last() == g.units@[i as int]);
            assert(own_unit_ids(sub, player) == if g.units@[i as int].owner == player {
                own_unit_ids(g.units@.subrange(0, i as int), player).push(g.units@[i as int].id)
            } else {
                own_unit_ids(g.units@.subrange(0, i as int), player)
            });
        }
        i += 1;
    }
    assert(g.units@.subrange(0, i as int) =~= g.units@);
    let mut k: usize = 0;
    while k < g.buildings.len()
        invariant
            0 <= k <= g.buildings@.len(),
            strictly_ascending(created@),
            forall|y: EntityId|
                #[trigger] created@.contains(y) <==> (old(created)@.contains(y) || own_unit_ids(
                    g.units@,
                    player,
                ).contains(y) || own_building_ids(g.buildings@.subrange(0, k as int), player).contains(
                    y,
                )),
        decreases g.buildings.len() - k,
    {
        assert(g.buildings@.subrange(0, k + 1).drop_last() =~= g.buildings@.subrange(0, k as int));
        if g.buildings[k].owner == player {
            insert_id_unique(created, g.buildings[k].id);
        }
        proof {
            broadcast use vstd::seq_lib::lemma_seq_contains_after_push;

            let sub = g.buildings@.subrange(0, k + 1);
            assert(sub.last() == g.buildings@[k as int]);
            assert(own_building_ids(sub, player) == if g.buildings@[k as int].owner == player {
                own_building_ids(g.buildings@.subrange(0, k as int), player).push(g.buildings@[k as int].id)
            } else {
                own_building_ids(g.buildings@.subrange(0, k as int), player)
            });
        }
        k += 1;
    }
    assert(g.buildings@.subrange(0, k as int) =~= g.buildings@);
    assert forall|y: EntityId| #[trigger] own_ids(*g, player).contains(y) <==> (own_unit_ids(
        g.units@,
        player,
    ).contains(y) || own_building_ids(g.buildings@, player).contains(y)) by {
        let a = own_unit_ids(g.units@, player);
        let b = own_building_ids(g.buildings@, player);
        if (a + b).contains(y) {
            let j = choose|j: int| 0 <= j < (a + b).len() && (a + b)[j] == y;
            if j < a.len() {
                assert(a[j] == y);
            } else {
                assert(b[j - a.len()] == y);
            }
        }
        if a.contains(y) {
            let j = choose|j: int| 0 <= j < a.len() && a[j] == y;
            assert((a + b)[j] == y);
        }
        if b.contains(y) {
            let j = choose|j: int| 0 <= j < b.len() && b[j] == y;
            assert((a + b)[a.len() + j] == y);
        }
    }
}

/// The ids of `player`'s units, then of its buildings, in list order.
pub open spec fn own_ids(g: Game, player: Player) -> Seq<EntityId> {
    own_unit_ids(g.units@, player) + own_building_ids(g.buildings@, player)
}

pub open spec fn own_unit_ids(s: Seq<crate::entity::Unit>, player: Player) -> Seq<EntityId>
    decreases s.len(),
{
    if s.len() == 0 {
        Seq::empty()
    } else if s.last().owner == player {
        own_unit_ids(s.drop_last(), player).push(s.last().id)
    } else {
        own_unit_ids(s.drop_last(), player)
    }
}

pub open spec fn own_building_ids(s: Seq<crate::entity::Building>, player: Player) -> Seq<EntityId>
    decreases s.len(),
{
    if s.len() == 0 {
        Seq::empty()
    } else if s.last().owner == player {
        own_building_ids(s.drop_last(), player).push(s.last().id)
    } else {
        own_building_ids(s.drop_last(), player)
    }
}

/// `player`'s entities now, sorted by id: creation order.
pub fn current_entities(game: &Game, player: Player) -> (r: Vec<EntityId>)
    ensures
        r@ == sort_ids(own_ids(*game, player)),
{
    let mut v: Vec<EntityId> = Vec::new();
    let ghost mut seen: Seq<EntityId> = Seq::empty();
    let mut i: usize = 0;
    while i < game.units.len()
        invariant
            0 <= i <= game.units@.len(),
            seen == own_unit_ids(game.units@.subrange(0, i as int), player),
            v@ == sort_ids(seen),
        decreases game.units.len() - i,
    {
        assert(game.units@.subrange(0, i + 1).drop_last() =~= game.units@.subrange(0, i as int));
        if game.units[i].owner == player {
            let id = game.units[i].id;
            insert_id_sorted(&mut v, id);
            proof {
                assert(seen.push(id).drop_last() =~= seen);
                seen = seen.push(id);
            }
        }
        i += 1;
    }
    assert(game.units@.subrange(0, game.units@.len() as int) =~= game.units@);
    let ghost units_part = seen;
    let mut k: usize = 0;
    while k < game.buildings.len()
        invariant
            0 <= k <= game.buildings@.len(),
            units_part == own_unit_ids(game.units@, player),
            seen == units_part + own_building_ids(game.buildings@.subrange(0, k as int), player),
            v@ == sort_ids(seen),
        decreases game.buildings.len() - k,
    {
        assert(game.buildings@.subrange(0, k + 1).drop_last() =~= game.buildings@.subrange(
            0,
            k as int,
        ));
        if game.buildings[k].owner == player {
            let id = game.buildings[k].id;
            insert_id_sorted(&mut v, id);
            proof {
                assert(seen.push(id).drop_last() =~= seen);
                seen = seen.push(id);
                assert(seen =~= units_part + own_building_ids(
                    game.buildings@.subrange(0, k + 1),
                    player,
                ));
            }
        } else {
            proof {
                assert(seen =~= units_part + own_building_ids(
                    game.buildings@.subrange(0, k + 1),
                    player,
                ));
            }
        }
        k += 1;
    }
    assert(game.buildings@.subrange(0, game.buildings@.len() as int) =~= game.buildings@);
    v
}

/// `out` is what the commands of `stream[from..to]` recorded for exactly
/// `tick` give, in order, each remapped; a command with an entity that has
/// no counterpart is dropped.
pub open spec fn replay_out(
    stream: Seq<TimedCommand>,
    ranks: Seq<EntityId>,
    entities: Seq<EntityId>,
    player: Player,
    from: int,
    to: int,
    tick: i32,
    out: Seq<Command>,
) -> bool
    decreases to - from,
{
    if to <= from {
        out.len() == 0
    } else {
        let c = stream[to - 1];
        if c.tick == tick && !remapped(c.command, ranks, entities, player, None) {
            &&& out.len() > 0
            &&& remapped(c.command, ranks, entities, player, Some(out.last()))
            &&& replay_out(stream, ranks, entities, player, from, to - 1, tick, out.drop_last())
        } else {
            replay_out(stream, ranks, entities, player, from, to - 1, tick, out)
        }
    }
}

/// The ids in `s`, as a set.
pub open spec fn id_set(s: Seq<EntityId>) -> Set<EntityId> {
    Set::new(|y: EntityId| s.contains(y))
}

/// The ids `p` owns in some game of `chain`.
pub open spec fn chain_owned(chain: Seq<Game>, p: Player) -> Set<EntityId> {
    Set::new(
        |y: EntityId| exists|i: int| 0 <= i < chain.len() && #[trigger] own_ids(chain[i], p).contains(y),
    )
}

/// `chain` steps `a` toward tick `t` until the match is over, the tick is
/// reached or no further tick has room, ending in `b`.
pub open spec fn rerun_steps(a: Game, t: int, chain: Seq<Game>, b: Game) -> bool {
    &&& steps_toward(chain, t)
    &&& chain[0] == a
    &&& chain[chain.len() - 1] == b
    &&& b.spec_is_over() || b.tick >= t || !b.room_for_tick()
}

/// Re-running `log` from `a` (as [`replay_from`] does) ends in `g`, and
/// `ids` are the ids `p` owns in some game along the way.
#[verifier::opaque]
pub open spec fn rerun_owned(a: Game, log: Seq<TimedCommand>, p: Player, ids: Set<EntityId>, g: Game) -> bool
    decreases log.len(), 1int,
{
    if log.len() == 0 {
        g == a && ids == id_set(own_ids(a, p))
    } else {
        exists|chain: Seq<Game>, b: Game|
            #[trigger] rerun_steps(a, log[0].tick as int, chain, b) && rerun_next(log, p, ids, g, chain, b)
    }
}

/// After stepping along `chain` to `b` toward the first entry of `log`:
/// if the match is over, the rest of the log re-runs from `b`; if the tick
/// was not reached or the counters have no room, the re-run stops at `b`;
/// else a copy of the entry's command is applied and the rest re-runs.
pub open spec fn rerun_next(
    log: Seq<TimedCommand>,
    p: Player,
    ids: Set<EntityId>,
    g: Game,
    chain: Seq<Game>,
    b: Game,
) -> bool
    decreases log.len(), 0int,
{
    if log.len() == 0 {
        false
    } else {
        let tc = log[0];
        if b.spec_is_over() {
            exists|rest: Set<EntityId>|
                rerun_owned(b, log.drop_first(), p, rest, g) && ids == #[trigger] joined(chain, p, rest)
        } else if b.tick < tc.tick || !b.room_for_commands(tc.player, 1) {
            g == b && ids == chain_owned(chain, p)
        } else {
            exists|c: Command, mid: Game, rest: Set<EntityId>|
                #![trigger issued(b, mid, tc.player, seq![c]), joined(chain, p, rest)]
                tc.command.reissued(c, tc.command.issuer()) && issued(b, mid, tc.player, seq![c])
                    && rerun_owned(mid, log.drop_first(), p, rest, g) && ids == joined(chain, p, rest)
        }
    }
}

/// The ids owned along `chain`, and `rest`.
pub open spec fn joined(chain: Seq<Game>, p: Player, rest: Set<EntityId>) -> Set<EntityId> {
    chain_owned(chain, p) + rest
}

/// What `p` owns at the start of a re-run is among its ids.
proof fn lemma_rerun_owns_start(a: Game, log: Seq<TimedCommand>, p: Player, ids: Set<EntityId>, g: Game)
    requires
        rerun_owned(a, log, p, ids, g),
    ensures
        id_set(own_ids(a, p)).subset_of(ids),
{
    reveal(rerun_owned);
    if log.len() > 0 {
        let (chain, b) = choose|chain: Seq<Game>, b: Game|
            #[trigger] rerun_steps(a, log[0].tick as int, chain, b) && rerun_next(log, p, ids, g, chain, b);
        assert forall|y: EntityId| id_set(own_ids(a, p)).contains(y) implies ids.contains(y) by {
            assert(own_ids(chain[0], p).contains(y));
            assert(chain_owned(chain, p).contains(y));
        }
    }
}

/// The re-run of an empty log stays where it is.
proof fn lemma_rerun_empty(a: Game, log: Seq<TimedCommand>, p: Player)
    requires
        log.len() == 0,
    ensures
        rerun_owned(a, log, p, id_set(own_ids(a, p)), a),
{
    reveal(rerun_owned);
}

/// One entry re-run: the steps along `chain` to `b`, then (while the match
/// is on and the counters have room) a copy of its command, leading to
/// `mid`; what the rest gives from `mid`, the whole gives from `a`.
proof fn lemma_rerun_entry(
    a: Game,
    log: Seq<TimedCommand>,
    p: Player,
    chain: Seq<Game>,
    b: Game,
    c: Command,
    mid: Game,
)
    requires
        log.len() > 0,
        rerun_steps(a, log[0].tick as int, chain, b),
        !b.spec_is_over(),
        !(b.tick < log[0].tick),
        b.room_for_commands(log[0].player, 1),
        log[0].command.reissued(c, log[0].command.issuer()),
        issued(b, mid, log[0].player, seq![c]),
    ensures
        forall|gf: Game, r: Set<EntityId>|
            #[trigger] rerun_owned(mid, log.drop_first(), p, r, gf) ==> rerun_owned(
                a,
                log,
                p,
                chain_owned(chain, p) + r,
                gf,
            ),
{
    reveal(rerun_owned);
    assert forall|gf: Game, r: Set<EntityId>| #[trigger] rerun_owned(mid, log.drop_first(), p, r, gf) implies rerun_owned(
        a,
        log,
        p,
        chain_owned(chain, p) + r,
        gf,
    ) by {
        assert(joined(chain, p, r) == chain_owned(chain, p) + r);
        assert(rerun_next(log, p, chain_owned(chain, p) + r, gf, chain, b));
    }
}

/// An entry that arrives after the match ended is passed over.
proof fn lemma_rerun_over(a: Game, log: Seq<TimedCommand>, p: Player, chain: Seq<Game>, b: Game)
    requires
        log.len() > 0,
        rerun_steps(a, log[0].tick as int, chain, b),
        b.spec_is_over(),
    ensures
        forall|gf: Game, r: Set<EntityId>|
            #[trigger] rerun_owned(b, log.drop_first(), p, r, gf) ==> rerun_owned(
                a,
                log,
                p,
                chain_owned(chain, p) + r,
                gf,
            ),
{
    reveal(rerun_owned);
    assert forall|gf: Game, r: Set<EntityId>| #[trigger] rerun_owned(b, log.drop_first(), p, r, gf) implies rerun_owned(
        a,
        log,
        p,
        chain_owned(chain, p) + r,
        gf,
    ) by {
        assert(joined(chain, p, r) == chain_owned(chain, p) + r);
        assert(rerun_next(log, p, chain_owned(chain, p) + r, gf, chain, b));
    }
}

/// The re-run stops at `b`: the tick was not reached or the counters have
/// no room.
proof fn lemma_rerun_stop(a: Game, log: Seq<TimedCommand>, p: Player, chain: Seq<Game>, b: Game)
    requires
        log.len() > 0,
        rerun_steps(a, log[0].tick as int, chain, b),
        !b.spec_is_over(),
        b.tick < log[0].tick || !b.room_for_commands(log[0].player, 1),
    ensures
        rerun_owned(a, log, p, chain_owned(chain, p), b),
{
    reveal(rerun_owned);
    assert(rerun_next(log, p, chain_owned(chain, p), b, chain, b));
}

/// The ids owned along a chain grow by those of the game it is extended by.
proof fn lemma_chain_owned_push(chain: Seq<Game>, g: Game, p: Player)
    ensures
        chain_owned(chain.push(g), p) == chain_owned(chain, p) + id_set(own_ids(g, p)),
{
    let c2 = chain.push(g);
    assert forall|y: EntityId| #[trigger] chain_owned(c2, p).contains(y) <==> (chain_owned(
        chain,
        p,
    ).contains(y) || own_ids(g, p).contains(y)) by {
        if chain_owned(c2, p).contains(y) {
            let i = choose|i: int| 0 <= i < c2.len() && #[trigger] own_ids(c2[i], p).contains(y);
            if i < chain.len() {
                assert(c2[i] == chain[i]);
            }
        }
        if chain_owned(chain, p).contains(y) {
            let i = choose|i: int| 0 <= i < chain.len() && #[trigger] own_ids(chain[i], p).contains(y);
            assert(c2[i] == chain[i]);
        }
        if own_ids(g, p).contains(y) {
            assert(c2[chain.len() as int] == g);
        }
    }
    assert(chain_owned(c2, p) =~= chain_owned(chain, p) + id_set(own_ids(g, p)));
}

/// Step `game` toward tick `t` until the match is over, the tick is reached
/// or no further tick has room, adding the ids `player` owns after each
/// step to `created`; returns the games passed through.
fn step_capturing(game: &mut Game, t: i32, player: Player, created: &mut Vec<EntityId>) -> (chain: Ghost<
    Seq<Game>,
>)
    requires
        old(game).wf(),
        strictly_ascending(old(created)@),
        id_set(own_ids(*old(game), player)).subset_of(id_set(old(created)@)),
    ensures
        final(game).wf(),
        strictly_ascending(final(created)@),
        id_set(own_ids(*final(game), player)).subset_of(id_set(final(created)@)),
        rerun_steps(*old(game), t as int, chain@, *final(game)),
        id_set(final(created)@) == id_set(old(created)@) + chain_owned(chain@, player),
{
    let ghost start = *game;
    let ghost s0 = id_set(created@);
    let ghost mut chain: Seq<Game> = seq![*game];
    proof {
        assert forall|y: EntityId| chain_owned(chain, player).contains(y) implies s0.contains(y) by {
            let i = choose|i: int| 0 <= i < chain.len() && #[trigger] own_ids(chain[i], player).contains(y);
            assert(id_set(own_ids(start, player)).contains(y));
        }
        assert(s0 + chain_owned(chain, player) =~= s0);
    }
    while game.tick < t && !game.is_over()
        invariant
            game.wf(),
            steps_toward(chain, t as int),
            chain[0] == start,
            chain[chain.len() - 1] == *game,
            strictly_ascending(created@),
            id_set(created@) == s0 + chain_owned(chain, player),
            id_set(own_ids(*game, player)).subset_of(id_set(created@)),
        ensures
            game.wf(),
            steps_toward(chain, t as int),
            chain[0] == start,
            chain[chain.len() - 1] == *game,
            strictly_ascending(created@),
            id_set(created@) == s0 + chain_owned(chain, player),
            id_set(own_ids(*game, player)).subset_of(id_set(created@)),
            game.spec_is_over() || game.tick >= t || !game.room_for_tick(),
        decreases t - game.tick,
    {
        if !game.has_room_for_tick() {
            break;
        }
        game.step();
        let ghost before = created@;
        capture(game, player, created);
        proof {
            lemma_steps_push(chain, t as int, *game);
            lemma_chain_owned_push(chain, *game, player);
            assert(id_set(created@) =~= id_set(before) + id_set(own_ids(*game, player)));
            chain = chain.push(*game);
            assert(id_set(created@) =~= s0 + chain_owned(chain, player));
        }
    }
    Ghost(chain)
}

/// Re-run the first entry `tc` of `rest` on `game`: step toward its tick,
/// then apply a copy of its command while the match is on, adding the ids
/// `player` owns after each change to `created`. Returns whether the
/// re-run goes on to the next entry.
fn rerun_entry(
    game: &mut Game,
    tc: &TimedCommand,
    player: Player,
    created: &mut Vec<EntityId>,
    Ghost(rest): Ghost<Seq<TimedCommand>>,
) -> (go_on: bool)
    requires
        old(game).wf(),
        strictly_ascending(old(created)@),
        id_set(own_ids(*old(game), player)).subset_of(id_set(old(created)@)),
        rest.len() > 0,
        rest[0] == *tc,
    ensures
        final(game).wf(),
        strictly_ascending(final(created)@),
        id_set(own_ids(*final(game), player)).subset_of(id_set(final(created)@)),
        go_on ==> forall|gf: Game, r: Set<EntityId>|
            #[trigger] rerun_owned(*final(game), rest.drop_first(), player, r, gf) ==> exists|x: Set<EntityId>|
                #[trigger] rerun_owned(*old(game), rest, player, x, gf) && id_set(old(created)@) + x
                    == id_set(final(created)@) + r,
        !go_on ==> exists|x: Set<EntityId>|
            #[trigger] rerun_owned(*old(game), rest, player, x, *final(game)) && id_set(old(created)@)
                + x == id_set(final(created)@),
{
    let ghost start = *game;
    let ghost s0 = id_set(created@);
    let Ghost(chain) = step_capturing(game, tc.tick, player, created);
    proof {
        assert(rerun_steps(start, rest[0].tick as int, chain, *game));
    }
    if !game.is_over() && (game.tick < tc.tick || !game.has_room_for_commands(tc.player, 1)) {
        proof {
            lemma_rerun_stop(start, rest, player, chain, *game);
            assert(rerun_owned(start, rest, player, chain_owned(chain, player), *game));
        }
        return false;
    }
    if !game.is_over() {
        let one = vec![tc.command.clone()];
        let ghost c = one@[0];
        proof {
            assert(one@ =~= seq![c]);
        }
        let ghost pre = *game;
        let ghost s1 = id_set(created@);
        let ghost ch = chain;
        let r = game.apply_commands(tc.player, one.as_slice());
        capture(game, player, created);
        proof {
            let states = choose|states: Seq<Game>|
                {
                    &&& states.len() == one@.len() + 1
                    &&& states[0] == pre
                    &&& states[one@.len() as int] == *game
                    &&& forall|i: int|
                        0 <= i < one@.len() ==> #[trigger] states[i].command_outcome(
                            states[i + 1],
                            tc.player,
                            one@[i],
                            r@[i],
                        )
                };
            assert(crate::golden::command_chain(states, tc.player, seq![c], r@));
            assert(issued(pre, *game, tc.player, seq![c]));
            lemma_rerun_entry(start, rest, player, ch, pre, c, *game);
            assert(id_set(created@) =~= s1 + id_set(own_ids(*game, player)));
            assert forall|gf: Game, r2: Set<EntityId>| #[trigger] rerun_owned(
                *game,
                rest.drop_first(),
                player,
                r2,
                gf,
            ) implies exists|x: Set<EntityId>|
                #[trigger] rerun_owned(start, rest, player, x, gf) && s0 + x == id_set(created@) + r2 by {
                let x = chain_owned(ch, player) + r2;
                assert(rerun_owned(start, rest, player, x, gf));
                lemma_rerun_owns_start(*game, rest.drop_first(), player, r2, gf);
                assert(s0 + x =~= id_set(created@) + r2);
            }
        }
    } else {
        proof {
            lemma_rerun_over(start, rest, player, chain, *game);
            assert forall|gf: Game, r2: Set<EntityId>| #[trigger] rerun_owned(
                *game,
                rest.drop_first(),
                player,
                r2,
                gf,
            ) implies exists|x: Set<EntityId>|
                #[trigger] rerun_owned(start, rest, player, x, gf) && s0 + x == id_set(created@) + r2 by {
                let x = chain_owned(chain, player) + r2;
                assert(rerun_owned(start, rest, player, x, gf));
                lemma_rerun_owns_start(*game, rest.drop_first(), player, r2, gf);
                assert(s0 + x =~= id_set(created@) + r2);
            }
        }
    }
    true
}

/// Re-run the log of `replay` on its map, as [`replay_to_game`] does, and
/// collect the ids `player` owns along the way, ascending.
fn rerun_ids(replay: &Replay, player: Player) -> (created: Vec<EntityId>)
    requires
        replay.config.wf(),
    ensures
        strictly_ascending(created@),
        exists|g0: Game, gf: Game|
            replay_start(replay.map_seed, replay.config, g0) && #[trigger] rerun_owned(
                g0,
                replay.commands@,
                player,
                id_set(created@),
                gf,
            ),
{
    let mut created: Vec<EntityId> = Vec::new();
    let mut game = Game::new(GameMap::generate(replay.map_seed), replay.config);
    let ghost g0 = game;
    let ghost log = replay.commands@;
    capture(&game, player, &mut created);
    let mut applied: usize = 0;
    proof {
        assert(id_set(created@) =~= id_set(own_ids(game, player)));
        assert forall|gf: Game, r: Set<EntityId>| #[trigger] rerun_owned(game, log.skip(0), player, r, gf) implies rerun_owned(
            g0,
            log,
            player,
            id_set(created@) + r,
            gf,
        ) by {
            assert(log.skip(0) =~= log);
            lemma_rerun_owns_start(game, log, player, r, gf);
            assert(id_set(created@) + r =~= r);
        }
    }
    while applied < replay.commands.len()
        invariant
            game.wf(),
            0 <= applied <= replay.commands@.len(),
            log == replay.commands@,
            strictly_ascending(created@),
            replay_start(replay.map_seed, replay.config, g0),
            id_set(own_ids(game, player)).subset_of(id_set(created@)),
            forall|gf: Game, r: Set<EntityId>|
                #[trigger] rerun_owned(game, log.skip(applied as int), player, r, gf) ==> rerun_owned(
                    g0,
                    log,
                    player,
                    id_set(created@) + r,
                    gf,
                ),
        decreases replay.commands@.len() - applied,
    {
        let ghost rest = log.skip(applied as int);
        let ghost s_old = id_set(created@);
        let ghost g_old = game;
        assert(rest[0] == replay.commands@[applied as int]);
        assert(rest.drop_first() =~= log.skip(applied + 1));
        let go_on = rerun_entry(&mut game, &replay.commands[applied], player, &mut created, Ghost(rest));
        if !go_on {
            proof {
                let x = choose|x: Set<EntityId>|
                    #[trigger] rerun_owned(g_old, rest, player, x, game) && s_old + x == id_set(created@);
                assert(rerun_owned(g0, log, player, s_old + x, game));
            }
            return created;
        }
        proof {
            assert forall|gf: Game, r: Set<EntityId>| #[trigger] rerun_owned(
                game,
                log.skip(applied + 1),
                player,
                r,
                gf,
            ) implies rerun_owned(g0, log, player, id_set(created@) + r, gf) by {
                let x = choose|x: Set<EntityId>|
                    #[trigger] rerun_owned(g_old, rest, player, x, gf) && s_old + x == id_set(created@) + r;
                assert(rerun_owned(g0, log, player, s_old + x, gf));
            }
        }
        applied += 1;
    }
    proof {
        assert(log.skip(applied as int).len() == 0);
        lemma_rerun_empty(game, log.skip(applied as int), player);
        assert(id_set(created@) + id_set(own_ids(game, player)) =~= id_set(created@));
    }
    created
}

impl GhostReplay {
    /// A ghost replaying `player`'s command stream of `replay` on the
    /// replay's map: its commands sorted by tick (stably), and the ids of
    /// every entity `player` owned at any point of the recorded match
    /// (re-run command by command and tick by tick), ascending, which is
    /// their creation order.
    pub fn from_replay(replay: &Replay, player: Player) -> (g: GhostReplay)
        requires
            replay.config.wf(),
        ensures
            g.wf(),
            g.seed() == replay.map_seed,
            g.position() == 0,
            g.seen().len() == 0,
            same_stream(ghost_stream(replay.commands@, player), g.stream()),
            tick_sorted(g.stream()),
            exists|g0: Game, gf: Game|
                replay_start(replay.map_seed, replay.config, g0) && #[trigger] rerun_owned(
                    g0,
                    replay.commands@,
                    player,
                    id_set(g.ranks()),
                    gf,
                ),
    {
        let mut commands: Vec<TimedCommand> = Vec::new();
        let mut i: usize = 0;
        while i < replay.commands.len()
            invariant
                0 <= i <= replay.commands@.len(),
                same_stream(ghost_stream(replay.commands@.subrange(0, i as int), player), commands@),
            decreases replay.commands.len() - i,
        {
            let ghost pre = replay.commands@.subrange(0, i as int);
            assert(replay.commands@.subrange(0, i + 1).drop_last() =~= pre);
            if replay.commands[i].player == player {
                let c = replay.commands[i].clone();
                insert_by_tick(
                    &mut commands,
                    c,
                    Ghost(ghost_stream(pre, player)),
                    Ghost(replay.commands@[i as int]),
                );
            }
            i += 1;
        }
        assert(replay.commands@.subrange(0, replay.commands@.len() as int) =~= replay.commands@);
        proof {
            lemma_ghost_stream_sorted(replay.commands@, player);
            let m = ghost_stream(replay.commands@, player);
            assert forall|a: int, b: int| 0 <= a <= b < commands@.len() implies (
            #[trigger] commands@[a]).tick <= (#[trigger] commands@[b]).tick by {
                assert(m[a].same(commands@[a]) && m[b].same(commands@[b]));
            }
        }
        let created = rerun_ids(replay, player);
        let ghost ids = created@;
        let g = GhostReplay { map_seed: replay.map_seed, commands, created, cursor: 0, live: Vec::new() };
        assert(g.ranks() == ids);
        g
    }

    pub fn map_seed(&self) -> (r: u64)
        ensures
            r == self.seed(),
    {
        self.map_seed
    }

    pub fn command_count(&self) -> (r: usize)
        ensures
            r == self.stream().len(),
    {
        self.commands.len()
    }

    /// Rewind to the first command, for a new live match.
    pub fn reset(&mut self)
        ensures
            final(self).position() == 0,
            final(self).seen().len() == 0,
            final(self).seed() == old(self).seed(),
            final(self).stream() == old(self).stream(),
            final(self).ranks() == old(self).ranks(),
            old(self).wf() ==> final(self).wf(),
    {
        self.cursor = 0;
        self.live = Vec::new();
    }

    /// This tick's commands: the ghost first notes the ids its side owns now
    /// (so an entity keeps its creation-order rank after it dies), then
    /// advances past every command up to the current tick and re-issues,
    /// remapped by creation order, those recorded for exactly this tick (a
    /// command whose entities have no counterpart is dropped).
    pub fn replay_tick(&mut self, game: &Game, player: Player) -> (out: Vec<Command>)
        requires
            old(self).wf(),
        ensures
            final(self).wf(),
            final(self).seed() == old(self).seed(),
            final(self).stream() == old(self).stream(),
            final(self).ranks() == old(self).ranks(),
            forall|y: EntityId|
                #[trigger] final(self).seen().contains(y) <==> (old(self).seen().contains(y) || own_ids(
                    *game,
                    player,
                ).contains(y)),
            old(self).position() <= final(self).position(),
            forall|j: int|
                old(self).position() <= j < final(self).position() ==> (
                #[trigger] old(self).stream()[j]).tick <= game.tick,
            final(self).position() == old(self).stream().len()
                || old(self).stream()[final(self).position()].tick > game.tick,
            replay_out(
                old(self).stream(),
                old(self).ranks(),
                final(self).seen(),
                player,
                old(self).position(),
                final(self).position(),
                game.tick,
                out@,
            ),
            all_issued_by(out@, player),
    {
        capture(game, player, &mut self.live);
        let entities = copy_ids(&self.live);
        let mut out: Vec<Command> = Vec::new();
        let ghost start = self.cursor;
        while self.cursor < self.commands.len()
            invariant
                self.wf(),
                start <= self.cursor,
                self.map_seed == old(self).map_seed,
                self.commands == old(self).commands,
                self.created == old(self).created,
                entities@ == self.live@,
                start == old(self).cursor,
                forall|j: int| start <= j < self.cursor ==> (#[trigger] self.commands@[j]).tick <= game.tick,
                replay_out(
                    self.commands@,
                    self.created@,
                    entities@,
                    player,
                    start as int,
                    self.cursor as int,
                    game.tick,
                    out@,
                ),
                all_issued_by(out@, player),
            ensures
                self.cursor == self.commands@.len() || self.commands@[self.cursor as int].tick
                    > game.tick,
            decreases self.commands@.len() - self.cursor,
        {
            let tc = &self.commands[self.cursor];
            if tc.tick > game.tick {
                break;
            }
            let ghost before = out@;
            let ghost cmd = tc.command;
            if tc.tick == game.tick {
                match remap(&tc.command, &self.created, &entities, player) {
                    Some(c) => {
                        out.push(c);
                        assert(out@.drop_last() =~= before);
                        assert(!remapped(cmd, self.created@, entities@, player, None));
                    },
                    None => {},
                }
            }
            self.cursor = self.cursor + 1;
        }
        out
    }
}

impl Bot for GhostReplay {
    fn name(&self) -> (r: &'static str)
        ensures
            r@ == "ghost"@,
    {
        "ghost"
    }

    fn decide(&mut self, game: &Game, player: Player) -> (r: Vec<Command>)
        ensures
            !old(self).wf() ==> r@.len() == 0 && *final(self) == *old(self),
            old(self).wf() ==> {
                &&& final(self).wf()
                &&& final(self).seed() == old(self).seed()
                &&& final(self).stream() == old(self).stream()
                &&& final(self).ranks() == old(self).ranks()
                &&& forall|y: EntityId|
                    #[trigger] final(self).seen().contains(y) <==> (old(self).seen().contains(y)
                        || own_ids(*game, player).contains(y))
                &&& old(self).position() <= final(self).position()
                &&& forall|j: int|
                    old(self).position() <= j < final(self).position() ==> (
                    #[trigger] old(self).stream()[j]).tick <= game.tick
                &&& (final(self).position() == old(self).stream().len()
                    || old(self).stream()[final(self).position()].tick > game.tick)
                &&& replay_out(
                    old(self).stream(),
                    old(self).ranks(),
                    final(self).seen(),
                    player,
                    old(self).position(),
                    final(self).position(),
                    game.tick,
                    r@,
                )
            },
    {
        if !self.cursor_ok() {
            return Vec::new();
        }
        self.replay_tick(game, player)
    }
}

/// Whether a list of ids is strictly ascending.
fn ascending(v: &Vec<EntityId>) -> (r: bool)
    ensures
        r == strictly_ascending(v@),
{
    let mut i: usize = 1;
    while i < v.len()
        invariant
            1 <= i,
            forall|a: int, b: int| 0 <= a < b < i && b < v@.len() ==> (#[trigger] v@[a]) < (
            #[trigger] v@[b]),
        decreases v.len() - i,
    {
        if v[i - 1] >= v[i] {
            return false;
        }
        proof {
            assert forall|a: int, b: int| 0 <= a < b < i + 1 && b < v@.len() implies (
            #[trigger] v@[a]) < (#[trigger] v@[b]) by {
                if b == i && a < i - 1 {
                    assert(v@[a] < v@[i - 1]);
                }
            }
        }
        i += 1;
    }
    true
}

impl GhostReplay {
    /// Whether the cursor lies within the stream and both id lists ascend.
    pub fn cursor_ok(&self) -> (r: bool)
        ensures
            r == self.wf(),
    {
        if self.cursor > self.commands.len() {
            return false;
        }
        ascending(&self.created) && ascending(&self.live)
    }
}

/// One match: the ghost plays its recorded side (P0) and is polled every
/// tick, so commands recorded between command ticks fire on their tick; the
/// bot plays P1 on the command-tick cadence. Ends when the match is decided,
/// at the tick cap, or if a counter would leave its range.
pub fn run_ghost_match<B: Bot + ?Sized>(ghost: &mut GhostReplay, bot: &mut B, config: &GameConfig) -> (r:
    DetailedOutcome)
    requires
        config.wf(),
        config.timeout_ticks <= i32::MAX - 1000,
        old(ghost).wf(),
    ensures
        0 <= r.outcome.duration_ticks <= tick_cap(*config),
{
    let mut game = Game::new(GameMap::generate(ghost.map_seed()), *config);
    let max_ticks: i32 = if config.timeout_ticks > 0 {
        config.timeout_ticks + 1000
    } else {
        1_000_000
    };
    while !game.is_over() && game.tick < max_ticks
        invariant
            game.wf(),
            ghost.wf(),
            max_ticks == tick_cap(*config),
            0 <= game.tick <= max_ticks,
        decreases max_ticks - game.tick,
    {
        let ghost_cmds = ghost.replay_tick(&game, Player::P0);
        if ghost_cmds.len() > 0 {
            if !game.has_room_for_commands(Player::P0, ghost_cmds.len()) {
                break;
            }
            game.apply_commands(Player::P0, ghost_cmds.as_slice());
        }
        if game.is_command_tick() {
            let bot_cmds = bot.decide(&game, Player::P1);
            if bot_cmds.len() > 0 {
                if !game.has_room_for_commands(Player::P1, bot_cmds.len()) {
                    break;
                }
                game.apply_commands(Player::P1, bot_cmds.as_slice());
            }
        }
        if !game.has_room_for_tick() {
            break;
        }
        game.step();
    }
    DetailedOutcome {
        outcome: MatchOutcome {
            winner: game.winner,
            reason: game.win_reason,
            duration_ticks: game.tick,
        },
        p0_value: game.remaining_value(Player::P0),
        p1_value: game.remaining_value(Player::P1),
    }
}


// --- The ghost pool ---------------------------------------------------------

/// A ghost in the pool with its metadata.
pub struct GhostEntry {
    pub id: u64,
    pub recorded: GhostReplay,
    pub beat_champion: bool,
    /// Insertion stamp: larger is more recent.
    pub recency: u64,
}

/// The ghost pool: recent matches weighted higher, champion-beaters kept,
/// trimmed to a maximum size.
pub struct GhostPool {
    entries: Vec<GhostEntry>,
    max_size: usize,
    next_recency: u64,
}

/// The entry that leaves an over-full pool: the oldest one that did not beat
/// the champion, or the oldest of all when every entry did.
pub open spec fn evict_index(s: Seq<GhostEntry>) -> int {
    match first_where(s, not_beater(), 0) {
        Some(i) => i,
        None => 0,
    }
}

pub open spec fn not_beater() -> spec_fn(GhostEntry) -> bool {
    |e: GhostEntry| !e.beat_champion
}

/// The pool after trimming to `cap`.
pub open spec fn trimmed(s: Seq<GhostEntry>, cap: int) -> Seq<GhostEntry> {
    if s.len() > cap {
        s.remove(evict_index(s))
    } else {
        s
    }
}

/// How many entries beat the champion.
pub open spec fn count_beaters(s: Seq<GhostEntry>) -> nat
    decreases s.len(),
{
    if s.len() == 0 {
        0
    } else {
        count_beaters(s.drop_last()) + if s.last().beat_champion {
            1nat
        } else {
            0nat
        }
    }
}

/// The champion-beaters, most recent (last) first.
pub open spec fn rev_beaters(s: Seq<GhostEntry>) -> Seq<GhostEntry>
    decreases s.len(),
{
    if s.len() == 0 {
        Seq::empty()
    } else if s.last().beat_champion {
        seq![s.last()] + rev_beaters(s.drop_last())
    } else {
        rev_beaters(s.drop_last())
    }
}

impl GhostPool {
    pub closed spec fn contents(self) -> Seq<GhostEntry> {
        self.entries@
    }

    pub closed spec fn capacity(self) -> int {
        self.max_size as int
    }

    pub closed spec fn next_stamp(self) -> u64 {
        self.next_recency
    }

    /// Within capacity, stamps strictly increasing and below the next one.
    pub open spec fn wf(self) -> bool {
        &&& self.contents().len() <= self.capacity()
        &&& forall|i: int, j: int|
            0 <= i < j < self.contents().len() ==> (#[trigger] self.contents()[i]).recency < (
            #[trigger] self.contents()[j]).recency
        &&& forall|i: int|
            0 <= i < self.contents().len() ==> (#[trigger] self.contents()[i]).recency
                < self.next_stamp()
    }

    pub fn new(max_size: usize) -> (p: GhostPool)
        ensures
            p.wf(),
            p.contents().len() == 0,
            p.capacity() == max_size,
            p.next_stamp() == 0,
    {
        GhostPool { entries: Vec::new(), max_size, next_recency: 0 }
    }

    pub fn len(&self) -> (r: usize)
        ensures
            r == self.contents().len(),
    {
        self.entries.len()
    }

    pub fn is_empty(&self) -> (r: bool)
        ensures
            r == (self.contents().len() == 0),
    {
        self.entries.len() == 0
    }

    /// Add a ghost as the most recent entry, then trim to the maximum size
    /// by evicting the oldest entry that did not beat the champion (the
    /// oldest of all when every entry did).
    pub fn add(&mut self, id: u64, recorded: GhostReplay, beat_champion: bool)
        requires
            old(self).wf(),
            old(self).next_stamp() < u64::MAX,
        ensures
            final(self).wf(),
            final(self).capacity() == old(self).capacity(),
            final(self).next_stamp() == old(self).next_stamp() + 1,
            final(self).contents() == trimmed(
                old(self).contents().push(
                    GhostEntry { id, recorded, beat_champion, recency: old(self).next_stamp() },
                ),
                old(self).capacity(),
            ),
    {
        let ghost pushed = self.entries@.push(
            GhostEntry { id, recorded, beat_champion, recency: self.next_recency },
        );
        self.entries.push(GhostEntry { id, recorded, beat_champion, recency: self.next_recency });
        self.next_recency = self.next_recency + 1;
        if self.entries.len() > self.max_size {
            let mut k: usize = 0;
            while k < self.entries.len() && self.entries[k].beat_champion
                invariant
                    0 <= k <= self.entries@.len(),
                    self.entries@ == pushed,
                    first_where(pushed, not_beater(), 0) == first_where(pushed, not_beater(), k as int),
                decreases self.entries@.len() - k,
            {
                k += 1;
            }
            let evict = if k < self.entries.len() {
                k
            } else {
                0
            };
            proof {
                crate::game::lemma_first_where(pushed, not_beater(), 0);
                assert(evict == evict_index(pushed));
            }
            self.entries.remove(evict);
        }
        proof {
            let r = self.entries@;
            let e = pushed.len() - 1;
            assert forall|i: int, j: int| 0 <= i < j < r.len() implies (#[trigger] r[i]).recency < (
            #[trigger] r[j]).recency by {
                if pushed.len() > old(self).capacity() {
                    let x = evict_index(pushed);
                    let ii = if i < x {
                        i
                    } else {
                        i + 1
                    };
                    let jj = if j < x {
                        j
                    } else {
                        j + 1
                    };
                    assert(r[i] == pushed[ii] && r[j] == pushed[jj]);
                    if jj < e {
                        assert(pushed[ii] == old(self).contents()[ii]);
                        assert(pushed[jj] == old(self).contents()[jj]);
                    } else {
                        assert(pushed[ii] == old(self).contents()[ii]);
                    }
                } else {
                    if j < e {
                        assert(r[i] == old(self).contents()[i] && r[j] == old(self).contents()[j]);
                    } else {
                        assert(r[i] == old(self).contents()[i]);
                    }
                }
            }
            assert forall|i: int| 0 <= i < r.len() implies (#[trigger] r[i]).recency
                < self.next_recency by {
                if pushed.len() > old(self).capacity() {
                    let x = evict_index(pushed);
                    let ii = if i < x {
                        i
                    } else {
                        i + 1
                    };
                    assert(r[i] == pushed[ii]);
                    if ii < e {
                        assert(pushed[ii] == old(self).contents()[ii]);
                    }
                } else if i < e {
                    assert(r[i] == old(self).contents()[i]);
                }
            }
        }
    }

    /// Copies of the champion-beating ghosts, most recent first.
    pub fn champion_beaters(&self) -> (r: Vec<GhostReplay>)
        ensures
            r@.len() == rev_beaters(self.contents()).len(),
            forall|k: int| 0 <= k < r@.len() ==> (#[trigger] rev_beaters(self.contents())[k]).recorded.same(r@[k]),
    {
        let mut out: Vec<GhostReplay> = Vec::new();
        let mut i: usize = self.entries.len();
        assert(self.entries@.subrange(0, i as int) =~= self.entries@);
        while i > 0
            invariant
                0 <= i <= self.entries@.len(),
                out@.len() + rev_beaters(self.entries@.subrange(0, i as int)).len() == rev_beaters(
                    self.entries@,
                ).len(),
                forall|k: int|
                    0 <= k < out@.len() ==> (#[trigger] rev_beaters(self.entries@)[k]).recorded.same(out@[k]),
                rev_beaters(self.entries@) =~= rev_beaters(self.entries@).subrange(0, out@.len() as int)
                    + rev_beaters(self.entries@.subrange(0, i as int)),
            decreases i,
        {
            let ghost pre = self.entries@.subrange(0, i as int);
            assert(self.entries@.subrange(0, i - 1) =~= pre.drop_last());
            if self.entries[i - 1].beat_champion {
                let g = self.entries[i - 1].recorded.clone();
                out.push(g);
            }
            i -= 1;
        }
        assert(self.entries@.subrange(0, 0) =~= Seq::<GhostEntry>::empty());
        out
    }
}

/// `r` are copies of the ghosts at positions `picks` of the pool, each
/// position drawn at most once.
pub open spec fn drawn_from(pool: Seq<GhostEntry>, picks: Seq<int>, r: Seq<GhostReplay>) -> bool {
    &&& picks.len() == r.len()
    &&& forall|k: int|
        0 <= k < picks.len() ==> 0 <= #[trigger] picks[k] < pool.len() && pool[picks[k]].recorded.same(
            r[k],
        )
    &&& forall|a: int, b: int| 0 <= a < b < picks.len() ==> #[trigger] picks[a] != #[trigger] picks[b]
}

/// Whether draw `v` selects position `p` of `idx`: the first whose running
/// weight total exceeds `v`.
pub open spec fn selects(s: Seq<GhostEntry>, idx: Seq<usize>, v: int, p: int) -> bool {
    &&& 0 <= p < idx.len()
    &&& weight_at(s, idx.subrange(0, p)) <= v
    &&& v < weight_at(s, idx.subrange(0, p + 1))
}

/// A generator state after `k` draws from `st`.
pub open spec fn advance_by(st: u64, k: nat) -> u64
    decreases k,
{
    if k == 0 {
        st
    } else {
        advance_by(st, (k - 1) as nat).wrapping_add(GAMMA)
    }
}

/// `picks` are the entries drawn from the positions `idx`, without
/// replacement, with up to `n` draws of the generator at state `st`: each
/// draw takes the next value modulo the remaining entries' total weight and
/// selects by running weight total.
pub open spec fn sample_run(s: Seq<GhostEntry>, idx: Seq<usize>, st: u64, n: int, picks: Seq<int>) -> bool
    decreases idx.len(),
{
    if n <= 0 || idx.len() == 0 {
        picks.len() == 0
    } else {
        let v = mix(st.wrapping_add(GAMMA)) as int % weight_at(s, idx);
        &&& picks.len() > 0
        &&& exists|p: int|
            #[trigger] selects(s, idx, v, p) && picks[0] == idx[p] as int && sample_run(
                s,
                idx.remove(p),
                st.wrapping_add(GAMMA),
                n - 1,
                picks.drop_first(),
            )
    }
}

/// The draw weight of every entry: its recency plus one.
pub open spec fn weight(s: Seq<GhostEntry>) -> int
    decreases s.len(),
{
    if s.len() == 0 {
        0
    } else {
        weight(s.drop_last()) + s.last().recency + 1
    }
}

/// The summed draw weight of the entries at a list of positions.
pub open spec fn weight_at(s: Seq<GhostEntry>, idx: Seq<usize>) -> int
    decreases idx.len(),
{
    if idx.len() == 0 {
        0
    } else {
        weight_at(s, idx.drop_last()) + s[idx.last() as int].recency + 1
    }
}

/// Positions strictly ascending and inside `n`.
pub open spec fn ascending_below(idx: Seq<usize>, n: int) -> bool {
    &&& forall|a: int, b: int| 0 <= a < b < idx.len() ==> (#[trigger] idx[a]) < (#[trigger] idx[b])
    &&& forall|a: int| 0 <= a < idx.len() ==> (#[trigger] idx[a]) < n
}

proof fn lemma_weight_at_prefix(s: Seq<GhostEntry>, idx: Seq<usize>)
    requires
        s.len() > 0,
        forall|a: int| 0 <= a < idx.len() ==> (#[trigger] idx[a]) < s.len() - 1,
    ensures
        weight_at(s, idx) == weight_at(s.drop_last(), idx),
    decreases idx.len(),
{
    if idx.len() > 0 {
        lemma_weight_at_prefix(s, idx.drop_last());
        assert(s[idx.last() as int] == s.drop_last()[idx.last() as int]);
    }
}

/// A draw over a subset of positions weighs at most the whole pool.
pub proof fn lemma_weight_at_bound(s: Seq<GhostEntry>, idx: Seq<usize>)
    requires
        ascending_below(idx, s.len() as int),
    ensures
        0 <= weight_at(s, idx) <= weight(s),
    decreases s.len(),
{
    if s.len() == 0 {
        if idx.len() > 0 {
            assert(idx[0] < 0);
        }
    } else if idx.len() > 0 && idx.last() == s.len() - 1 {
        let d = idx.drop_last();
        assert forall|a: int| 0 <= a < d.len() implies (#[trigger] d[a]) < s.len() - 1 by {
            assert(idx[a] < idx[idx.len() - 1]);
        }
        lemma_weight_at_prefix(s, d);
        lemma_weight_at_bound(s.drop_last(), d);
    } else {
        assert forall|a: int| 0 <= a < idx.len() implies (#[trigger] idx[a]) < s.len() - 1 by {
            if idx[a] == s.len() - 1 {
                if a < idx.len() - 1 {
                    assert(idx[a] < idx[idx.len() - 1]);
                }
            }
        }
        lemma_weight_at_prefix(s, idx);
        lemma_weight_at_bound(s.drop_last(), idx);
    }
}

impl GhostPool {
    /// Draw up to `n` ghosts without replacement, each draw weighted by
    /// recency (an entry's weight is its stamp plus one) using `rng`.
    #[verifier::spinoff_prover]
    #[verifier::rlimit(40)]
    pub fn sample(&self, rng: &mut Rng, n: usize) -> (r: Vec<GhostReplay>)
        requires
            self.wf(),
            weight(self.contents()) <= u64::MAX,
        ensures
            r@.len() == if n < self.contents().len() {
                n as int
            } else {
                self.contents().len() as int
            },
            exists|picks: Seq<int>|
                #[trigger] drawn_from(self.contents(), picks, r@) && sample_run(
                    self.contents(),
                    Seq::new(self.contents().len(), |i: int| i as usize),
                    old(rng).spec_state(),
                    n as int,
                    picks,
                ),
            final(rng).spec_state() == advance_by(old(rng).spec_state(), r@.len()),
    {
        let ghost n0 = n;
        let ghost st0 = rng.spec_state();
        let len = self.entries.len();
        let ghost idx0 = Seq::new(len as nat, |i: int| i as usize);
        let n = if n < len {
            n
        } else {
            len
        };
        let mut out: Vec<GhostReplay> = Vec::new();
        if n == 0 {
            proof {
                assert(drawn_from(self.entries@, Seq::<int>::empty(), out@));
                assert(sample_run(self.entries@, idx0, st0, n0 as int, Seq::<int>::empty()));
            }
            return out;
        }
        let mut idx: Vec<usize> = Vec::new();
        let mut i: usize = 0;
        while i < len
            invariant
                0 <= i <= len,
                len == self.entries@.len(),
                idx@.len() == i,
                forall|a: int| 0 <= a < i ==> #[trigger] idx@[a] == a,
            decreases len - i,
        {
            idx.push(i);
            i += 1;
        }
        assert(idx@ =~= idx0);
        let ghost mut picks: Seq<int> = Seq::empty();
        proof {
            assert forall|rest: Seq<int>|
                #[trigger] sample_run(self.entries@, idx@, rng.spec_state(), n0 as int, rest) implies sample_run(
                self.entries@,
                idx0,
                st0,
                n0 as int,
                picks + rest,
            ) by {
                assert(picks + rest =~= rest);
            }
        }
        while out.len() < n
            invariant
                0 <= n <= len,
                n <= n0,
                n == n0 || n == len,
                len == self.entries@.len(),
                self.wf(),
                weight(self.entries@) <= u64::MAX,
                ascending_below(idx@, len as int),
                out@.len() + idx@.len() == len,
                out@.len() <= n,
                picks.len() == out@.len(),
                forall|k: int|
                    0 <= k < picks.len() ==> 0 <= #[trigger] picks[k] < len
                        && self.entries@[picks[k]].recorded.same(out@[k]),
                forall|a: int, b: int|
                    0 <= a < b < picks.len() ==> #[trigger] picks[a] != #[trigger] picks[b],
                forall|a: int, k: int|
                    0 <= a < idx@.len() && 0 <= k < picks.len() ==> #[trigger] idx@[a] != #[trigger] picks[k],
                rng.spec_state() == advance_by(st0, out@.len()),
                forall|rest: Seq<int>|
                    #[trigger] sample_run(self.entries@, idx@, rng.spec_state(), n0 - out@.len(), rest)
                        ==> sample_run(self.entries@, idx0, st0, n0 as int, picks + rest),
            decreases n - out@.len(),
        {
            let mut total: u64 = 0;
            let mut q: usize = 0;
            while q < idx.len()
                invariant
                    0 <= q <= idx@.len(),
                    ascending_below(idx@, len as int),
                    len == self.entries@.len(),
                    weight(self.entries@) <= u64::MAX,
                    total == weight_at(self.entries@, idx@.subrange(0, q as int)),
                    total >= q,
                decreases idx@.len() - q,
            {
                proof {
                    let sub = idx@.subrange(0, q + 1);
                    assert(sub.drop_last() =~= idx@.subrange(0, q as int));
                    assert(ascending_below(sub, len as int));
                    lemma_weight_at_bound(self.entries@, sub);
                }
                total = total + self.entries[idx[q]].recency + 1;
                q += 1;
            }
            assert(idx@.subrange(0, idx@.len() as int) =~= idx@);
            let ghost st = rng.spec_state();
            let mut pick = rng.below(total);
            let ghost v = pick as int;
            let mut chosen: usize = 0;
            let mut pos: usize = 0;
            while pos < idx.len()
                invariant
                    0 <= pos <= idx@.len(),
                    idx@.len() > 0,
                    chosen < idx@.len(),
                    ascending_below(idx@, len as int),
                    len == self.entries@.len(),
                    self.wf(),
                    total == weight_at(self.entries@, idx@),
                    total == weight_at(self.entries@, idx@.subrange(0, idx@.len() as int)),
                    v < total,
                    v == pick + weight_at(self.entries@, idx@.subrange(0, pos as int)),
                ensures
                    selects(self.entries@, idx@, v, chosen as int),
                decreases idx@.len() - pos,
            {
                let w = self.entries[idx[pos]].recency + 1;
                assert(idx@.subrange(0, pos + 1).drop_last() =~= idx@.subrange(0, pos as int));
                if pick < w {
                    chosen = pos;
                    break;
                }
                pick = pick - w;
                pos += 1;
            }
            let e = idx[chosen];
            let g = self.entries[e].recorded.clone();
            out.push(g);
            let ghost old_picks = picks;
            proof {
                assert forall|a: int| 0 <= a < picks.len() implies #[trigger] picks[a] != e as int by {
                    assert(idx@[chosen as int] != picks[a]);
                }
                picks = picks.push(e as int);
            }
            let ghost before = idx@;
            idx.remove(chosen);
            proof {
                assert forall|a: int, b: int| 0 <= a < b < idx@.len() implies (#[trigger] idx@[a]) < (
                #[trigger] idx@[b]) by {
                    let aa = if a < chosen {
                        a
                    } else {
                        a + 1
                    };
                    let bb = if b < chosen {
                        b
                    } else {
                        b + 1
                    };
                    assert(idx@[a] == before[aa] && idx@[b] == before[bb]);
                }
                assert forall|a: int| 0 <= a < idx@.len() implies (#[trigger] idx@[a]) < len by {
                    let aa = if a < chosen {
                        a
                    } else {
                        a + 1
                    };
                    assert(idx@[a] == before[aa]);
                }
                assert forall|a: int, k: int|
                    0 <= a < idx@.len() && 0 <= k < picks.len() implies #[trigger] idx@[a]
                        != #[trigger] picks[k] by {
                    let aa = if a < chosen {
                        a
                    } else {
                        a + 1
                    };
                    assert(idx@[a] == before[aa]);
                    if k == picks.len() - 1 {
                        assert(before[aa] != before[chosen as int]);
                    }
                }
                assert(idx@ == before.remove(chosen as int));
                assert forall|rest: Seq<int>|
                    #[trigger] sample_run(self.entries@, idx@, rng.spec_state(), n0 - out@.len(), rest)
                        implies sample_run(self.entries@, idx0, st0, n0 as int, picks + rest) by {
                    let full = seq![e as int] + rest;
                    assert(full.drop_first() =~= rest);
                    assert(full[0] == before[chosen as int] as int);
                    assert(selects(self.entries@, before, v, chosen as int));
                    assert(sample_run(self.entries@, before, st, n0 - old_picks.len(), full));
                    assert(old_picks + full =~= picks + rest);
                }
            }
        }
        proof {
            assert(sample_run(self.entries@, idx@, rng.spec_state(), n0 - out@.len(), Seq::<int>::empty()));
            assert(picks + Seq::<int>::empty() =~= picks);
        }
        assert(drawn_from(self.entries@, picks, out@));
        out
    }
}


proof fn lemma_all_beaters_count(s: Seq<GhostEntry>)
    requires
        forall|i: int| 0 <= i < s.len() ==> (#[trigger] s[i]).beat_champion,
    ensures
        count_beaters(s) == s.len(),
    decreases s.len(),
{
    if s.len() > 0 {
        assert forall|i: int| 0 <= i < s.drop_last().len() implies (
        #[trigger] s.drop_last()[i]).beat_champion by {
            assert(s.drop_last()[i] == s[i]);
        }
        lemma_all_beaters_count(s.drop_last());
        assert(s[s.len() - 1].beat_champion);
    }
}

/// Champion-beaters are retained: when a pool one over capacity holds no
/// more beaters than the capacity, trimming evicts a non-beater, so every
/// beater stays; and the trimmed pool fits the capacity.
pub proof fn lemma_trim_keeps_beaters(s: Seq<GhostEntry>, cap: int)
    requires
        0 <= cap,
        s.len() <= cap + 1,
        count_beaters(s) <= cap,
    ensures
        trimmed(s, cap).len() <= cap,
        forall|i: int|
            0 <= i < s.len() && (#[trigger] s[i]).beat_champion ==> trimmed(s, cap).contains(s[i]),
{
    if s.len() > cap {
        if forall|i: int| 0 <= i < s.len() ==> (#[trigger] s[i]).beat_champion {
            lemma_all_beaters_count(s);
        }
        crate::game::lemma_first_where(s, not_beater(), 0);
        let x = evict_index(s);
        assert(!s[x].beat_champion);
        let t = trimmed(s, cap);
        assert forall|i: int| 0 <= i < s.len() && (#[trigger] s[i]).beat_champion implies t.contains(
            s[i],
        ) by {
            if i < x {
                assert(t[i] == s[i]);
            } else {
                assert(i > x);
                assert(t[i - 1] == s[i]);
            }
        }
    } else {
        assert forall|i: int| 0 <= i < s.len() && (#[trigger] s[i]).beat_champion implies trimmed(
            s,
            cap,
        ).contains(s[i]) by {
            assert(trimmed(s, cap)[i] == s[i]);
        }
    }
}

} // verus!
