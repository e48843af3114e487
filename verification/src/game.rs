//! Game-state data model: teams, game and rules states, the key bitmask of a
//! player input, the 32-slot world object table, the puck's touch ring, and
//! the append-only message log.
//!
//! Bodies, sticks and orientations are continuous quantities that live with
//! the physics integrator; this model holds what the rules read: indices,
//! counters, flags and teams.

use vstd::prelude::*;
use vstd::arithmetic::power2::*;

verus! {

#[derive(Debug, Copy, Clone, Eq, PartialEq, Structural)]
pub enum HQMTeam {
    Spec,
    Red,
    Blue,
}

impl HQMTeam {
    /// The on-wire team number.
    pub open spec fn num(self) -> u32 {
        match self {
            HQMTeam::Red => 0,
            HQMTeam::Blue => 1,
            HQMTeam::Spec => 0xffff_ffffu32,
        }
    }

    pub fn get_num(self) -> (r: u32)
        ensures
            r == self.num(),
    {
        match self {
            HQMTeam::Red => 0,
            HQMTeam::Blue => 1,
            HQMTeam::Spec => 0xffff_ffffu32,
        }
    }

    /// The opposing side; spectators have none.
    pub open spec fn spec_other(self) -> HQMTeam {
        match self {
            HQMTeam::Red => HQMTeam::Blue,
            HQMTeam::Blue => HQMTeam::Red,
            HQMTeam::Spec => HQMTeam::Spec,
        }
    }

    pub fn get_other_team(self) -> (r: HQMTeam)
        ensures
            r == self.spec_other(),
    {
        match self {
            HQMTeam::Red => HQMTeam::Blue,
            HQMTeam::Blue => HQMTeam::Red,
            HQMTeam::Spec => HQMTeam::Spec,
        }
    }
}

#[derive(Debug, Copy, Clone, Eq, PartialEq, Structural)]
pub enum HQMGameState {
    Warmup,
    Game,
    Intermission,
    Timeout,
    Paused,
    GameOver,
}

#[derive(Debug, Copy, Clone, Eq, PartialEq, Structural)]
pub enum HQMRulesState {
    Clear,
    OffsideWarning,
    IcingWarning,
    DualWarning,
    Offside,
    Icing,
}

impl HQMRulesState {
    /// The numeric projection carried by the snapshot.
    pub open spec fn spec_update_num(self) -> u32 {
        match self {
            HQMRulesState::Clear => 0,
            HQMRulesState::OffsideWarning => 1,
            HQMRulesState::IcingWarning => 2,
            HQMRulesState::DualWarning => 3,
            HQMRulesState::Offside => 4,
            HQMRulesState::Icing => 8,
        }
    }

    pub fn update_num(self) -> (r: u32)
        ensures
            r == self.spec_update_num(),
    {
        match self {
            HQMRulesState::Clear => 0,
            HQMRulesState::OffsideWarning => 1,
            HQMRulesState::IcingWarning => 2,
            HQMRulesState::DualWarning => 3,
            HQMRulesState::Offside => 4,
            HQMRulesState::Icing => 8,
        }
    }
}

/// The key bitmask of one input packet.  The analog axes (turn, forward,
/// stick aim, head and body targets) are continuous inputs that the physics
/// reads; the rules read only these key bits.
#[derive(Debug, Copy, Clone, Eq, PartialEq, Structural)]
pub struct HQMPlayerInput {
    pub keys: u32,
}

impl Default for HQMPlayerInput {
    fn default() -> (r: Self)
        ensures
            r.keys == 0,
    {
        HQMPlayerInput { keys: 0 }
    }
}

impl HQMPlayerInput {
    pub fn jump(&self) -> (r: bool)
        ensures
            r == (self.keys & 0x1 != 0),
    {
        self.keys & 0x1 != 0
    }

    pub fn crouch(&self) -> (r: bool)
        ensures
            r == (self.keys & 0x2 != 0),
    {
        self.keys & 0x2 != 0
    }

    pub fn join_red(&self) -> (r: bool)
        ensures
            r == (self.keys & 0x4 != 0),
    {
        self.keys & 0x4 != 0
    }

    pub fn join_blue(&self) -> (r: bool)
        ensures
            r == (self.keys & 0x8 != 0),
    {
        self.keys & 0x8 != 0
    }

    pub fn shift(&self) -> (r: bool)
        ensures
            r == (self.keys & 0x10 != 0),
    {
        self.keys & 0x10 != 0
    }

    pub fn spectate(&self) -> (r: bool)
        ensures
            r == (self.keys & 0x20 != 0),
    {
        self.keys & 0x20 != 0
    }
}

#[derive(Debug, Copy, Clone, Eq, PartialEq, Structural)]
pub enum HQMSkaterHand {
    Left,
    Right,
}

/// A skater's slot identity: which world slot it fills, which connected
/// player drives it, and which side it plays for.
#[derive(Debug, Copy, Clone, Eq, PartialEq, Structural)]
pub struct HQMSkater {
    pub index: usize,
    pub connected_player_index: usize,
    pub team: HQMTeam,
    pub hand: HQMSkaterHand,
}

/// One recent touch of the puck.
#[derive(Debug, Copy, Clone, Eq, PartialEq, Structural)]
pub struct HQMPuckTouch {
    pub player_index: usize,
    pub team: HQMTeam,
    pub tick: u32,
}

/// A sequence cut down to the ring's capacity of four entries.
pub open spec fn ring_cap(s: Seq<HQMPuckTouch>) -> Seq<HQMPuckTouch> {
    if s.len() <= 4 {
        s
    } else {
        s.take(4)
    }
}

/// The touches that stay when player `p` touches again: every touch of `p`
/// leaves, the rest keep their order.
pub open spec fn ring_remove(s: Seq<HQMPuckTouch>, p: usize) -> Seq<HQMPuckTouch>
    decreases s.len(),
{
    if s.len() == 0 {
        s
    } else {
        let rest = ring_remove(s.drop_last(), p);
        if s.last().player_index == p {
            rest
        } else {
            rest.push(s.last())
        }
    }
}

/// Removing a player's touches never lengthens the ring.
pub broadcast proof fn lemma_ring_remove_len(s: Seq<HQMPuckTouch>, p: usize)
    ensures
        (#[trigger] ring_remove(s, p)).len() <= s.len(),
    decreases s.len(),
{
    if s.len() > 0 {
        lemma_ring_remove_len(s.drop_last(), p);
    }
}

/// The touch ring after one more touch: the new touch moves to the front,
/// any earlier touch by the same player leaves, and the ring keeps at most
/// four entries.
pub open spec fn touch_ring_insert(s: Seq<HQMPuckTouch>, t: HQMPuckTouch) -> Seq<HQMPuckTouch> {
    ring_cap(seq![t] + ring_remove(s, t.player_index))
}

/// A puck's slot identity and its ring of recent touchers.
#[derive(Debug, Clone)]
pub struct HQMPuck {
    pub index: usize,
    pub touches: Vec<HQMPuckTouch>,
}

impl HQMPuck {
    /// At most four recent touches are kept.
    pub open spec fn wf(&self) -> bool {
        self.touches@.len() <= 4
    }

    pub fn new(index: usize) -> (r: Self)
        ensures
            r.wf(),
            r.index == index,
            r.touches@ == Seq::<HQMPuckTouch>::empty(),
    {
        HQMPuck { index, touches: Vec::new() }
    }

    /// Records a touch: moved to the front of the ring, deduplicated by
    /// player, capped at four entries.
    pub fn add_touch(&mut self, player_index: usize, team: HQMTeam, tick: u32)
        requires
            old(self).wf(),
        ensures
            final(self).wf(),
            final(self).index == old(self).index,
            final(self).touches@ == touch_ring_insert(
                old(self).touches@,
                HQMPuckTouch { player_index, team, tick },
            ),
    {
        let t = HQMPuckTouch { player_index, team, tick };
        let mut out: Vec<HQMPuckTouch> = Vec::new();
        out.push(t);
        proof {
            let taken0 = old(self).touches@.take(0);
            assert(taken0 =~= Seq::<HQMPuckTouch>::empty());
            assert(out@ =~= ring_cap(seq![t] + ring_remove(taken0, player_index)));
        }
        let mut i: usize = 0;
        while i < self.touches.len()
            invariant
                self.touches@ == old(self).touches@,
                self.touches@.len() <= 4,
                i <= self.touches@.len(),
                t == (HQMPuckTouch { player_index, team, tick }),
                out@ == ring_cap(seq![t] + ring_remove(self.touches@.take(i as int), player_index)),
                out@.len() <= 4,
            decreases self.touches@.len() - i,
        {
            broadcast use lemma_ring_remove_len;

            let e = self.touches[i];
            proof {
                let taken = self.touches@.take(i as int);
                let taken1 = self.touches@.take(i + 1);
                assert(taken1.drop_last() =~= taken);
                assert(taken1.last() == e);
            }
            if e.player_index != t.player_index && out.len() < 4 {
                out.push(e);
                proof {
                    let taken = self.touches@.take(i as int);
                    let taken1 = self.touches@.take(i + 1);
                    let rr = ring_remove(taken, player_index);
                    assert(ring_remove(taken1, player_index) == rr.push(e));
                    assert(seq![t] + rr.push(e) =~= (seq![t] + rr).push(e));
                    assert(out@ =~= ring_cap(
                        seq![t] + ring_remove(taken1, player_index),
                    ));
                }
            } else {
                proof {
                    if e.player_index != t.player_index {
                        assert(out@.len() == 4);
                        assert(out@ =~= ring_cap(
                            seq![t] + ring_remove(self.touches@.take(i + 1), player_index),
                        ));
                    } else {
                        assert(out@ =~= ring_cap(
                            seq![t] + ring_remove(self.touches@.take(i + 1), player_index),
                        ));
                    }
                }
            }
            i = i + 1;
        }
        proof {
            assert(self.touches@.take(self.touches@.len() as int) =~= self.touches@);
        }
        self.touches = out;
    }
}

/// One world slot: empty, a skater, or a puck.  The slot's index is the
/// object's on-wire identity for the object's whole lifetime.
#[derive(Debug, Clone)]
pub enum HQMGameObject {
    Empty,
    Player(HQMSkater),
    Puck(HQMPuck),
}

/// The fixed table of 32 world object slots.
pub struct HQMGameWorld {
    pub objects: Vec<HQMGameObject>,
    pub limit_jump_speed: bool,
}

pub const WORLD_SLOT_COUNT: usize = 32;

impl HQMGameWorld {
    /// The table always has exactly 32 slots, and pucks keep their rings
    /// bounded.
    pub open spec fn wf(&self) -> bool {
        &&& self.objects@.len() == WORLD_SLOT_COUNT
        &&& forall|i: int|
            0 <= i < self.objects@.len() ==> (#[trigger] self.objects@[i] matches
            HQMGameObject::Puck(p) ==> p.wf())
    }

    pub fn new(limit_jump_speed: bool) -> (r: Self)
        ensures
            r.wf(),
            forall|i: int| 0 <= i < 32 ==> #[trigger] r.objects@[i] is Empty,
            r.limit_jump_speed == limit_jump_speed,
    {
        let mut objects: Vec<HQMGameObject> = Vec::new();
        let mut i: usize = 0;
        while i < WORLD_SLOT_COUNT
            invariant
                i <= 32,
                objects@.len() == i,
                forall|j: int| 0 <= j < i ==> #[trigger] objects@[j] is Empty,
            decreases 32 - i,
        {
            objects.push(HQMGameObject::Empty);
            i = i + 1;
        }
        HQMGameWorld { objects, limit_jump_speed }
    }

    /// The lowest empty slot, if any.
    pub fn find_empty_object_slot(&self) -> (r: Option<usize>)
        requires
            self.wf(),
        ensures
            match r {
                Some(i) => {
                    &&& i < WORLD_SLOT_COUNT
                    &&& self.objects@[i as int] is Empty
                    &&& forall|j: int| 0 <= j < i ==> !(#[trigger] self.objects@[j] is Empty)
                },
                None => forall|j: int|
                    0 <= j < self.objects@.len() ==> !(#[trigger] self.objects@[j] is Empty),
            },
    {
        let mut i: usize = 0;
        while i < self.objects.len()
            invariant
                self.wf(),
                i <= self.objects@.len(),
                forall|j: int| 0 <= j < i ==> !(#[trigger] self.objects@[j] is Empty),
            decreases self.objects@.len() - i,
        {
            if matches!(&self.objects[i], HQMGameObject::Empty) {
                return Some(i);
            }
            i = i + 1;
        }
        None
    }

    /// Puts a new skater for `connected_player_index` into the lowest empty
    /// slot; with no slot free the world is unchanged and the join fails.
    pub fn create_player_object(
        &mut self,
        team: HQMTeam,
        hand: HQMSkaterHand,
        connected_player_index: usize,
    ) -> (r: Option<usize>)
        requires
            old(self).wf(),
        ensures
            final(self).wf(),
            final(self).limit_jump_speed == old(self).limit_jump_speed,
            match r {
                Some(i) => {
                    &&& i < WORLD_SLOT_COUNT
                    &&& old(self).objects@[i as int] is Empty
                    &&& forall|j: int| 0 <= j < i ==> !(#[trigger] old(self).objects@[j] is Empty)
                    &&& final(self).objects@ == old(self).objects@.update(
                        i as int,
                        HQMGameObject::Player(
                            HQMSkater { index: i, connected_player_index, team, hand },
                        ),
                    )
                },
                None => {
                    &&& forall|j: int|
                        0 <= j < old(self).objects@.len() ==> !(#[trigger] old(
                            self,
                        ).objects@[j] is Empty)
                    &&& final(self).objects@ == old(self).objects@
                },
            },
    {
        let slot = self.find_empty_object_slot();
        if let Some(i) = slot {
            self.objects[i] = HQMGameObject::Player(
                HQMSkater { index: i, connected_player_index, team, hand },
            );
        }
        slot
    }

    /// Puts a new puck with an empty touch ring into the lowest empty slot;
    /// with no slot free the world is unchanged.
    pub fn create_puck_object(&mut self) -> (r: Option<usize>)
        requires
            old(self).wf(),
        ensures
            final(self).wf(),
            final(self).limit_jump_speed == old(self).limit_jump_speed,
            match r {
                Some(i) => {
                    &&& i < WORLD_SLOT_COUNT
                    &&& old(self).objects@[i as int] is Empty
                    &&& forall|j: int| 0 <= j < i ==> !(#[trigger] old(self).objects@[j] is Empty)
                    &&& final(self).objects@.len() == old(self).objects@.len()
                    &&& (final(self).objects@[i as int] matches HQMGameObject::Puck(p) && p.index
                        == i && p.touches@ == Seq::<HQMPuckTouch>::empty())
                    &&& forall|j: int|
                        0 <= j < old(self).objects@.len() && j != i ==> final(self).objects@[j]
                            == #[trigger] old(self).objects@[j]
                },
                None => {
                    &&& forall|j: int|
                        0 <= j < old(self).objects@.len() ==> !(#[trigger] old(
                            self,
                        ).objects@[j] is Empty)
                    &&& final(self).objects@ == old(self).objects@
                },
            },
    {
        let slot = self.find_empty_object_slot();
        if let Some(i) = slot {
            self.objects[i] = HQMGameObject::Puck(HQMPuck { index: i, touches: Vec::new() });
        }
        slot
    }

    /// Empties every slot that holds a puck.
    pub fn clear_pucks(&mut self)
        requires
            old(self).wf(),
        ensures
            final(self).wf(),
            final(self).limit_jump_speed == old(self).limit_jump_speed,
            final(self).objects@.len() == old(self).objects@.len(),
            forall|i: int|
                0 <= i < old(self).objects@.len() ==> #[trigger] final(self).objects@[i] == (if old(
                    self,
                ).objects@[i] is Puck {
                    HQMGameObject::Empty
                } else {
                    old(self).objects@[i]
                }),
    {
        let mut i: usize = 0;
        while i < self.objects.len()
            invariant
                self.wf(),
                self.objects@.len() == old(self).objects@.len(),
                self.limit_jump_speed == old(self).limit_jump_speed,
                i <= self.objects@.len(),
                forall|j: int|
                    0 <= j < i ==> #[trigger] self.objects@[j] == (if old(
                        self,
                    ).objects@[j] is Puck {
                        HQMGameObject::Empty
                    } else {
                        old(self).objects@[j]
                    }),
                forall|j: int|
                    i <= j < self.objects@.len() ==> #[trigger] self.objects@[j] == old(
                        self,
                    ).objects@[j],
            decreases self.objects@.len() - i,
        {
            if matches!(&self.objects[i], HQMGameObject::Puck(_)) {
                self.objects[i] = HQMGameObject::Empty;
            }
            i = i + 1;
        }
    }

    /// Records a touch on the puck in slot `idx`; any other slot is left
    /// alone.
    pub fn touch_puck(&mut self, idx: usize, player_index: usize, team: HQMTeam, tick: u32)
        requires
            old(self).wf(),
            idx < old(self).objects@.len(),
        ensures
            final(self).wf(),
            final(self).limit_jump_speed == old(self).limit_jump_speed,
            final(self).objects@.len() == old(self).objects@.len(),
            forall|j: int|
                0 <= j < old(self).objects@.len() && j != idx ==> final(self).objects@[j]
                    == #[trigger] old(self).objects@[j],
            match old(self).objects@[idx as int] {
                HQMGameObject::Puck(p) => final(self).objects@[idx as int] matches
                    HQMGameObject::Puck(q) && q.index == p.index && q.touches@
                    == touch_ring_insert(
                    p.touches@,
                    HQMPuckTouch { player_index, team, tick },
                ),
                _ => final(self).objects@[idx as int] == old(self).objects@[idx as int],
            },
    {
        let obj = self.objects.remove(idx);
        match obj {
            HQMGameObject::Puck(mut p) => {
                p.add_touch(player_index, team, tick);
                self.objects.insert(idx, HQMGameObject::Puck(p));
            },
            other => {
                self.objects.insert(idx, other);
            },
        }
        proof {
            assert forall|j: int|
                0 <= j < old(self).objects@.len() && j != idx implies self.objects@[j] == old(
                self,
            ).objects@[j] by {
                assert(self.objects@ == old(self).objects@.remove(idx as int).insert(
                    idx as int,
                    self.objects@[idx as int],
                ));
            }
        }
    }

    /// The team of the skater in slot `idx`, if that slot holds one.
    pub fn skater_team(&self, idx: usize) -> (r: Option<(usize, HQMTeam)>)
        requires
            self.wf(),
        ensures
            r == spec_skater_team(self.objects@, idx as int),
    {
        if idx >= self.objects.len() {
            return None;
        }
        match &self.objects[idx] {
            HQMGameObject::Player(s) => Some((s.connected_player_index, s.team)),
            _ => None,
        }
    }

    /// How many skaters each side has on the ice: `(red, blue)`.
    pub fn team_player_counts(&self) -> (r: (usize, usize))
        requires
            self.wf(),
        ensures
            r.0 == count_team(self.objects@, HQMTeam::Red),
            r.1 == count_team(self.objects@, HQMTeam::Blue),
    {
        let mut red: usize = 0;
        let mut blue: usize = 0;
        let mut i: usize = 0;
        while i < self.objects.len()
            invariant
                self.wf(),
                i <= self.objects@.len(),
                red == count_team(self.objects@.take(i as int), HQMTeam::Red),
                blue == count_team(self.objects@.take(i as int), HQMTeam::Blue),
                red <= i && blue <= i,
            decreases self.objects@.len() - i,
        {
            proof {
                let taken = self.objects@.take(i as int);
                let taken1 = self.objects@.take(i + 1);
                assert(taken1.drop_last() =~= taken);
                assert(taken1.last() == self.objects@[i as int]);
                lemma_count_team_bound(taken1, HQMTeam::Red);
                lemma_count_team_bound(taken1, HQMTeam::Blue);
            }
            match &self.objects[i] {
                HQMGameObject::Player(s) => {
                    if matches!(s.team, HQMTeam::Red) {
                        red = red + 1;
                    } else if matches!(s.team, HQMTeam::Blue) {
                        blue = blue + 1;
                    }
                },
                _ => {},
            }
            i = i + 1;
        }
        proof {
            assert(self.objects@.take(self.objects@.len() as int) =~= self.objects@);
        }
        (red, blue)
    }
}

/// The connected player and team of the skater in slot `idx` of the table.
pub open spec fn spec_skater_team(objects: Seq<HQMGameObject>, idx: int) -> Option<(usize, HQMTeam)> {
    if 0 <= idx < objects.len() {
        match objects[idx] {
            HQMGameObject::Player(s) => Some((s.connected_player_index, s.team)),
            _ => None,
        }
    } else {
        None
    }
}

/// How many slots hold a skater of `team`.
pub open spec fn count_team(objects: Seq<HQMGameObject>, team: HQMTeam) -> nat
    decreases objects.len(),
{
    if objects.len() == 0 {
        0
    } else {
        count_team(objects.drop_last(), team) + (match objects.last() {
            HQMGameObject::Player(s) => if s.team == team {
                1nat
            } else {
                0nat
            },
            _ => 0nat,
        })
    }
}

/// The contribution of one slot to a team's skater count.
pub open spec fn team_contrib(o: HQMGameObject, team: HQMTeam) -> nat {
    match o {
        HQMGameObject::Player(s) => if s.team == team {
            1nat
        } else {
            0nat
        },
        _ => 0nat,
    }
}

/// Replacing one slot changes a team's count by the slots' contributions.
pub proof fn lemma_count_team_update(
    objects: Seq<HQMGameObject>,
    i: int,
    o: HQMGameObject,
    team: HQMTeam,
)
    requires
        0 <= i < objects.len(),
    ensures
        count_team(objects.update(i, o), team) + team_contrib(objects[i], team) == count_team(
            objects,
            team,
        ) + team_contrib(o, team),
    decreases objects.len(),
{
    let updated = objects.update(i, o);
    if i == objects.len() - 1 {
        assert(updated.drop_last() =~= objects.drop_last());
        assert(updated.last() == o);
    } else {
        assert(updated.drop_last() =~= objects.drop_last().update(i, o));
        assert(updated.last() == objects.last());
        lemma_count_team_update(objects.drop_last(), i, o, team);
    }
}

/// A team cannot have more skaters than there are slots.
pub proof fn lemma_count_team_bound(objects: Seq<HQMGameObject>, team: HQMTeam)
    ensures
        count_team(objects, team) <= objects.len(),
    decreases objects.len(),
{
    if objects.len() > 0 {
        lemma_count_team_bound(objects.drop_last(), team);
    }
}

/// One connected session, as the rules see it: the latest input keys, the
/// team-switch cooldown, the admin flag, the stick hand, and the world slot
/// of its skater, if it has one.  The player's name and address live with
/// the socket code.
#[derive(Debug, Copy, Clone, Eq, PartialEq, Structural)]
pub struct HQMConnectedPlayer {
    pub input: HQMPlayerInput,
    pub team_switch_timer: u32,
    pub is_admin: bool,
    pub hand: HQMSkaterHand,
    pub skater: Option<usize>,
}

/// One entry of the append-only message log.
#[derive(Debug, Clone)]
pub enum HQMMessage {
    PlayerUpdate {
        player_name: Vec<u8>,
        team: HQMTeam,
        player_index: usize,
        object_index: Option<usize>,
        in_server: bool,
    },
    Goal { team: HQMTeam, goal_player_index: Option<usize>, assist_player_index: Option<usize> },
    Chat { player_index: Option<usize>, message: Vec<u8> },
}

/// The whole rule-visible game state: scores, clocks, flags and the world
/// slot table, plus the append-only message log.
pub struct HQMGame {
    pub state: HQMGameState,
    pub rules_state: HQMRulesState,
    pub world: HQMGameWorld,
    pub global_messages: Vec<HQMMessage>,
    pub red_score: u32,
    pub blue_score: u32,
    pub period: u32,
    pub time: u32,
    pub time_break: u32,
    pub is_intermission_goal: bool,
    pub paused: bool,
    pub game_id: u32,
    pub game_step: u32,
    pub game_over: bool,
    pub packet: u32,
    pub active: bool,
}

impl HQMGame {
    pub open spec fn wf(&self) -> bool {
        self.world.wf()
    }

    /// A fresh warmup game: empty world, zero scores, a 5-minute clock.
    pub fn new(game_id: u32, limit_jump_speed: bool) -> (r: Self)
        ensures
            r.wf(),
            r.state == HQMGameState::Warmup,
            r.rules_state == HQMRulesState::Clear,
            forall|i: int| 0 <= i < 32 ==> #[trigger] r.world.objects@[i] is Empty,
            r.world.limit_jump_speed == limit_jump_speed,
            r.global_messages@.len() == 0,
            r.red_score == 0 && r.blue_score == 0,
            r.period == 0,
            r.time == 30000,
            r.time_break == 0,
            !r.is_intermission_goal,
            !r.paused,
            r.game_id == game_id,
            r.game_step == 0,
            !r.game_over,
            r.packet == 0,
            !r.active,
    {
        HQMGame {
            state: HQMGameState::Warmup,
            rules_state: HQMRulesState::Clear,
            world: HQMGameWorld::new(limit_jump_speed),
            global_messages: Vec::new(),
            red_score: 0,
            blue_score: 0,
            period: 0,
            time: 30000,
            time_break: 0,
            is_intermission_goal: false,
            paused: false,
            game_id,
            game_step: 0,
            game_over: false,
            packet: 0,
            active: false,
        }
    }
}

impl HQMGame {
    /// Appends one message to the global log.  Messages never expire; each
    /// client's replication cursor advances independently.
    pub fn add_message(&mut self, message: HQMMessage)
        ensures
            final(self).global_messages@ == old(self).global_messages@.push(message),
            final(self).world == old(self).world,
            final(self).state == old(self).state,
            final(self).rules_state == old(self).rules_state,
            final(self).red_score == old(self).red_score,
            final(self).blue_score == old(self).blue_score,
            final(self).period == old(self).period,
            final(self).time == old(self).time,
            final(self).time_break == old(self).time_break,
            final(self).is_intermission_goal == old(self).is_intermission_goal,
            final(self).paused == old(self).paused,
            final(self).game_id == old(self).game_id,
            final(self).game_step == old(self).game_step,
            final(self).game_over == old(self).game_over,
            final(self).packet == old(self).packet,
            final(self).active == old(self).active,
    {
        self.global_messages.push(message);
    }

    /// How many messages one snapshot may carry to a client whose cursor
    /// stands at `cursor`: the unacknowledged backlog, at most sixteen.
    pub fn message_window(&self, cursor: usize) -> (r: usize)
        ensures
            cursor >= self.global_messages@.len() ==> r == 0,
            cursor < self.global_messages@.len() ==> r == (if self.global_messages@.len() - cursor
                <= 16 {
                self.global_messages@.len() - cursor
            } else {
                16int
            }),
    {
        let len = self.global_messages.len();
        if cursor >= len {
            0
        } else if len - cursor <= 16 {
            len - cursor
        } else {
            16
        }
    }
}

/// The cursor after a client acknowledges `acked` more messages: it moves
/// forward but never past the end of the log.
pub fn advance_message_cursor(cursor: usize, acked: u8, log_len: usize) -> (r: usize)
    ensures
        r == (if cursor + acked <= log_len {
            cursor + acked
        } else {
            log_len as int
        }),
        r >= cursor || r == log_len,
{
    if acked as usize <= usize::MAX - cursor && cursor + acked as usize <= log_len {
        cursor + acked as usize
    } else {
        log_len
    }
}

/// The integer clamp behind packet field quantization: `v` held to the
/// closed range `[0, 2^bits - 1]`.  The caller scales the continuous
/// quantity to integer units first.
pub fn get_position(bits: u32, v: i32) -> (r: u32)
    requires
        1 <= bits <= 30,
    ensures
        v < 0 ==> r == 0,
        v > pow2(bits as nat) - 1 ==> r == pow2(bits as nat) - 1,
        0 <= v <= pow2(bits as nat) - 1 ==> r == v,
{
    proof {
        lemma2_to64();
        lemma_pow2_strictly_increases(bits as nat, 31);
    }
    let max: u32 = crate::codec::pow2_u32(bits) - 1;
    if v < 0 {
        0
    } else if v > max as i32 {
        max
    } else {
        v as u32
    }
}

} // verus!
