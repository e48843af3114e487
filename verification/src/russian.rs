//! The elimination-style rules engine: each team has a fixed quota of
//! offensive attempts, possession alternates with the puck's offensive
//! zone, and the game ends as soon as the trailing team can no longer
//! catch up.
//!
//! Every decision is made here over the integer game state.  Side effects
//! that need the outside world (chat text, spawn coordinates, starting the
//! next game) are handed back as [`HQMRussianAction`] values.

use vstd::prelude::*;
use crate::game::{count_team, spec_skater_team, touch_ring_insert, HQMConnectedPlayer, HQMGame,
    HQMGameObject, HQMGameState, HQMPuckTouch, HQMRulesState, HQMTeam};

verus! {

/// The engine's phase: waiting for both benches, playing rounds, or done.
#[derive(Debug, Copy, Clone, Eq, PartialEq, Structural)]
pub enum HQMRussianStatus {
    Pause,
    Game { in_zone: HQMTeam, round: u32, goal_scored: bool },
    GameOver,
}

/// One simulation event of a tick, in generation order.
#[derive(Debug, Copy, Clone, Eq, PartialEq, Structural)]
pub enum HQMSimulationEvent {
    PuckTouch { puck: usize, player: usize },
    PuckEnteredNet { team: HQMTeam, puck: usize },
    PuckPassedGoalLine { team: HQMTeam, puck: usize },
    PuckEnteredOffensiveZone { team: HQMTeam, puck: usize },
    PuckLeftOffensiveZone { team: HQMTeam, puck: usize },
    PuckEnteredOwnHalf { team: HQMTeam, puck: usize },
    PuckTouchedNet { team: HQMTeam, puck: usize },
}

/// An effect the server must carry out: an announcement, a puck to place,
/// a goal to broadcast, or the start of the next game.
#[derive(Debug, Copy, Clone, Eq, PartialEq, Structural)]
pub enum HQMRussianAction {
    AnnounceAttemptsLeft { team: HQMTeam, remaining: u32 },
    AnnounceLastAttempt { team: HQMTeam },
    AnnounceTieBreaker { team: HQMTeam },
    AnnounceTotalAttempts { attempts: u32 },
    PlacePuck { team: HQMTeam, slot: usize },
    GoalScored { team: HQMTeam },
    Spectate { player_index: usize },
    Join { player_index: usize, team: HQMTeam, slot: usize },
    PositionPlayers,
    NewGame,
}

/// The announcement that a team hears when an attempt becomes theirs.
pub open spec fn spec_announce(remaining: u32, team: HQMTeam) -> HQMRussianAction {
    if remaining >= 2 {
        HQMRussianAction::AnnounceAttemptsLeft { team, remaining }
    } else if remaining == 1 {
        HQMRussianAction::AnnounceLastAttempt { team }
    } else {
        HQMRussianAction::AnnounceTieBreaker { team }
    }
}

/// `a + 1`, held at the type's ceiling.
pub open spec fn sat_inc(a: u32) -> u32 {
    if a < 0xffff_ffffu32 {
        (a + 1) as u32
    } else {
        a
    }
}

/// `a - 1`, held at zero.
pub open spec fn sat_dec(a: u32) -> u32 {
    if a > 0 {
        (a - 1) as u32
    } else {
        0
    }
}

/// `a - b`, held at zero.
pub open spec fn sat_sub(a: u32, b: u32) -> u32 {
    if a >= b {
        (a - b) as u32
    } else {
        0
    }
}

/// The status and clock after possession moves to `team`: from the pause
/// the first round starts; in a round, a change of zone hands the attempt
/// over, resets the clock, and a handover to Red opens the next round.
pub open spec fn spec_fix_status(
    attempts: u32,
    status: HQMRussianStatus,
    time: u32,
    team: HQMTeam,
) -> (HQMRussianStatus, u32) {
    match status {
        HQMRussianStatus::Pause => (
            HQMRussianStatus::Game { in_zone: team, round: 0, goal_scored: false },
            time,
        ),
        HQMRussianStatus::Game { in_zone, round, goal_scored } => {
            if in_zone != team {
                let new_round = if team == HQMTeam::Red {
                    sat_inc(round)
                } else {
                    round
                };
                (
                    HQMRussianStatus::Game { in_zone: team, round: new_round, goal_scored },
                    2000,
                )
            } else {
                (status, time)
            }
        },
        HQMRussianStatus::GameOver => (status, time),
    }
}

/// The announcement of `spec_fix_status`, if possession really moved.
pub open spec fn spec_fix_status_announce(
    attempts: u32,
    status: HQMRussianStatus,
    team: HQMTeam,
) -> Option<HQMRussianAction> {
    match status {
        HQMRussianStatus::Pause => Some(spec_announce(attempts, team)),
        HQMRussianStatus::Game { in_zone, round, goal_scored } => {
            if in_zone != team {
                let new_round = if team == HQMTeam::Red {
                    sat_inc(round)
                } else {
                    round
                };
                Some(spec_announce(sat_sub(attempts, new_round), team))
            } else {
                None
            }
        },
        HQMRussianStatus::GameOver => None,
    }
}

/// Whether the trailing team can no longer catch up: each team's remaining
/// attempts are counted against the score difference.
pub open spec fn spec_russian_game_over(
    attempts: u32,
    in_zone: HQMTeam,
    round: u32,
    red_score: u32,
    blue_score: u32,
) -> bool {
    let red_taken: int = round + (if in_zone == HQMTeam::Blue {
        1int
    } else {
        0int
    });
    let blue_taken: int = round as int;
    let att: int = if attempts >= red_taken {
        attempts as int
    } else {
        red_taken
    };
    if red_score > blue_score {
        att - blue_taken < red_score - blue_score
    } else if blue_score > red_score {
        att - red_taken < blue_score - red_score
    } else {
        false
    }
}

/// The object table with every puck slot emptied.
pub open spec fn spec_clear_pucks(w: Seq<HQMGameObject>) -> Seq<HQMGameObject> {
    Seq::new(
        w.len(),
        |i: int|
            if w[i] is Puck {
                HQMGameObject::Empty
            } else {
                w[i]
            },
    )
}

/// `w1` is `w0` with a fresh puck (empty ring, slot as identity) in slot
/// `i`, the lowest empty slot of `w0`.
pub open spec fn fresh_puck_at(w0: Seq<HQMGameObject>, w1: Seq<HQMGameObject>, i: int) -> bool {
    &&& 0 <= i < w0.len()
    &&& w0[i] is Empty
    &&& (forall|j: int| 0 <= j < i ==> !(#[trigger] w0[j] is Empty))
    &&& w1.len() == w0.len()
    &&& (w1[i] matches HQMGameObject::Puck(p) && p.index == i && p.touches@ == Seq::<
        HQMPuckTouch,
    >::empty())
    &&& (forall|j: int| 0 <= j < w0.len() && j != i ==> #[trigger] w1[j] == w0[j])
}

/// The table work of placing the puck for an attempt: every puck cleared,
/// then one fresh puck in the lowest slot left empty.  `placed` names that
/// slot; with every slot holding a skater nothing can be placed.
pub open spec fn place_puck_world(
    w0: Seq<HQMGameObject>,
    w1: Seq<HQMGameObject>,
    placed: Option<usize>,
) -> bool {
    let cleared = spec_clear_pucks(w0);
    match placed {
        Some(i) => fresh_puck_at(cleared, w1, i as int),
        None => (forall|j: int| 0 <= j < cleared.len() ==> !(#[trigger] cleared[j] is Empty)) && w1
            == cleared,
    }
}

/// An optional announcement as an action list.
pub open spec fn opt_action_seq(a: Option<HQMRussianAction>) -> Seq<HQMRussianAction> {
    match a {
        Some(x) => seq![x],
        None => Seq::empty(),
    }
}

/// The placement action for `placed`, when a slot was found.
pub open spec fn placed_action_seq(team: HQMTeam, placed: Option<usize>) -> Seq<HQMRussianAction> {
    match placed {
        Some(i) => seq![HQMRussianAction::PlacePuck { team, slot: i }],
        None => Seq::empty(),
    }
}

/// Everything `place_puck_for_team` does beyond the possession handover:
/// the table work of `place_puck_world` and the actions it appends.
pub open spec fn place_puck_effect(
    attempts: u32,
    status: HQMRussianStatus,
    team: HQMTeam,
    w0: Seq<HQMGameObject>,
    w1: Seq<HQMGameObject>,
    appended: Seq<HQMRussianAction>,
) -> bool {
    exists|placed: Option<usize>|
        #![trigger place_puck_world(w0, w1, placed)]
        {
            &&& place_puck_world(w0, w1, placed)
            &&& appended == placed_action_seq(team, placed) + opt_action_seq(
                spec_fix_status_announce(attempts, status, team),
            )
        }
}

/// The actions `init` hands back: the quota announcement, the placement
/// and handover for Red's first attempt, and the order to re-position
/// everyone at the benches.
pub open spec fn init_actions(
    attempts: u32,
    status: HQMRussianStatus,
    w0: Seq<HQMGameObject>,
    w1: Seq<HQMGameObject>,
) -> Seq<HQMRussianAction> {
    let placed = choose|placed: Option<usize>|
        #![trigger place_puck_world(w0, w1, placed)]
        place_puck_world(w0, w1, placed);
    seq![HQMRussianAction::AnnounceTotalAttempts { attempts }] + placed_action_seq(
        HQMTeam::Red,
        placed,
    ) + opt_action_seq(spec_fix_status_announce(attempts, status, HQMTeam::Red)) + seq![
        HQMRussianAction::PositionPlayers,
    ]
}

/// The rule-visible state that one tick reads and writes.
#[derive(Debug, Copy, Clone, Eq, PartialEq, Structural)]
pub struct HQMRussianView {
    pub status: HQMRussianStatus,
    pub red_score: u32,
    pub blue_score: u32,
    pub time: u32,
    pub time_break: u32,
    pub is_intermission_goal: bool,
    pub game_over: bool,
    pub period: u32,
}

pub open spec fn russian_view(b: HQMRussianBehaviour, g: HQMGame) -> HQMRussianView {
    HQMRussianView {
        status: b.status,
        red_score: g.red_score,
        blue_score: g.blue_score,
        time: g.time,
        time_break: g.time_break,
        is_intermission_goal: g.is_intermission_goal,
        game_over: g.game_over,
        period: g.period,
    }
}

/// `check_ending` at the view level.
pub open spec fn spec_check_ending_view(attempts: u32, v: HQMRussianView) -> HQMRussianView {
    match v.status {
        HQMRussianStatus::Game { in_zone, round, goal_scored } => {
            if spec_russian_game_over(attempts, in_zone, round, v.red_score, v.blue_score) {
                HQMRussianView {
                    status: HQMRussianStatus::GameOver,
                    game_over: true,
                    time_break: 500,
                    ..v
                }
            } else {
                v
            }
        },
        _ => v,
    }
}

/// One simulation event's effect on the rule state.  A goal counts only
/// while a round is running; a touch or a zone entry hands the attempt
/// over; leaving the zone or passing the goal line re-checks the ending.
pub open spec fn spec_event_step(
    attempts: u32,
    objects: Seq<HQMGameObject>,
    v: HQMRussianView,
    e: HQMSimulationEvent,
) -> HQMRussianView {
    match e {
        HQMSimulationEvent::PuckEnteredNet { team, .. } => {
            match v.status {
                HQMRussianStatus::Game { in_zone, round, goal_scored } => {
                    if team == HQMTeam::Spec {
                        v
                    } else {
                        let scored = HQMRussianView {
                            red_score: if team == HQMTeam::Red {
                                sat_inc(v.red_score)
                            } else {
                                v.red_score
                            },
                            blue_score: if team == HQMTeam::Blue {
                                sat_inc(v.blue_score)
                            } else {
                                v.blue_score
                            },
                            status: HQMRussianStatus::Game { in_zone, round, goal_scored: true },
                            time_break: 300,
                            is_intermission_goal: true,
                            ..v
                        };
                        spec_check_ending_view(attempts, scored)
                    }
                },
                _ => v,
            }
        },
        HQMSimulationEvent::PuckTouch { puck, player } => {
            match spec_skater_team(objects, player as int) {
                Some(pt) => {
                    let next = spec_fix_status(attempts, v.status, v.time, pt.1);
                    HQMRussianView { status: next.0, time: next.1, ..v }
                },
                None => v,
            }
        },
        HQMSimulationEvent::PuckEnteredOffensiveZone { team, .. } => {
            let next = spec_fix_status(attempts, v.status, v.time, team.spec_other());
            HQMRussianView { status: next.0, time: next.1, ..v }
        },
        HQMSimulationEvent::PuckLeftOffensiveZone { .. } => spec_check_ending_view(attempts, v),
        HQMSimulationEvent::PuckPassedGoalLine { .. } => spec_check_ending_view(attempts, v),
        HQMSimulationEvent::PuckEnteredOwnHalf { .. } => v,
        HQMSimulationEvent::PuckTouchedNet { .. } => v,
    }
}

/// The events of one tick applied in generation order.
pub open spec fn spec_events_fold(
    attempts: u32,
    objects: Seq<HQMGameObject>,
    v: HQMRussianView,
    events: Seq<HQMSimulationEvent>,
) -> HQMRussianView
    decreases events.len(),
{
    if events.len() == 0 {
        v
    } else {
        spec_events_fold(
            attempts,
            objects,
            spec_event_step(attempts, objects, v, events[0]),
            events.drop_first(),
        )
    }
}

/// A whole tick of rule work, at the view level: the pause countdown, the
/// goal break, the event fold, the game clock, and the end-of-clock
/// handover.
pub open spec fn spec_after_tick(
    attempts: u32,
    objects: Seq<HQMGameObject>,
    v: HQMRussianView,
    events: Seq<HQMSimulationEvent>,
    both_benches: bool,
) -> HQMRussianView {
    match v.status {
        HQMRussianStatus::Pause => {
            if both_benches {
                let t = sat_dec(v.time);
                if t == 0 {
                    HQMRussianView {
                        status: HQMRussianStatus::Game {
                            in_zone: HQMTeam::Red,
                            round: 0,
                            goal_scored: false,
                        },
                        time: 2000,
                        period: 1,
                        ..v
                    }
                } else {
                    HQMRussianView { time: t, ..v }
                }
            } else {
                HQMRussianView { time: 1000, ..v }
            }
        },
        HQMRussianStatus::GameOver => HQMRussianView { time_break: sat_dec(v.time_break), ..v },
        HQMRussianStatus::Game { in_zone, round, goal_scored } => {
            if goal_scored {
                let tb = sat_dec(v.time_break);
                if tb == 0 {
                    HQMRussianView {
                        status: HQMRussianStatus::Game { in_zone, round, goal_scored: false },
                        time: 2000,
                        time_break: tb,
                        is_intermission_goal: false,
                        ..v
                    }
                } else {
                    HQMRussianView { time_break: tb, ..v }
                }
            } else {
                let ve = spec_events_fold(attempts, objects, v, events);
                let v2 = HQMRussianView { time: sat_dec(ve.time), ..ve };
                if v2.time == 0 {
                    let v3 = spec_check_ending_view(attempts, v2);
                    match v3.status {
                        HQMRussianStatus::Game { in_zone: z, .. } => {
                            let next = spec_fix_status(attempts, v3.status, v3.time, z.spec_other());
                            HQMRussianView { status: next.0, time: next.1, ..v3 }
                        },
                        _ => v3,
                    }
                } else {
                    v2
                }
            }
        },
    }
}

/// The actions one simulation event emits: the goal broadcast while a
/// round is running, or the announcement of a possession handover.
pub open spec fn spec_event_actions(
    attempts: u32,
    objects: Seq<HQMGameObject>,
    v: HQMRussianView,
    e: HQMSimulationEvent,
) -> Seq<HQMRussianAction> {
    match e {
        HQMSimulationEvent::PuckEnteredNet { team, .. } => {
            match v.status {
                HQMRussianStatus::Game { .. } => if team == HQMTeam::Spec {
                    Seq::empty()
                } else {
                    seq![HQMRussianAction::GoalScored { team }]
                },
                _ => Seq::empty(),
            }
        },
        HQMSimulationEvent::PuckTouch { player, .. } => {
            match spec_skater_team(objects, player as int) {
                Some(pt) => opt_action_seq(spec_fix_status_announce(attempts, v.status, pt.1)),
                None => Seq::empty(),
            }
        },
        HQMSimulationEvent::PuckEnteredOffensiveZone { team, .. } => opt_action_seq(
            spec_fix_status_announce(attempts, v.status, team.spec_other()),
        ),
        _ => Seq::empty(),
    }
}

/// The actions of a whole tick's events, in generation order.
pub open spec fn spec_events_fold_actions(
    attempts: u32,
    objects: Seq<HQMGameObject>,
    v: HQMRussianView,
    events: Seq<HQMSimulationEvent>,
) -> Seq<HQMRussianAction>
    decreases events.len(),
{
    if events.len() == 0 {
        Seq::empty()
    } else {
        spec_event_actions(attempts, objects, v, events[0]) + spec_events_fold_actions(
            attempts,
            objects,
            spec_event_step(attempts, objects, v, events[0]),
            events.drop_first(),
        )
    }
}

/// Folding one more event steps the view once and appends its actions.
pub proof fn lemma_events_fold_snoc(
    attempts: u32,
    objects: Seq<HQMGameObject>,
    v: HQMRussianView,
    events: Seq<HQMSimulationEvent>,
    e: HQMSimulationEvent,
)
    ensures
        spec_events_fold(attempts, objects, v, events.push(e)) == spec_event_step(
            attempts,
            objects,
            spec_events_fold(attempts, objects, v, events),
            e,
        ),
        spec_events_fold_actions(attempts, objects, v, events.push(e))
            == spec_events_fold_actions(attempts, objects, v, events) + spec_event_actions(
            attempts,
            objects,
            spec_events_fold(attempts, objects, v, events),
            e,
        ),
    decreases events.len(),
{
    let pushed = events.push(e);
    if events.len() == 0 {
        assert(pushed.drop_first() =~= Seq::<HQMSimulationEvent>::empty());
        assert(pushed[0] == e);
        let step1 = spec_event_step(attempts, objects, v, e);
        assert(spec_events_fold(attempts, objects, v, pushed) == spec_events_fold(
            attempts,
            objects,
            step1,
            pushed.drop_first(),
        ));
        assert(spec_events_fold_actions(attempts, objects, v, pushed) == spec_event_actions(
            attempts,
            objects,
            v,
            e,
        ) + spec_events_fold_actions(attempts, objects, step1, pushed.drop_first()));
        assert(spec_event_actions(attempts, objects, v, e) + Seq::<HQMRussianAction>::empty()
            =~= Seq::<HQMRussianAction>::empty() + spec_event_actions(attempts, objects, v, e));
    } else {
        assert(pushed.drop_first() =~= events.drop_first().push(e));
        assert(pushed[0] == events[0]);
        let v1 = spec_event_step(attempts, objects, v, events[0]);
        assert(spec_events_fold(attempts, objects, v, pushed) == spec_events_fold(
            attempts,
            objects,
            v1,
            pushed.drop_first(),
        ));
        assert(spec_events_fold_actions(attempts, objects, v, pushed) == spec_event_actions(
            attempts,
            objects,
            v,
            events[0],
        ) + spec_events_fold_actions(attempts, objects, v1, pushed.drop_first()));
        lemma_events_fold_snoc(attempts, objects, v1, events.drop_first(), e);
        assert(spec_event_actions(attempts, objects, v, events[0]) + (spec_events_fold_actions(
            attempts,
            objects,
            v1,
            events.drop_first(),
        ) + spec_event_actions(
            attempts,
            objects,
            spec_events_fold(attempts, objects, v1, events.drop_first()),
            e,
        )) =~= (spec_event_actions(attempts, objects, v, events[0]) + spec_events_fold_actions(
            attempts,
            objects,
            v1,
            events.drop_first(),
        )) + spec_event_actions(
            attempts,
            objects,
            spec_events_fold(attempts, objects, v1, events.drop_first()),
            e,
        ));
    }
}

/// What one event does to the object table: a touch of the puck by a
/// skater inserts into that puck's ring; every other event leaves the
/// table alone.
pub open spec fn touch_world_rel(
    w0: Seq<HQMGameObject>,
    w1: Seq<HQMGameObject>,
    e: HQMSimulationEvent,
    tick: u32,
) -> bool {
    match e {
        HQMSimulationEvent::PuckTouch { puck, player } => {
            match spec_skater_team(w0, player as int) {
                Some(pt) => if puck < w0.len() {
                    match w0[puck as int] {
                        HQMGameObject::Puck(p) => {
                            &&& w1.len() == w0.len()
                            &&& (forall|j: int|
                                0 <= j < w0.len() && j != puck ==> #[trigger] w1[j] == w0[j])
                            &&& (w1[puck as int] matches HQMGameObject::Puck(q) && q.index
                                == p.index && q.touches@ == touch_ring_insert(
                                p.touches@,
                                HQMPuckTouch { player_index: pt.0, team: pt.1, tick },
                            ))
                        },
                        _ => w1 == w0,
                    }
                } else {
                    w1 == w0
                },
                None => w1 == w0,
            }
        },
        _ => w1 == w0,
    }
}

/// The object table across a whole tick's events: each event in order
/// relates its table to the previous one, touches recorded at the game
/// clock of their moment.
pub open spec fn events_world_rel(
    attempts: u32,
    v0: HQMRussianView,
    base: Seq<HQMGameObject>,
    w0: Seq<HQMGameObject>,
    w1: Seq<HQMGameObject>,
    events: Seq<HQMSimulationEvent>,
) -> bool
    decreases events.len(),
{
    if events.len() == 0 {
        w1 == w0
    } else {
        exists|mid: Seq<HQMGameObject>|
            #![trigger touch_world_rel(mid, w1, events.last(), spec_events_fold(attempts, base, v0, events.drop_last()).time)]
            {
                &&& events_world_rel(attempts, v0, base, w0, mid, events.drop_last())
                &&& touch_world_rel(
                    mid,
                    w1,
                    events.last(),
                    spec_events_fold(attempts, base, v0, events.drop_last()).time,
                )
            }
    }
}

/// Everything `after_tick` does besides the view change of
/// `spec_after_tick`: the object-table work and the actions handed back,
/// branch by branch.
pub open spec fn spec_after_tick_effects(
    attempts: u32,
    w0: Seq<HQMGameObject>,
    v0: HQMRussianView,
    events: Seq<HQMSimulationEvent>,
    both_benches: bool,
    w1: Seq<HQMGameObject>,
    acts: Seq<HQMRussianAction>,
) -> bool {
    match v0.status {
        HQMRussianStatus::Pause => {
            if both_benches && sat_dec(v0.time) == 0 {
                &&& acts == init_actions(attempts, HQMRussianStatus::Pause, w0, w1)
                &&& place_puck_effect(
                    attempts,
                    HQMRussianStatus::Pause,
                    HQMTeam::Red,
                    w0,
                    w1,
                    acts.subrange(1, acts.len() - 1),
                )
            } else {
                w1 == w0 && acts == Seq::<HQMRussianAction>::empty()
            }
        },
        HQMRussianStatus::GameOver => w1 == w0 && acts == (if sat_dec(v0.time_break) == 0 {
            seq![HQMRussianAction::NewGame]
        } else {
            Seq::<HQMRussianAction>::empty()
        }),
        HQMRussianStatus::Game { in_zone, round, goal_scored } => {
            if goal_scored {
                if sat_dec(v0.time_break) == 0 {
                    place_puck_effect(
                        attempts,
                        HQMRussianStatus::Game { in_zone, round, goal_scored: true },
                        in_zone,
                        w0,
                        w1,
                        acts,
                    )
                } else {
                    w1 == w0 && acts == Seq::<HQMRussianAction>::empty()
                }
            } else {
                exists|w_mid: Seq<HQMGameObject>|
                    #![trigger events_world_rel(attempts, v0, w0, w0, w_mid, events)]
                    {
                        &&& events_world_rel(attempts, v0, w0, w0, w_mid, events)
                        &&& ({
                            let ve = spec_events_fold(attempts, w0, v0, events);
                            let ea = spec_events_fold_actions(attempts, w0, v0, events);
                            if sat_dec(ve.time) == 0 {
                                let v3 = spec_check_ending_view(
                                    attempts,
                                    HQMRussianView { time: sat_dec(ve.time), ..ve },
                                );
                                match v3.status {
                                    HQMRussianStatus::Game { in_zone: z, .. } => {
                                        &&& acts.len() >= ea.len()
                                        &&& acts.take(ea.len() as int) == ea
                                        &&& place_puck_effect(
                                            attempts,
                                            v3.status,
                                            z.spec_other(),
                                            w_mid,
                                            w1,
                                            acts.skip(ea.len() as int),
                                        )
                                    },
                                    _ => w1 == w_mid && acts == ea,
                                }
                            } else {
                                w1 == w_mid && acts == ea
                            }
                        })
                    }
            }
        },
    }
}

/// The answer to an admin command.
#[derive(Debug, Copy, Clone, Eq, PartialEq, Structural)]
pub enum HQMCommandReply {
    ResetGame,
    AdminDenied,
    NoReply,
}

/// The rules engine: the attempt quota, the team-size cap, and the phase.
pub struct HQMRussianBehaviour {
    pub attempts: u32,
    pub team_max: usize,
    pub status: HQMRussianStatus,
}

impl HQMRussianBehaviour {
    pub fn new(attempts: u32, team_max: usize) -> (r: Self)
        ensures
            r.attempts == attempts,
            r.team_max == team_max,
            r.status == HQMRussianStatus::Pause,
    {
        HQMRussianBehaviour { attempts, team_max, status: HQMRussianStatus::Pause }
    }

    /// Hands the current attempt to `team`.  The game clock is reset on a
    /// real handover; the caller announces the returned message.
    pub fn fix_status(&mut self, game: &mut HQMGame, team: HQMTeam) -> (r: Option<
        HQMRussianAction,
    >)
        ensures
            final(self).attempts == old(self).attempts,
            final(self).team_max == old(self).team_max,
            (final(self).status, final(game).time) == spec_fix_status(
                old(self).attempts,
                old(self).status,
                old(game).time,
                team,
            ),
            r == spec_fix_status_announce(old(self).attempts, old(self).status, team),
            final(game).state == old(game).state,
            final(game).rules_state == old(game).rules_state,
            final(game).world == old(game).world,
            final(game).global_messages == old(game).global_messages,
            final(game).red_score == old(game).red_score,
            final(game).blue_score == old(game).blue_score,
            final(game).period == old(game).period,
            final(game).time_break == old(game).time_break,
            final(game).is_intermission_goal == old(game).is_intermission_goal,
            final(game).paused == old(game).paused,
            final(game).game_id == old(game).game_id,
            final(game).game_step == old(game).game_step,
            final(game).game_over == old(game).game_over,
            final(game).packet == old(game).packet,
            final(game).active == old(game).active,
    {
        match self.status {
            HQMRussianStatus::Pause => {
                self.status = HQMRussianStatus::Game {
                    in_zone: team,
                    round: 0,
                    goal_scored: false,
                };
                let remaining = self.attempts;
                if remaining >= 2 {
                    Some(HQMRussianAction::AnnounceAttemptsLeft { team, remaining })
                } else if remaining == 1 {
                    Some(HQMRussianAction::AnnounceLastAttempt { team })
                } else {
                    Some(HQMRussianAction::AnnounceTieBreaker { team })
                }
            },
            HQMRussianStatus::Game { in_zone, round, goal_scored } => {
                if in_zone != team {
                    game.time = 2000;
                    let new_round = if team == HQMTeam::Red {
                        if round < 0xffff_ffffu32 {
                            round + 1
                        } else {
                            round
                        }
                    } else {
                        round
                    };
                    self.status = HQMRussianStatus::Game {
                        in_zone: team,
                        round: new_round,
                        goal_scored,
                    };
                    let remaining = if self.attempts >= new_round {
                        self.attempts - new_round
                    } else {
                        0
                    };
                    if remaining >= 2 {
                        Some(HQMRussianAction::AnnounceAttemptsLeft { team, remaining })
                    } else if remaining == 1 {
                        Some(HQMRussianAction::AnnounceLastAttempt { team })
                    } else {
                        Some(HQMRussianAction::AnnounceTieBreaker { team })
                    }
                } else {
                    None
                }
            },
            HQMRussianStatus::GameOver => None,
        }
    }

    /// Ends the game as soon as the score difference exceeds the trailing
    /// team's remaining attempts.
    pub fn check_ending(&mut self, game: &mut HQMGame)
        ensures
            final(self).attempts == old(self).attempts,
            final(self).team_max == old(self).team_max,
            ({
                let over = match old(self).status {
                    HQMRussianStatus::Game { in_zone, round, goal_scored } => spec_russian_game_over(
                        old(self).attempts,
                        in_zone,
                        round,
                        old(game).red_score,
                        old(game).blue_score,
                    ),
                    _ => false,
                };
                if over {
                    &&& final(self).status == HQMRussianStatus::GameOver
                    &&& final(game).game_over
                    &&& final(game).time_break == 500
                    &&& final(game).time == old(game).time
                } else {
                    &&& final(self).status == old(self).status
                    &&& final(game).game_over == old(game).game_over
                    &&& final(game).time_break == old(game).time_break
                    &&& final(game).time == old(game).time
                }
            }),
            final(game).world == old(game).world,
            final(game).red_score == old(game).red_score,
            final(game).blue_score == old(game).blue_score,
            final(game).period == old(game).period,
            final(game).is_intermission_goal == old(game).is_intermission_goal,
            final(game).state == old(game).state,
            final(game).rules_state == old(game).rules_state,
            final(game).global_messages == old(game).global_messages,
            final(game).paused == old(game).paused,
            final(game).game_id == old(game).game_id,
            final(game).game_step == old(game).game_step,
            final(game).packet == old(game).packet,
            final(game).active == old(game).active,
    {
        if let HQMRussianStatus::Game { in_zone, round, goal_scored: _ } = self.status {
            let red_attempts_taken: u64 = round as u64 + (if in_zone == HQMTeam::Blue {
                1u64
            } else {
                0u64
            });
            let blue_attempts_taken: u64 = round as u64;
            let attempts: u64 = if self.attempts as u64 >= red_attempts_taken {
                self.attempts as u64
            } else {
                red_attempts_taken
            };
            let remaining_red_attempts: u64 = attempts - red_attempts_taken;
            let remaining_blue_attempts: u64 = attempts - blue_attempts_taken;

            let game_over: bool = if game.red_score > game.blue_score {
                remaining_blue_attempts < (game.red_score - game.blue_score) as u64
            } else if game.blue_score > game.red_score {
                remaining_red_attempts < (game.blue_score - game.red_score) as u64
            } else {
                false
            };
            if game_over {
                self.status = HQMRussianStatus::GameOver;
                game.game_over = true;
                game.time_break = 500;
            }
        }
    }

    /// Clears every puck and places a fresh one for `team`'s attempt.
    /// The caller gives the puck its coordinates.
    pub fn place_puck_for_team(&mut self, game: &mut HQMGame, team: HQMTeam, actions: &mut Vec<
        HQMRussianAction,
    >)
        requires
            old(game).wf(),
        ensures
            final(game).wf(),
            final(self).attempts == old(self).attempts,
            final(self).team_max == old(self).team_max,
            (final(self).status, final(game).time) == spec_fix_status(
                old(self).attempts,
                old(self).status,
                old(game).time,
                team,
            ),
            final(game).world.objects@.len() == old(game).world.objects@.len(),
            forall|i: int|
                0 <= i < old(game).world.objects@.len() ==> ((#[trigger] old(
                    game,
                ).world.objects@[i]) is Player ==> final(game).world.objects@[i] == old(
                    game,
                ).world.objects@[i]),
            place_puck_effect(
                old(self).attempts,
                old(self).status,
                team,
                old(game).world.objects@,
                final(game).world.objects@,
                final(actions)@.skip(old(actions)@.len() as int),
            ),
            final(actions)@.take(old(actions)@.len() as int) == old(actions)@,
            final(actions)@.len() >= old(actions)@.len(),
            final(game).red_score == old(game).red_score,
            final(game).blue_score == old(game).blue_score,
            final(game).period == old(game).period,
            final(game).time_break == old(game).time_break,
            final(game).is_intermission_goal == old(game).is_intermission_goal,
            final(game).game_over == old(game).game_over,
    {
        let ghost a0 = actions@;
        let ghost w0 = game.world.objects@;
        game.world.clear_pucks();
        let ghost w1 = game.world.objects@;
        let slot = game.world.create_puck_object();
        if let Some(slot) = slot {
            actions.push(HQMRussianAction::PlacePuck { team, slot });
        }
        let announce = self.fix_status(game, team);
        if let Some(a) = announce {
            actions.push(a);
        }
        proof {
            assert forall|i: int| 0 <= i < w0.len() && (w0[i] is Player) implies game.world.objects@[i]
                == w0[i] by {
                assert(w1[i] == w0[i]);
            }
            assert(w1 =~= spec_clear_pucks(w0));
            assert(place_puck_world(w0, game.world.objects@, slot));
            assert(actions@.skip(a0.len() as int) =~= placed_action_seq(team, slot)
                + opt_action_seq(spec_fix_status_announce(old(self).attempts, old(self).status, team)));
            assert(place_puck_effect(
                old(self).attempts,
                old(self).status,
                team,
                w0,
                game.world.objects@,
                actions@.skip(a0.len() as int),
            ));
            assert(actions@.take(a0.len() as int) =~= a0);
        }
    }

    /// Opens the first round: period one, a 20-second clock, a fresh puck
    /// for Red, and everyone sent to their bench.
    pub fn init(&mut self, game: &mut HQMGame) -> (actions: Vec<HQMRussianAction>)
        requires
            old(game).wf(),
        ensures
            final(game).wf(),
            final(self).attempts == old(self).attempts,
            final(self).team_max == old(self).team_max,
            final(self).status == spec_fix_status(
                old(self).attempts,
                old(self).status,
                2000,
                HQMTeam::Red,
            ).0,
            final(game).period == 1,
            final(game).time == spec_fix_status(
                old(self).attempts,
                old(self).status,
                2000,
                HQMTeam::Red,
            ).1,
            forall|i: int|
                0 <= i < old(game).world.objects@.len() ==> ((#[trigger] old(
                    game,
                ).world.objects@[i]) is Player ==> final(game).world.objects@[i] == old(
                    game,
                ).world.objects@[i]),
            final(game).world.objects@.len() == old(game).world.objects@.len(),
            actions@ == init_actions(
                old(self).attempts,
                old(self).status,
                old(game).world.objects@,
                final(game).world.objects@,
            ),
            place_puck_effect(
                old(self).attempts,
                old(self).status,
                HQMTeam::Red,
                old(game).world.objects@,
                final(game).world.objects@,
                actions@.subrange(1, actions@.len() - 1),
            ),
            final(game).red_score == old(game).red_score,
            final(game).blue_score == old(game).blue_score,
            final(game).time_break == old(game).time_break,
            final(game).is_intermission_goal == old(game).is_intermission_goal,
            final(game).game_over == old(game).game_over,
    {
        game.period = 1;
        game.time = 2000;

        let mut actions: Vec<HQMRussianAction> = Vec::new();
        actions.push(HQMRussianAction::AnnounceTotalAttempts { attempts: self.attempts });
        let ghost a1 = actions@;
        self.place_puck_for_team(game, HQMTeam::Red, &mut actions);
        let ghost a2 = actions@;
        actions.push(HQMRussianAction::PositionPlayers);
        proof {
            assert(a2.take(1) =~= a1);
            assert(actions@.subrange(1, actions@.len() - 1) =~= a2.skip(1));
            assert(actions@ =~= init_actions(
                old(self).attempts,
                old(self).status,
                old(game).world.objects@,
                game.world.objects@,
            )) by {
                broadcast use vstd::seq_lib::group_seq_properties;

                let placed = choose|placed: Option<usize>|
                    #![trigger place_puck_world(old(game).world.objects@, game.world.objects@, placed)]
                    {
                        &&& place_puck_world(
                            old(game).world.objects@,
                            game.world.objects@,
                            placed,
                        )
                        &&& a2.skip(1) == placed_action_seq(HQMTeam::Red, placed)
                            + opt_action_seq(
                            spec_fix_status_announce(
                                old(self).attempts,
                                old(self).status,
                                HQMTeam::Red,
                            ),
                        )
                    };
                assert(place_puck_world(old(game).world.objects@, game.world.objects@, placed));
            }
        }
        actions
    }

    /// The next game: a fresh warmup world back in the pause phase, with a
    /// 10-second countdown on the clock.
    pub fn create_game(&mut self, game_id: u32, limit_jump_speed: bool) -> (game: HQMGame)
        ensures
            final(self).attempts == old(self).attempts,
            final(self).team_max == old(self).team_max,
            final(self).status == HQMRussianStatus::Pause,
            game.wf(),
            game.state == HQMGameState::Warmup,
            game.rules_state == HQMRulesState::Clear,
            forall|i: int| 0 <= i < 32 ==> #[trigger] game.world.objects@[i] is Empty,
            game.world.objects@.len() == 32,
            game.world.limit_jump_speed == limit_jump_speed,
            game.global_messages@ == Seq::<crate::game::HQMMessage>::empty(),
            game.time == 1000,
            game.time_break == 0,
            !game.is_intermission_goal,
            !game.paused,
            game.game_id == game_id,
            game.game_step == 0,
            game.period == 0,
            game.red_score == 0 && game.blue_score == 0,
            !game.game_over,
            game.packet == 0,
            !game.active,
    {
        self.status = HQMRussianStatus::Pause;
        let mut game = HQMGame::new(game_id, limit_jump_speed);
        game.time = 1000;
        game
    }

    /// Runs the team-switch timers and carries out spectate and join
    /// requests: a skater who asks to spectate leaves the ice and starts a
    /// five-second cooldown; a benched player whose cooldown has run out
    /// joins the side its keys ask for whenever that side is below the
    /// team-size cap and a slot is free.
    pub fn update_players(
        &mut self,
        players: &mut Vec<Option<HQMConnectedPlayer>>,
        game: &mut HQMGame,
    ) -> (actions: Vec<HQMRussianAction>)
        requires
            old(game).wf(),
        ensures
            final(game).wf(),
            *final(self) == *old(self),
            final(players)@.len() == old(players)@.len(),
            forall|p: int|
                0 <= p < old(players)@.len() ==> ((#[trigger] final(players)@[p]) is Some <==> old(
                    players,
                )@[p] is Some),
            forall|p: int|
                0 <= p < old(players)@.len() && old(players)@[p] is Some ==> {
                    let before = (#[trigger] old(players)@[p])->0;
                    let after = final(players)@[p]->0;
                    &&& after.input == before.input
                    &&& after.is_admin == before.is_admin
                    &&& after.hand == before.hand
                    &&& after.team_switch_timer == (if before.skater is Some
                        && before.input.keys & 0x20 != 0 {
                        500u32
                    } else {
                        sat_dec(before.team_switch_timer)
                    })
                    &&& (before.skater is Some && before.input.keys & 0x20 != 0
                        ==> after.skater is None && actions@.contains(
                        HQMRussianAction::Spectate { player_index: p as usize },
                    ))
                    &&& (before.skater is Some && before.input.keys & 0x20 == 0 ==> after.skater
                        == before.skater)
                    &&& (before.skater is None && after.skater is Some ==> sat_dec(
                        before.team_switch_timer,
                    ) == 0 && (before.input.keys & 0x4 != 0 || before.input.keys & 0x8 != 0))
                    // A join that happened really put the skater on the ice.
                    &&& (before.skater is None && after.skater is Some ==> {
                        let w1 = final(game).world.objects@;
                        let s = after.skater->0;
                        let asked = if before.input.keys & 0x4 != 0 {
                            HQMTeam::Red
                        } else {
                            HQMTeam::Blue
                        };
                        &&& s < w1.len()
                        &&& (w1[s as int] matches HQMGameObject::Player(k)
                            && k.connected_player_index == p && k.index == s && k.team == asked
                            && k.hand == before.hand)
                        &&& actions@.contains(
                            HQMRussianAction::Join { player_index: p as usize, team: asked, slot: s },
                        )
                    })
                    // An eligible join is refused only by a full side or a
                    // full slot table.
                    &&& (before.skater is None && sat_dec(before.team_switch_timer) == 0
                        && before.input.keys & 0x4 != 0 ==> {
                        let w1 = final(game).world.objects@;
                        after.skater is Some || count_team(w1, HQMTeam::Red) >= old(self).team_max
                            || (forall|j: int| 0 <= j < w1.len() ==> !(#[trigger] w1[j] is Empty))
                    })
                    &&& (before.skater is None && sat_dec(before.team_switch_timer) == 0
                        && before.input.keys & 0x4 == 0 && before.input.keys & 0x8 != 0 ==> {
                        let w1 = final(game).world.objects@;
                        after.skater is Some || count_team(w1, HQMTeam::Blue) >= old(self).team_max
                            || (forall|j: int| 0 <= j < w1.len() ==> !(#[trigger] w1[j] is Empty))
                    })
                },
            final(game).world.objects@.len() == old(game).world.objects@.len(),
            // Pucks are never touched; a slot can only keep its object, lose
            // a spectating skater, or gain a joining one.
            forall|j: int|
                0 <= j < old(game).world.objects@.len() ==> {
                    let w0j = #[trigger] old(game).world.objects@[j];
                    let w1j = final(game).world.objects@[j];
                    &&& (w0j is Puck ==> w1j == w0j)
                    &&& (w1j == w0j || (w0j is Player && w1j is Empty) || (!(w0j is Puck)
                        && w1j is Player))
                },
            // This call never lifts a side above the cap.
            count_team(final(game).world.objects@, HQMTeam::Red) <= old(self).team_max
                || count_team(final(game).world.objects@, HQMTeam::Red) <= count_team(
                old(game).world.objects@,
                HQMTeam::Red,
            ),
            count_team(final(game).world.objects@, HQMTeam::Blue) <= old(self).team_max
                || count_team(final(game).world.objects@, HQMTeam::Blue) <= count_team(
                old(game).world.objects@,
                HQMTeam::Blue,
            ),
            forall|k: int|
                0 <= k < actions@.len() ==> ((#[trigger] actions@[k]) is Spectate
                    || actions@[k] is Join),
    {
        broadcast use vstd::seq_lib::group_seq_properties;

        let mut actions: Vec<HQMRussianAction> = Vec::new();
        let ghost w0 = game.world.objects@;
        let n = players.len();
        let mut i: usize = 0;
        while i < n
            invariant
                game.wf(),
                n == old(players)@.len(),
                players@.len() == n,
                i <= n,
                w0 == old(game).world.objects@,
                game.world.objects@.len() == w0.len(),
                forall|j: int|
                    0 <= j < w0.len() ==> (#[trigger] game.world.objects@[j] == w0[j] || (
                    w0[j] is Player && game.world.objects@[j] is Empty)),
                count_team(game.world.objects@, HQMTeam::Red) <= count_team(w0, HQMTeam::Red),
                count_team(game.world.objects@, HQMTeam::Blue) <= count_team(w0, HQMTeam::Blue),
                forall|k: int| 0 <= k < actions@.len() ==> (#[trigger] actions@[k]) is Spectate,
                forall|p: int|
                    0 <= p < n ==> ((#[trigger] players@[p]) is Some <==> old(
                        players,
                    )@[p] is Some),
                forall|p: int|
                    i <= p < n ==> #[trigger] players@[p] == old(players)@[p],
                forall|p: int|
                    0 <= p < i && old(players)@[p] is Some ==> {
                        let before = (#[trigger] old(players)@[p])->0;
                        let after = players@[p]->0;
                        &&& after.input == before.input
                        &&& after.is_admin == before.is_admin
                        &&& after.hand == before.hand
                        &&& after.team_switch_timer == (if before.skater is Some
                            && before.input.keys & 0x20 != 0 {
                            500u32
                        } else {
                            sat_dec(before.team_switch_timer)
                        })
                        &&& (before.skater is Some && before.input.keys & 0x20 != 0
                            ==> after.skater is None && actions@.contains(
                            HQMRussianAction::Spectate { player_index: p as usize },
                        ))
                        &&& (before.skater is Some && before.input.keys & 0x20 == 0 ==> after.skater
                            == before.skater)
                        &&& (before.skater is None ==> after.skater is None)
                    },
            decreases n - i,
        {
            broadcast use vstd::seq_lib::lemma_seq_contains_after_push;

            let entry = players[i];
            if let Some(player) = entry {
                let wants_out = player.skater.is_some() && player.input.spectate();
                if wants_out {
                    if let Some(slot) = player.skater {
                        if slot < game.world.objects.len() && matches!(
                            &game.world.objects[slot],
                            HQMGameObject::Player(_),
                        ) {
                            let ghost before_empty = game.world.objects@;
                            game.world.objects[slot] = HQMGameObject::Empty;
                            proof {
                                crate::game::lemma_count_team_update(
                                    before_empty,
                                    slot as int,
                                    HQMGameObject::Empty,
                                    HQMTeam::Red,
                                );
                                crate::game::lemma_count_team_update(
                                    before_empty,
                                    slot as int,
                                    HQMGameObject::Empty,
                                    HQMTeam::Blue,
                                );
                                assert(game.world.objects@ =~= before_empty.update(
                                    slot as int,
                                    HQMGameObject::Empty,
                                ));
                            }
                        }
                    }
                    players[i] = Some(
                        HQMConnectedPlayer {
                            team_switch_timer: 500,
                            skater: None,
                            ..player
                        },
                    );
                    actions.push(HQMRussianAction::Spectate { player_index: i });
                } else {
                    let new_timer = if player.team_switch_timer > 0 {
                        player.team_switch_timer - 1
                    } else {
                        0
                    };
                    players[i] = Some(
                        HQMConnectedPlayer { team_switch_timer: new_timer, ..player },
                    );
                }
            }
            i = i + 1;
        }
        let counts = game.world.team_player_counts();
        let mut red_count = counts.0;
        let mut blue_count = counts.1;
        let ghost start_red = red_count as int;
        let ghost start_blue = blue_count as int;
        let ghost mid = players@;
        let ghost w_mid = game.world.objects@;
        let ghost a_mid = actions@;
        let mut i: usize = 0;
        while i < n
            invariant
                game.wf(),
                n == old(players)@.len(),
                players@.len() == n,
                mid.len() == n,
                i <= n,
                w_mid.len() == game.world.objects@.len(),
                forall|j: int|
                    0 <= j < w_mid.len() ==> (#[trigger] game.world.objects@[j] == w_mid[j] || (
                    w_mid[j] is Empty && game.world.objects@[j] is Player)),
                red_count == count_team(game.world.objects@, HQMTeam::Red),
                blue_count == count_team(game.world.objects@, HQMTeam::Blue),
                red_count <= self.team_max || red_count == start_red,
                blue_count <= self.team_max || blue_count == start_blue,
                actions@.len() >= a_mid.len(),
                actions@.take(a_mid.len() as int) == a_mid,
                forall|k: int|
                    a_mid.len() <= k < actions@.len() ==> (#[trigger] actions@[k]) is Join,
                forall|p: int| 0 <= p < n ==> ((#[trigger] players@[p]) is Some <==> mid[p] is Some),
                forall|p: int| i <= p < n ==> #[trigger] players@[p] == mid[p],
                forall|p: int|
                    0 <= p < i && mid[p] is Some ==> {
                        let before = (#[trigger] mid[p])->0;
                        let after = players@[p]->0;
                        &&& after.input == before.input
                        &&& after.is_admin == before.is_admin
                        &&& after.hand == before.hand
                        &&& after.team_switch_timer == before.team_switch_timer
                        &&& (before.skater is Some ==> after.skater == before.skater)
                        &&& (before.skater is None && after.skater is Some ==> {
                            let s = after.skater->0;
                            let asked = if before.input.keys & 0x4 != 0 {
                                HQMTeam::Red
                            } else {
                                HQMTeam::Blue
                            };
                            &&& before.team_switch_timer == 0
                            &&& (before.input.keys & 0x4 != 0 || before.input.keys & 0x8 != 0)
                            &&& s < game.world.objects@.len()
                            &&& (game.world.objects@[s as int] matches HQMGameObject::Player(k)
                                && k.connected_player_index == p && k.index == s && k.team == asked
                                && k.hand == before.hand)
                            &&& actions@.contains(
                                HQMRussianAction::Join {
                                    player_index: p as usize,
                                    team: asked,
                                    slot: s,
                                },
                            )
                        })
                        &&& (before.skater is None && before.team_switch_timer == 0
                            && before.input.keys & 0x4 != 0 ==> after.skater is Some || red_count
                            >= self.team_max || (forall|j: int|
                            0 <= j < game.world.objects@.len() ==> !((#[trigger] game
                                .world
                                .objects@[j]) is Empty)))
                        &&& (before.skater is None && before.team_switch_timer == 0
                            && before.input.keys & 0x4 == 0 && before.input.keys & 0x8 != 0
                            ==> after.skater is Some || blue_count >= self.team_max || (forall|
                            j: int,
                        |
                            0 <= j < game.world.objects@.len() ==> !((#[trigger] game
                                .world
                                .objects@[j]) is Empty)))
                    },
            decreases n - i,
        {
            broadcast use vstd::seq_lib::lemma_seq_contains_after_push;

            let ghost w_before = game.world.objects@;
            let entry = players[i];
            if let Some(player) = entry {
                if player.skater.is_none() && player.team_switch_timer == 0 {
                    if player.input.join_red() {
                        if red_count < self.team_max {
                            let slot = game.world.create_player_object(
                                HQMTeam::Red,
                                player.hand,
                                i,
                            );
                            if let Some(slot) = slot {
                                players[i] = Some(
                                    HQMConnectedPlayer { skater: Some(slot), ..player },
                                );
                                red_count = red_count + 1;
                                actions.push(
                                    HQMRussianAction::Join {
                                        player_index: i,
                                        team: HQMTeam::Red,
                                        slot,
                                    },
                                );
                                proof {
                                    crate::game::lemma_count_team_update(
                                        w_before,
                                        slot as int,
                                        game.world.objects@[slot as int],
                                        HQMTeam::Red,
                                    );
                                    crate::game::lemma_count_team_update(
                                        w_before,
                                        slot as int,
                                        game.world.objects@[slot as int],
                                        HQMTeam::Blue,
                                    );
                                }
                            }
                        }
                    } else if player.input.join_blue() {
                        if blue_count < self.team_max {
                            let slot = game.world.create_player_object(
                                HQMTeam::Blue,
                                player.hand,
                                i,
                            );
                            if let Some(slot) = slot {
                                players[i] = Some(
                                    HQMConnectedPlayer { skater: Some(slot), ..player },
                                );
                                blue_count = blue_count + 1;
                                actions.push(
                                    HQMRussianAction::Join {
                                        player_index: i,
                                        team: HQMTeam::Blue,
                                        slot,
                                    },
                                );
                                proof {
                                    crate::game::lemma_count_team_update(
                                        w_before,
                                        slot as int,
                                        game.world.objects@[slot as int],
                                        HQMTeam::Red,
                                    );
                                    crate::game::lemma_count_team_update(
                                        w_before,
                                        slot as int,
                                        game.world.objects@[slot as int],
                                        HQMTeam::Blue,
                                    );
                                }
                            }
                        }
                    }
                }
            }
            i = i + 1;
        }
        proof {
            assert forall|k: int| 0 <= k < actions@.len() implies ((#[trigger] actions@[k]) is Spectate
                || actions@[k] is Join) by {
                if k < a_mid.len() {
                    assert(actions@[k] == actions@.take(a_mid.len() as int)[k]);
                }
            }
            assert forall|x: HQMRussianAction| a_mid.contains(x) implies actions@.contains(x) by {
                let idx = choose|idx: int| 0 <= idx < a_mid.len() && a_mid[idx] == x;
                assert(actions@[idx] == actions@.take(a_mid.len() as int)[idx]);
            }
        }
        actions
    }

    /// One tick's rule work: run the pause countdown or the break clock,
    /// apply this tick's simulation events to the score and the possession
    /// state, run the game clock, and hand back the effects to perform.
    pub fn after_tick(&mut self, game: &mut HQMGame, events: &Vec<HQMSimulationEvent>) -> (actions:
        Vec<HQMRussianAction>)
        requires
            old(game).wf(),
        ensures
            final(game).wf(),
            final(self).attempts == old(self).attempts,
            final(self).team_max == old(self).team_max,
            russian_view(*final(self), *final(game)) == spec_after_tick(
                old(self).attempts,
                old(game).world.objects@,
                russian_view(*old(self), *old(game)),
                events@,
                count_team(old(game).world.objects@, HQMTeam::Red) > 0 && count_team(
                    old(game).world.objects@,
                    HQMTeam::Blue,
                ) > 0,
            ),
            final(game).world.objects@.len() == old(game).world.objects@.len(),
            forall|j: int|
                0 <= j < old(game).world.objects@.len() ==> ((#[trigger] old(
                    game,
                ).world.objects@[j]) is Player ==> final(game).world.objects@[j] == old(
                    game,
                ).world.objects@[j]),
            spec_after_tick_effects(
                old(self).attempts,
                old(game).world.objects@,
                russian_view(*old(self), *old(game)),
                events@,
                count_team(old(game).world.objects@, HQMTeam::Red) > 0 && count_team(
                    old(game).world.objects@,
                    HQMTeam::Blue,
                ) > 0,
                final(game).world.objects@,
                actions@,
            ),
    {
        let ghost expected = spec_after_tick(
            old(self).attempts,
            old(game).world.objects@,
            russian_view(*old(self), *old(game)),
            events@,
            count_team(old(game).world.objects@, HQMTeam::Red) > 0 && count_team(
                old(game).world.objects@,
                HQMTeam::Blue,
            ) > 0,
        );
        let mut actions: Vec<HQMRussianAction> = Vec::new();
        let counts = game.world.team_player_counts();
        match self.status {
            HQMRussianStatus::Pause => {
                if counts.0 > 0 && counts.1 > 0 {
                    game.time = if game.time > 0 {
                        game.time - 1
                    } else {
                        0
                    };
                    if game.time == 0 {
                        let mut acts = self.init(game);
                        let ghost ia = acts@;
                        actions.append(&mut acts);
                        proof {
                            assert(actions@ =~= ia);
                        }
                    }
                } else {
                    game.time = 1000;
                }
                proof {
                    assert(russian_view(*self, *game) == expected);
                    if actions@.len() == 0 {
                        assert(actions@ =~= Seq::<HQMRussianAction>::empty());
                    }
                }
            },
            HQMRussianStatus::GameOver => {
                game.time_break = if game.time_break > 0 {
                    game.time_break - 1
                } else {
                    0
                };
                if game.time_break == 0 {
                    actions.push(HQMRussianAction::NewGame);
                    proof {
                        assert(actions@ =~= seq![HQMRussianAction::NewGame]);
                    }
                } else {
                    proof {
                        assert(actions@ =~= Seq::<HQMRussianAction>::empty());
                    }
                }
                proof {
                    assert(russian_view(*self, *game) == expected);
                }
            },
            HQMRussianStatus::Game { in_zone, round, goal_scored } => {
                if goal_scored {
                    game.time_break = if game.time_break > 0 {
                        game.time_break - 1
                    } else {
                        0
                    };
                    if game.time_break == 0 {
                        game.is_intermission_goal = false;
                        self.place_puck_for_team(game, in_zone, &mut actions);
                        game.time = 2000;
                        self.status = HQMRussianStatus::Game { in_zone, round, goal_scored: false };
                        proof {
                            assert(actions@.skip(0) =~= actions@);
                        }
                    } else {
                        proof {
                            assert(actions@ =~= Seq::<HQMRussianAction>::empty());
                        }
                    }
                    proof {
                        assert(russian_view(*self, *game) == expected);
                    }
                } else {
                    let ghost att = self.attempts;
                    let ghost objects0 = game.world.objects@;
                    let ghost v0 = russian_view(*self, *game);
                    proof {
                        assert(events@.take(0) =~= Seq::<HQMSimulationEvent>::empty());
                        assert(actions@ =~= Seq::<HQMRussianAction>::empty());
                    }
                    let mut i: usize = 0;
                    while i < events.len()
                        invariant
                            game.wf(),
                            i <= events@.len(),
                            self.attempts == att,
                            self.team_max == old(self).team_max,
                            game.world.objects@.len() == objects0.len(),
                            forall|j: int|
                                0 <= j < objects0.len() ==> match #[trigger] objects0[j] {
                                    HQMGameObject::Player(s) => game.world.objects@[j]
                                        == objects0[j],
                                    _ => !(game.world.objects@[j] is Player),
                                },
                            russian_view(*self, *game) == spec_events_fold(
                                att,
                                objects0,
                                v0,
                                events@.take(i as int),
                            ),
                            actions@ == spec_events_fold_actions(
                                att,
                                objects0,
                                v0,
                                events@.take(i as int),
                            ),
                            events_world_rel(
                                att,
                                v0,
                                objects0,
                                objects0,
                                game.world.objects@,
                                events@.take(i as int),
                            ),
                        decreases events@.len() - i,
                    {
                        let ghost vcur = russian_view(*self, *game);
                        let ghost w_step = game.world.objects@;
                        let ghost a_step = actions@;
                        let e = events[i];
                        match e {
                            HQMSimulationEvent::PuckEnteredNet { team, puck: _ } => {
                                match self.status {
                                    HQMRussianStatus::Game {
                                        in_zone: z,
                                        round: r,
                                        goal_scored: _,
                                    } => {
                                        match team {
                                            HQMTeam::Red => {
                                                game.red_score = if game.red_score
                                                    < 0xffff_ffffu32 {
                                                    game.red_score + 1
                                                } else {
                                                    game.red_score
                                                };
                                            },
                                            HQMTeam::Blue => {
                                                game.blue_score = if game.blue_score
                                                    < 0xffff_ffffu32 {
                                                    game.blue_score + 1
                                                } else {
                                                    game.blue_score
                                                };
                                            },
                                            HQMTeam::Spec => {},
                                        }
                                        if !matches!(team, HQMTeam::Spec) {
                                            self.status = HQMRussianStatus::Game {
                                                in_zone: z,
                                                round: r,
                                                goal_scored: true,
                                            };
                                            game.time_break = 300;
                                            game.is_intermission_goal = true;
                                            actions.push(HQMRussianAction::GoalScored { team });
                                            self.check_ending(game);
                                        }
                                    },
                                    _ => {},
                                }
                            },
                            HQMSimulationEvent::PuckTouch { puck, player } => {
                                let toucher = game.world.skater_team(player);
                                proof {
                                    assert(spec_skater_team(game.world.objects@, player as int)
                                        == spec_skater_team(objects0, player as int));
                                }
                                if let Some((connected, team)) = toucher {
                                    if puck < game.world.objects.len() {
                                        game.world.touch_puck(puck, connected, team, game.time);
                                        proof {
                                            if !(w_step[puck as int] is Puck) {
                                                assert(game.world.objects@ =~= w_step);
                                            }
                                        }
                                    }
                                    let announce = self.fix_status(game, team);
                                    if let Some(a) = announce {
                                        actions.push(a);
                                    }
                                }
                            },
                            HQMSimulationEvent::PuckEnteredOffensiveZone { team, puck: _ } => {
                                let other = team.get_other_team();
                                let announce = self.fix_status(game, other);
                                if let Some(a) = announce {
                                    actions.push(a);
                                }
                            },
                            HQMSimulationEvent::PuckLeftOffensiveZone { .. } => {
                                self.check_ending(game);
                            },
                            HQMSimulationEvent::PuckPassedGoalLine { .. } => {
                                self.check_ending(game);
                            },
                            HQMSimulationEvent::PuckEnteredOwnHalf { .. } => {},
                            HQMSimulationEvent::PuckTouchedNet { .. } => {},
                        }
                        proof {
                            assert(russian_view(*self, *game) == spec_event_step(
                                att,
                                objects0,
                                vcur,
                                events@[i as int],
                            ));
                            assert(actions@ =~= a_step + spec_event_actions(
                                att,
                                objects0,
                                vcur,
                                events@[i as int],
                            ));
                            assert(touch_world_rel(
                                w_step,
                                game.world.objects@,
                                events@[i as int],
                                vcur.time,
                            ));
                            lemma_events_fold_snoc(
                                att,
                                objects0,
                                v0,
                                events@.take(i as int),
                                events@[i as int],
                            );
                            assert(events@.take(i + 1) =~= events@.take(i as int).push(
                                events@[i as int],
                            ));
                            assert(events@.take(i + 1).drop_last() =~= events@.take(i as int));
                            assert(events@.take(i + 1).last() == events@[i as int]);
                            assert(events_world_rel(
                                att,
                                v0,
                                objects0,
                                objects0,
                                game.world.objects@,
                                events@.take(i + 1),
                            ));
                        }
                        i = i + 1;
                    }
                    let ghost w_mid = game.world.objects@;
                    let ghost ea = actions@;
                    proof {
                        assert(events@.take(events@.len() as int) =~= events@);
                    }
                    game.time = if game.time > 0 {
                        game.time - 1
                    } else {
                        0
                    };
                    if game.time == 0 {
                        self.check_ending(game);
                        match self.status {
                            HQMRussianStatus::Game { in_zone: z, round: _, goal_scored: _ } => {
                                let other = z.get_other_team();
                                self.place_puck_for_team(game, other, &mut actions);
                                proof {
                                    assert(actions@.take(ea.len() as int) =~= ea);
                                }
                            },
                            _ => {},
                        }
                    }
                    proof {
                        assert(russian_view(*self, *game) == expected);
                        assert(spec_after_tick_effects(
                            att,
                            objects0,
                            v0,
                            events@,
                            counts.0 > 0 && counts.1 > 0,
                            game.world.objects@,
                            actions@,
                        )) by {
                            assert(events_world_rel(att, v0, objects0, objects0, w_mid, events@));
                        }
                    }
                }
            },
        }
        actions
    }

    /// Decides the game-reset admin command: an admin replaces the game,
    /// anyone else is denied in-band, and an unknown player slot is ignored.
    pub fn reset_game_command(&self, players: &Vec<Option<HQMConnectedPlayer>>, player_index: usize) -> (r:
        HQMCommandReply)
        ensures
            r == (if player_index < players@.len() && players@[player_index as int] is Some {
                if players@[player_index as int]->0.is_admin {
                    HQMCommandReply::ResetGame
                } else {
                    HQMCommandReply::AdminDenied
                }
            } else {
                HQMCommandReply::NoReply
            }),
    {
        if player_index < players.len() {
            match &players[player_index] {
                Some(player) => {
                    if player.is_admin {
                        HQMCommandReply::ResetGame
                    } else {
                        HQMCommandReply::AdminDenied
                    }
                },
                None => HQMCommandReply::NoReply,
            }
        } else {
            HQMCommandReply::NoReply
        }
    }

    pub fn get_number_of_players(&self) -> (r: u32)
        requires
            self.team_max <= 0xffff_ffffusize,
        ensures
            r == self.team_max as u32,
    {
        self.team_max as u32
    }
}

} // verus!
