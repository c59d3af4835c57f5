//! Scored objectives.
//!
//! A battle carries a list of [`Goal`]s in an [`Objectives`] container that tallies
//! **winnings** (rewards from met goals) and **losses** (penalties from failed ones) and
//! surfaces what is still **unachieved**. An [`ObjectiveStatus`] is *satisfied* (`Pending`
//! or `Achieved`) until a goal's explicit fail condition is met — merely unachieved is not
//! a failure.
//!
//! Objectives read the battlefield through [`UnitView`]s — each unit's liveness, side and
//! hex, the only facts they depend on. Stateful objectives (capture progress, an item
//! picked up, a search) advance once a round through [`Objective::tick`] and **latch**: a
//! success condition met at any tick stays met.
use vstd::prelude::*;
use crate::combat::Team;
use crate::hex::Hex;

verus! {

/// The player's side by convention; the enemy is [`Team::B`].
pub const PLAYER: Team = Team::A;

/// The enemy side.
pub const ENEMY: Team = Team::B;

/// What an objective reads of a unit: whether it is alive, its side and its hex.
#[derive(Clone, Copy, PartialEq, Eq, Debug, Structural)]
pub struct UnitView {
    pub alive: bool,
    pub team: Team,
    pub pos: Hex,
}

/// Whether a scored objective has been met. *Satisfied* = not failed.
#[derive(Clone, Copy, PartialEq, Eq, Debug, Structural)]
pub enum ObjectiveStatus {
    /// Not yet achieved, but its fail condition hasn't fired either.
    Pending,
    Achieved,
    Failed,
}

impl ObjectiveStatus {
    /// `true` unless the goal has actually **failed**.
    pub fn is_satisfied(self) -> (b: bool)
        ensures
            b <==> self != ObjectiveStatus::Failed,
    {
        match self {
            ObjectiveStatus::Failed => false,
            _ => true,
        }
    }
}

/// Is a living unit of `team` on the field?
pub open spec fn alive_on(units: Seq<UnitView>, team: Team) -> bool {
    exists|i: int| 0 <= i < units.len() && #[trigger] units[i].alive && units[i].team == team
}

/// How many living units of `team` are on the field.
pub open spec fn alive_count(units: Seq<UnitView>, team: Team) -> nat
    decreases units.len(),
{
    if units.len() == 0 {
        0
    } else {
        alive_count(units.drop_last(), team) + if units.last().alive && units.last().team
            == team {
            1nat
        } else {
            0
        }
    }
}

/// Is a living unit of `team` standing on `hex`?
pub open spec fn stands_on(units: Seq<UnitView>, team: Team, hex: Hex) -> bool {
    exists|i: int|
        0 <= i < units.len() && #[trigger] units[i].alive && units[i].team == team
            && units[i].pos == hex
}

/// Does the player **control** `hex` — a player on it, no living enemy sharing it?
pub open spec fn holds_hex(units: Seq<UnitView>, hex: Hex) -> bool {
    stands_on(units, PLAYER, hex) && !stands_on(units, ENEMY, hex)
}

/// Status of a latching objective: Achieved once `done`; otherwise Failed when no
/// player unit is alive or the fight is over, and Pending before that.
pub open spec fn latched_status(done: bool, units: Seq<UnitView>, fight_over: bool) -> ObjectiveStatus {
    if done {
        ObjectiveStatus::Achieved
    } else if !alive_on(units, PLAYER) || fight_over {
        ObjectiveStatus::Failed
    } else {
        ObjectiveStatus::Pending
    }
}

/// Is a living unit of `team` on the field?
pub fn any_alive(units: &[UnitView], team: Team) -> (b: bool)
    ensures
        b == alive_on(units@, team),
{
    let mut i: usize = 0;
    while i < units.len()
        invariant
            0 <= i <= units@.len(),
            forall|k: int| 0 <= k < i ==> !(#[trigger] units@[k].alive && units@[k].team == team),
        decreases units@.len() - i,
    {
        if units[i].alive && units[i].team == team {
            return true;
        }
        i += 1;
    }
    false
}

/// How many living units of `team` are on the field (as a `u32`, wrapping like Rust's `as`).
pub fn count_alive(units: &[UnitView], team: Team) -> (c: u32)
    ensures
        c == alive_count(units@, team) as u32,
{
    let mut n: usize = 0;
    let mut i: usize = 0;
    while i < units.len()
        invariant
            0 <= i <= units@.len(),
            n == alive_count(units@.subrange(0, i as int), team),
            n <= i,
        decreases units@.len() - i,
    {
        assert(units@.subrange(0, i + 1).drop_last() =~= units@.subrange(0, i as int));
        if units[i].alive && units[i].team == team {
            n = n + 1;
        }
        i += 1;
    }
    assert(units@.subrange(0, units@.len() as int) =~= units@);
    n as u32
}

/// Is a living unit of `team` standing on `hex`?
pub fn on_hex(units: &[UnitView], team: Team, hex: Hex) -> (b: bool)
    ensures
        b == stands_on(units@, team, hex),
{
    let mut i: usize = 0;
    while i < units.len()
        invariant
            0 <= i <= units@.len(),
            forall|k: int|
                0 <= k < i ==> !(#[trigger] units@[k].alive && units@[k].team == team
                    && units@[k].pos == hex),
        decreases units@.len() - i,
    {
        if units[i].alive && units[i].team == team && units[i].pos == hex {
            return true;
        }
        i += 1;
    }
    false
}

/// Does the player **control** `hex` — a player on it, no living enemy sharing it?
pub fn controlled(units: &[UnitView], hex: Hex) -> (b: bool)
    ensures
        b == holds_hex(units@, hex),
{
    on_hex(units, PLAYER, hex) && !on_hex(units, ENEMY, hex)
}

/// The shared latched verdict for a stateful objective.
fn latched(done: bool, units: &[UnitView], fight_over: bool) -> (s: ObjectiveStatus)
    ensures
        s == latched_status(done, units@, fight_over),
{
    if done {
        ObjectiveStatus::Achieved
    } else if !any_alive(units, PLAYER) || fight_over {
        ObjectiveStatus::Failed
    } else {
        ObjectiveStatus::Pending
    }
}

/// A scored achievement. Its status is `Failed` only when its fail condition is met.
///
/// Each objective states its behavior through spec functions: `ticked` relates the state
/// before and after a round's [`Objective::tick`], `status_of` is its verdict, `focus_of` /
/// `foci_of` the hexes the player should flow to, and `pct` the share of the squad that
/// should pursue them.
pub trait Objective: Sized {
    /// Can the objective advance another round without its counters overflowing?
    spec fn ready(&self) -> bool;

    /// `after` is this objective advanced by one round over `units` at `tick`.
    spec fn ticked(&self, after: Self, units: Seq<UnitView>, tick: u32) -> bool;

    /// The objective's verdict on the field.
    spec fn status_of(&self, units: Seq<UnitView>, tick: u32, fight_over: bool) -> ObjectiveStatus;

    /// The hex the player should move toward right now, if any.
    spec fn focus_of(&self) -> Option<Hex>;

    /// Every hex worth pursuing right now.
    spec fn foci_of(&self) -> Seq<Hex>;

    /// The percent of the live squad that should pursue the foci.
    spec fn pct(&self) -> u32;

    /// Can the objective advance another round?
    fn can_tick(&self) -> (b: bool)
        ensures
            b == self.ready(),
    ;

    /// Advance internal state for the round (called each tick, after movement/combat).
    fn tick(&mut self, units: &[UnitView], tick: u32)
        requires
            old(self).ready(),
        ensures
            old(self).ticked(*final(self), units@, tick),
    ;

    /// The verdict at the current state.
    fn status(&self, units: &[UnitView], tick: u32, fight_over: bool) -> (s: ObjectiveStatus)
        ensures
            s == self.status_of(units@, tick, fight_over),
    ;

    /// A board hex the player should move toward to make progress, or `None` for a
    /// placeless objective.
    fn focus(&self) -> (f: Option<Hex>)
        ensures
            f == self.focus_of(),
    ;

    /// All hexes worth pursuing right now — a multi-target phase lists several so the
    /// seekers fan out.
    fn foci(&self) -> (v: Vec<Hex>)
        ensures
            v@ == self.foci_of(),
    ;

    /// What share of the active squad should pursue the focus, as a percent.
    fn seeker_pct(&self) -> (p: u32)
        ensures
            p == self.pct(),
    ;
}

/// The foci of an objective with a single optional focus.
pub open spec fn one_focus(f: Option<Hex>) -> Seq<Hex> {
    match f {
        Some(h) => seq![h],
        None => Seq::empty(),
    }
}

fn focus_vec(f: Option<Hex>) -> (v: Vec<Hex>)
    ensures
        v@ == one_focus(f),
{
    match f {
        Some(h) => vec![h],
        None => Vec::new(),
    }
}

/// The simple objective: **win the standard fight** (wipe the enemy). It fails when the
/// fight ends without victory (a loss or a draw).
#[derive(Clone, Copy, PartialEq, Eq, Debug, Structural)]
pub struct WinFight;

impl Objective for WinFight {
    open spec fn ready(&self) -> bool {
        true
    }

    open spec fn ticked(&self, after: Self, units: Seq<UnitView>, tick: u32) -> bool {
        after == *self
    }

    open spec fn status_of(&self, units: Seq<UnitView>, tick: u32, fight_over: bool) -> ObjectiveStatus {
        if alive_on(units, PLAYER) && !alive_on(units, ENEMY) {
            ObjectiveStatus::Achieved
        } else if fight_over {
            ObjectiveStatus::Failed
        } else {
            ObjectiveStatus::Pending
        }
    }

    open spec fn focus_of(&self) -> Option<Hex> {
        None
    }

    open spec fn foci_of(&self) -> Seq<Hex> {
        Seq::empty()
    }

    open spec fn pct(&self) -> u32 {
        50
    }

    fn can_tick(&self) -> (b: bool) {
        true
    }

    fn tick(&mut self, units: &[UnitView], tick: u32) {
    }

    fn status(&self, units: &[UnitView], tick: u32, fight_over: bool) -> (s: ObjectiveStatus) {
        if any_alive(units, PLAYER) && !any_alive(units, ENEMY) {
            ObjectiveStatus::Achieved
        } else if fight_over {
            ObjectiveStatus::Failed
        } else {
            ObjectiveStatus::Pending
        }
    }

    fn focus(&self) -> (f: Option<Hex>) {
        None
    }

    fn foci(&self) -> (v: Vec<Hex>) {
        Vec::new()
    }

    fn seeker_pct(&self) -> (p: u32) {
        50
    }
}

/// Survive to round `rounds`. Fails only if the player is wiped.
#[derive(Clone, Copy, PartialEq, Eq, Debug, Structural)]
pub struct Survive {
    pub rounds: u32,
}

impl Objective for Survive {
    open spec fn ready(&self) -> bool {
        true
    }

    open spec fn ticked(&self, after: Self, units: Seq<UnitView>, tick: u32) -> bool {
        after == *self
    }

    open spec fn status_of(&self, units: Seq<UnitView>, tick: u32, fight_over: bool) -> ObjectiveStatus {
        if !alive_on(units, PLAYER) {
            ObjectiveStatus::Failed
        } else if tick >= self.rounds {
            ObjectiveStatus::Achieved
        } else {
            ObjectiveStatus::Pending
        }
    }

    open spec fn focus_of(&self) -> Option<Hex> {
        None
    }

    open spec fn foci_of(&self) -> Seq<Hex> {
        Seq::empty()
    }

    open spec fn pct(&self) -> u32 {
        50
    }

    fn can_tick(&self) -> (b: bool) {
        true
    }

    fn tick(&mut self, units: &[UnitView], tick: u32) {
    }

    fn status(&self, units: &[UnitView], tick: u32, fight_over: bool) -> (s: ObjectiveStatus) {
        if !any_alive(units, PLAYER) {
            ObjectiveStatus::Failed
        } else if tick >= self.rounds {
            ObjectiveStatus::Achieved
        } else {
            ObjectiveStatus::Pending
        }
    }

    fn focus(&self) -> (f: Option<Hex>) {
        None
    }

    fn foci(&self) -> (v: Vec<Hex>) {
        Vec::new()
    }

    fn seeker_pct(&self) -> (p: u32) {
        50
    }
}

/// Get a unit onto `hex`. No fail condition — you reach it or it stays unachieved.
#[derive(Clone, Copy, PartialEq, Eq, Debug, Structural)]
pub struct Reach {
    pub hex: Hex,
}

impl Objective for Reach {
    open spec fn ready(&self) -> bool {
        true
    }

    open spec fn ticked(&self, after: Self, units: Seq<UnitView>, tick: u32) -> bool {
        after == *self
    }

    open spec fn status_of(&self, units: Seq<UnitView>, tick: u32, fight_over: bool) -> ObjectiveStatus {
        if stands_on(units, PLAYER, self.hex) {
            ObjectiveStatus::Achieved
        } else {
            ObjectiveStatus::Pending
        }
    }

    open spec fn focus_of(&self) -> Option<Hex> {
        Some(self.hex)
    }

    open spec fn foci_of(&self) -> Seq<Hex> {
        seq![self.hex]
    }

    open spec fn pct(&self) -> u32 {
        25
    }

    fn can_tick(&self) -> (b: bool) {
        true
    }

    fn tick(&mut self, units: &[UnitView], tick: u32) {
    }

    fn status(&self, units: &[UnitView], tick: u32, fight_over: bool) -> (s: ObjectiveStatus) {
        if on_hex(units, PLAYER, self.hex) {
            ObjectiveStatus::Achieved
        } else {
            ObjectiveStatus::Pending
        }
    }

    fn focus(&self) -> (f: Option<Hex>) {
        Some(self.hex)
    }

    fn foci(&self) -> (v: Vec<Hex>) {
        vec![self.hex]
    }

    fn seeker_pct(&self) -> (p: u32) {
        25
    }
}

/// Take the dive: **lose**, but leave the enemy at no more than `max_enemy_survivors`.
/// Fails on an outright win (botched dive) or too heavy a loss.
#[derive(Clone, Copy, PartialEq, Eq, Debug, Structural)]
pub struct MarginLoss {
    pub max_enemy_survivors: u32,
}

impl Objective for MarginLoss {
    open spec fn ready(&self) -> bool {
        true
    }

    open spec fn ticked(&self, after: Self, units: Seq<UnitView>, tick: u32) -> bool {
        after == *self
    }

    open spec fn status_of(&self, units: Seq<UnitView>, tick: u32, fight_over: bool) -> ObjectiveStatus {
        if alive_on(units, PLAYER) {
            if alive_on(units, ENEMY) {
                ObjectiveStatus::Pending
            } else {
                ObjectiveStatus::Failed
            }
        } else if (alive_count(units, ENEMY) as u32) <= self.max_enemy_survivors {
            ObjectiveStatus::Achieved
        } else {
            ObjectiveStatus::Failed
        }
    }

    open spec fn focus_of(&self) -> Option<Hex> {
        None
    }

    open spec fn foci_of(&self) -> Seq<Hex> {
        Seq::empty()
    }

    open spec fn pct(&self) -> u32 {
        50
    }

    fn can_tick(&self) -> (b: bool) {
        true
    }

    fn tick(&mut self, units: &[UnitView], tick: u32) {
    }

    fn status(&self, units: &[UnitView], tick: u32, fight_over: bool) -> (s: ObjectiveStatus) {
        if any_alive(units, PLAYER) {
            return if any_alive(units, ENEMY) {
                ObjectiveStatus::Pending
            } else {
                ObjectiveStatus::Failed
            };
        }
        if count_alive(units, ENEMY) <= self.max_enemy_survivors {
            ObjectiveStatus::Achieved
        } else {
            ObjectiveStatus::Failed
        }
    }

    fn focus(&self) -> (f: Option<Hex>) {
        None
    }

    fn foci(&self) -> (v: Vec<Hex>) {
        Vec::new()
    }

    fn seeker_pct(&self) -> (p: u32) {
        50
    }
}

/// Win the standard fight by round `by_round`. Fails on a loss or running late.
#[derive(Clone, Copy, PartialEq, Eq, Debug, Structural)]
pub struct TimeAttack {
    pub by_round: u32,
}

impl Objective for TimeAttack {
    open spec fn ready(&self) -> bool {
        true
    }

    open spec fn ticked(&self, after: Self, units: Seq<UnitView>, tick: u32) -> bool {
        after == *self
    }

    open spec fn status_of(&self, units: Seq<UnitView>, tick: u32, fight_over: bool) -> ObjectiveStatus {
        if alive_on(units, PLAYER) && !alive_on(units, ENEMY) && tick <= self.by_round {
            ObjectiveStatus::Achieved
        } else if !alive_on(units, PLAYER) || tick > self.by_round {
            ObjectiveStatus::Failed
        } else {
            ObjectiveStatus::Pending
        }
    }

    open spec fn focus_of(&self) -> Option<Hex> {
        None
    }

    open spec fn foci_of(&self) -> Seq<Hex> {
        Seq::empty()
    }

    open spec fn pct(&self) -> u32 {
        50
    }

    fn can_tick(&self) -> (b: bool) {
        true
    }

    fn tick(&mut self, units: &[UnitView], tick: u32) {
    }

    fn status(&self, units: &[UnitView], tick: u32, fight_over: bool) -> (s: ObjectiveStatus) {
        let won = any_alive(units, PLAYER) && !any_alive(units, ENEMY);
        if won && tick <= self.by_round {
            ObjectiveStatus::Achieved
        } else if !any_alive(units, PLAYER) || tick > self.by_round {
            ObjectiveStatus::Failed
        } else {
            ObjectiveStatus::Pending
        }
    }

    fn focus(&self) -> (f: Option<Hex>) {
        None
    }

    fn foci(&self) -> (v: Vec<Hex>) {
        Vec::new()
    }

    fn seeker_pct(&self) -> (p: u32) {
        50
    }
}

/// **Capture / Hold**: take and keep `hex`. Latches Achieved the first round it is held
/// *and* the round reaches `by_round` or the enemy is cleared. Fails on a wipe, or if the
/// fight ends without ever holding it.
#[derive(Clone, Copy, PartialEq, Eq, Debug, Structural)]
pub struct Hold {
    pub hex: Hex,
    pub by_round: u32,
    done: bool,
}

impl Hold {
    /// The hex to hold.
    pub closed spec fn target(self) -> Hex {
        self.hex
    }

    /// The round by which holding seals the objective.
    pub closed spec fn deadline(self) -> u32 {
        self.by_round
    }

    /// Has the hold latched?
    pub closed spec fn is_done(self) -> bool {
        self.done
    }

    pub fn new(hex: Hex, by_round: u32) -> (h: Hold)
        ensures
            h.target() == hex,
            h.deadline() == by_round,
            !h.is_done(),
    {
        Hold { hex, by_round, done: false }
    }
}

impl Objective for Hold {
    closed spec fn ready(&self) -> bool {
        true
    }

    closed spec fn ticked(&self, after: Self, units: Seq<UnitView>, tick: u32) -> bool {
        after == (Hold {
            done: self.done || (holds_hex(units, self.hex) && (tick >= self.by_round
                || !alive_on(units, ENEMY))),
            ..*self
        })
    }

    closed spec fn status_of(&self, units: Seq<UnitView>, tick: u32, fight_over: bool) -> ObjectiveStatus {
        latched_status(self.done, units, fight_over)
    }

    closed spec fn focus_of(&self) -> Option<Hex> {
        Some(self.hex)
    }

    closed spec fn foci_of(&self) -> Seq<Hex> {
        seq![self.hex]
    }

    closed spec fn pct(&self) -> u32 {
        50
    }

    fn can_tick(&self) -> (b: bool) {
        true
    }

    fn tick(&mut self, units: &[UnitView], tick: u32) {
        if controlled(units, self.hex) && (tick >= self.by_round || !any_alive(units, ENEMY)) {
            self.done = true;
        }
    }

    fn status(&self, units: &[UnitView], tick: u32, fight_over: bool) -> (s: ObjectiveStatus) {
        latched(self.done, units, fight_over)
    }

    fn focus(&self) -> (f: Option<Hex>) {
        Some(self.hex)
    }

    fn foci(&self) -> (v: Vec<Hex>) {
        vec![self.hex]
    }

    fn seeker_pct(&self) -> (p: u32) {
        50
    }
}

/// **Capture and hold for N turns**: control `hex` for `turns` cumulative rounds; clearing
/// the enemy while standing on it also seals it. Latches once the quota is met.
#[derive(Clone, Copy, PartialEq, Eq, Debug, Structural)]
pub struct CaptureHold {
    pub hex: Hex,
    pub turns: u32,
    held: u32,
    done: bool,
}

impl CaptureHold {
    /// The hex to capture.
    pub closed spec fn target(self) -> Hex {
        self.hex
    }

    /// Rounds of control needed.
    pub closed spec fn quota(self) -> u32 {
        self.turns
    }

    /// Rounds of control counted so far.
    pub closed spec fn rounds_held(self) -> u32 {
        self.held
    }

    /// Has the capture latched?
    pub closed spec fn is_done(self) -> bool {
        self.done
    }

    /// A fresh capture objective: nothing held yet.
    pub fn new(hex: Hex, turns: u32) -> (c: CaptureHold)
        ensures
            c.target() == hex,
            c.quota() == turns,
            c.rounds_held() == 0,
            !c.is_done(),
    {
        CaptureHold { hex, turns, held: 0, done: false }
    }
}

impl Objective for CaptureHold {
    closed spec fn ready(&self) -> bool {
        self.held < u32::MAX
    }

    closed spec fn ticked(&self, after: Self, units: Seq<UnitView>, tick: u32) -> bool {
        if holds_hex(units, self.hex) {
            after == (CaptureHold {
                held: (self.held + 1) as u32,
                done: self.done || self.held + 1 >= self.turns || !alive_on(units, ENEMY),
                ..*self
            })
        } else {
            after == *self
        }
    }

    closed spec fn status_of(&self, units: Seq<UnitView>, tick: u32, fight_over: bool) -> ObjectiveStatus {
        latched_status(self.done, units, fight_over)
    }

    closed spec fn focus_of(&self) -> Option<Hex> {
        Some(self.hex)
    }

    closed spec fn foci_of(&self) -> Seq<Hex> {
        seq![self.hex]
    }

    closed spec fn pct(&self) -> u32 {
        50
    }

    fn can_tick(&self) -> (b: bool) {
        self.held < u32::MAX
    }

    fn tick(&mut self, units: &[UnitView], tick: u32) {
        if controlled(units, self.hex) {
            self.held = self.held + 1;
            if self.held >= self.turns || !any_alive(units, ENEMY) {
                self.done = true;
            }
        }
    }

    fn status(&self, units: &[UnitView], tick: u32, fight_over: bool) -> (s: ObjectiveStatus) {
        latched(self.done, units, fight_over)
    }

    fn focus(&self) -> (f: Option<Hex>) {
        Some(self.hex)
    }

    fn foci(&self) -> (v: Vec<Hex>) {
        vec![self.hex]
    }

    fn seeker_pct(&self) -> (p: u32) {
        50
    }
}

/// **Capture the flag (sticky) and hold**: touch `hex` once and it is captured for good;
/// then hold it `turns` rounds (or clear the field) to seal the win.
#[derive(Clone, Copy, PartialEq, Eq, Debug, Structural)]
pub struct CaptureFlag {
    pub hex: Hex,
    pub turns: u32,
    captured: bool,
    held: u32,
    done: bool,
}

impl CaptureFlag {
    /// The flag's hex.
    pub closed spec fn target(self) -> Hex {
        self.hex
    }

    /// Rounds of hold needed after the grab.
    pub closed spec fn quota(self) -> u32 {
        self.turns
    }

    /// Rounds held since the grab.
    pub closed spec fn rounds_held(self) -> u32 {
        self.held
    }

    /// Has the flag been grabbed?
    pub closed spec fn is_captured(self) -> bool {
        self.captured
    }

    /// Has the objective latched?
    pub closed spec fn is_done(self) -> bool {
        self.done
    }

    /// A fresh flag objective: not yet grabbed.
    pub fn new(hex: Hex, turns: u32) -> (c: CaptureFlag)
        ensures
            c.target() == hex,
            c.quota() == turns,
            c.rounds_held() == 0,
            !c.is_captured(),
            !c.is_done(),
    {
        CaptureFlag { hex, turns, captured: false, held: 0, done: false }
    }
}

impl Objective for CaptureFlag {
    closed spec fn ready(&self) -> bool {
        self.held < u32::MAX
    }

    closed spec fn ticked(&self, after: Self, units: Seq<UnitView>, tick: u32) -> bool {
        let captured = self.captured || stands_on(units, PLAYER, self.hex);
        let held = if captured && holds_hex(units, self.hex) {
            self.held + 1
        } else {
            self.held as int
        };
        after == (CaptureFlag {
            captured,
            held: held as u32,
            done: self.done || (captured && (held >= self.turns || !alive_on(units, ENEMY))),
            ..*self
        })
    }

    closed spec fn status_of(&self, units: Seq<UnitView>, tick: u32, fight_over: bool) -> ObjectiveStatus {
        latched_status(self.done, units, fight_over)
    }

    closed spec fn focus_of(&self) -> Option<Hex> {
        Some(self.hex)
    }

    closed spec fn foci_of(&self) -> Seq<Hex> {
        seq![self.hex]
    }

    closed spec fn pct(&self) -> u32 {
        50
    }

    fn can_tick(&self) -> (b: bool) {
        self.held < u32::MAX
    }

    fn tick(&mut self, units: &[UnitView], tick: u32) {
        if on_hex(units, PLAYER, self.hex) {
            self.captured = true;
        }
        if self.captured && controlled(units, self.hex) {
            self.held = self.held + 1;
        }
        if self.captured && (self.held >= self.turns || !any_alive(units, ENEMY)) {
            self.done = true;
        }
    }

    fn status(&self, units: &[UnitView], tick: u32, fight_over: bool) -> (s: ObjectiveStatus) {
        latched(self.done, units, fight_over)
    }

    fn focus(&self) -> (f: Option<Hex>) {
        Some(self.hex)
    }

    fn foci(&self) -> (v: Vec<Hex>) {
        vec![self.hex]
    }

    fn seeker_pct(&self) -> (p: u32) {
        50
    }
}

/// **Get the item and escape**: reach the `item` hex (picked up, sticky), then carry it to
/// the `exit`. Latches on extraction. The focus moves: the item, then the exit.
#[derive(Clone, Copy, PartialEq, Eq, Debug, Structural)]
pub struct Extract {
    pub item: Hex,
    pub exit: Hex,
    has_item: bool,
    done: bool,
}

impl Extract {
    /// Where the item lies.
    pub closed spec fn item_hex(self) -> Hex {
        self.item
    }

    /// Where the courier escapes.
    pub closed spec fn exit_hex(self) -> Hex {
        self.exit
    }

    /// Has the item been picked up?
    pub closed spec fn carrying(self) -> bool {
        self.has_item
    }

    /// Has the extraction latched?
    pub closed spec fn is_done(self) -> bool {
        self.done
    }

    /// A fresh courier run: nothing picked up yet.
    pub fn new(item: Hex, exit: Hex) -> (e: Extract)
        ensures
            e.item_hex() == item,
            e.exit_hex() == exit,
            !e.carrying(),
            !e.is_done(),
    {
        Extract { item, exit, has_item: false, done: false }
    }
}

impl Objective for Extract {
    closed spec fn ready(&self) -> bool {
        true
    }

    closed spec fn ticked(&self, after: Self, units: Seq<UnitView>, tick: u32) -> bool {
        let has_item = self.has_item || stands_on(units, PLAYER, self.item);
        after == (Extract {
            has_item,
            done: self.done || (has_item && stands_on(units, PLAYER, self.exit)),
            ..*self
        })
    }

    closed spec fn status_of(&self, units: Seq<UnitView>, tick: u32, fight_over: bool) -> ObjectiveStatus {
        latched_status(self.done, units, fight_over)
    }

    closed spec fn focus_of(&self) -> Option<Hex> {
        Some(
            if self.has_item {
                self.exit
            } else {
                self.item
            },
        )
    }

    closed spec fn foci_of(&self) -> Seq<Hex> {
        seq![
            if self.has_item {
                self.exit
            } else {
                self.item
            },
        ]
    }

    closed spec fn pct(&self) -> u32 {
        25
    }

    fn can_tick(&self) -> (b: bool) {
        true
    }

    fn tick(&mut self, units: &[UnitView], tick: u32) {
        if on_hex(units, PLAYER, self.item) {
            self.has_item = true;
        }
        if self.has_item && on_hex(units, PLAYER, self.exit) {
            self.done = true;
        }
    }

    fn status(&self, units: &[UnitView], tick: u32, fight_over: bool) -> (s: ObjectiveStatus) {
        latched(self.done, units, fight_over)
    }

    fn focus(&self) -> (f: Option<Hex>) {
        Some(
            if self.has_item {
                self.exit
            } else {
                self.item
            },
        )
    }

    fn foci(&self) -> (v: Vec<Hex>) {
        vec![
            if self.has_item {
                self.exit
            } else {
                self.item
            },
        ]
    }

    fn seeker_pct(&self) -> (p: u32) {
        25
    }
}

/// What to **do at the correct location** once a [`Search`] turns it up. Each builds the
/// matching objective *at the found hex*.
#[derive(Clone, Copy, PartialEq, Eq, Debug, Structural)]
pub enum FoundAction {
    /// Capture and hold the found hex for `turns` cumulative rounds.
    Capture(u32),
    /// Sticky-capture the found hex, then hold `turns` rounds.
    Flag(u32),
    /// Grab the intel there and carry it to `exit`.
    Extract(Hex),
}

/// The follow-up objective a search spins up at the found hex.
#[derive(Clone, Copy, PartialEq, Eq, Debug)]
pub enum FollowUp {
    Capture(CaptureHold),
    Flag(CaptureFlag),
    Extract(Extract),
}

impl FoundAction {
    /// The follow-up this action builds at `hex`, fresh.
    pub closed spec fn built_at(self, hex: Hex) -> FollowUp {
        match self {
            FoundAction::Capture(turns) => FollowUp::Capture(
                CaptureHold { hex, turns, held: 0, done: false },
            ),
            FoundAction::Flag(turns) => FollowUp::Flag(
                CaptureFlag { hex, turns, captured: false, held: 0, done: false },
            ),
            FoundAction::Extract(exit) => FollowUp::Extract(
                Extract { item: hex, exit, has_item: false, done: false },
            ),
        }
    }

    /// Build the follow-up objective at `hex`.
    pub fn build_at(self, hex: Hex) -> (f: FollowUp)
        ensures
            f == self.built_at(hex),
            f.ready(),
    {
        match self {
            FoundAction::Capture(turns) => FollowUp::Capture(CaptureHold::new(hex, turns)),
            FoundAction::Flag(turns) => FollowUp::Flag(CaptureFlag::new(hex, turns)),
            FoundAction::Extract(exit) => FollowUp::Extract(Extract::new(hex, exit)),
        }
    }
}

impl Objective for FollowUp {
    open spec fn ready(&self) -> bool {
        match *self {
            FollowUp::Capture(o) => o.ready(),
            FollowUp::Flag(o) => o.ready(),
            FollowUp::Extract(o) => o.ready(),
        }
    }

    open spec fn ticked(&self, after: Self, units: Seq<UnitView>, tick: u32) -> bool {
        match (*self, after) {
            (FollowUp::Capture(a), FollowUp::Capture(b)) => a.ticked(b, units, tick),
            (FollowUp::Flag(a), FollowUp::Flag(b)) => a.ticked(b, units, tick),
            (FollowUp::Extract(a), FollowUp::Extract(b)) => a.ticked(b, units, tick),
            _ => false,
        }
    }

    open spec fn status_of(&self, units: Seq<UnitView>, tick: u32, fight_over: bool) -> ObjectiveStatus {
        match *self {
            FollowUp::Capture(o) => o.status_of(units, tick, fight_over),
            FollowUp::Flag(o) => o.status_of(units, tick, fight_over),
            FollowUp::Extract(o) => o.status_of(units, tick, fight_over),
        }
    }

    open spec fn focus_of(&self) -> Option<Hex> {
        match *self {
            FollowUp::Capture(o) => o.focus_of(),
            FollowUp::Flag(o) => o.focus_of(),
            FollowUp::Extract(o) => o.focus_of(),
        }
    }

    open spec fn foci_of(&self) -> Seq<Hex> {
        match *self {
            FollowUp::Capture(o) => o.foci_of(),
            FollowUp::Flag(o) => o.foci_of(),
            FollowUp::Extract(o) => o.foci_of(),
        }
    }

    open spec fn pct(&self) -> u32 {
        match *self {
            FollowUp::Capture(o) => o.pct(),
            FollowUp::Flag(o) => o.pct(),
            FollowUp::Extract(o) => o.pct(),
        }
    }

    fn can_tick(&self) -> (b: bool) {
        match self {
            FollowUp::Capture(o) => o.can_tick(),
            FollowUp::Flag(o) => o.can_tick(),
            FollowUp::Extract(o) => o.can_tick(),
        }
    }

    fn tick(&mut self, units: &[UnitView], tick: u32) {
        match self {
            FollowUp::Capture(o) => o.tick(units, tick),
            FollowUp::Flag(o) => o.tick(units, tick),
            FollowUp::Extract(o) => o.tick(units, tick),
        }
    }

    fn status(&self, units: &[UnitView], tick: u32, fight_over: bool) -> (s: ObjectiveStatus) {
        match self {
            FollowUp::Capture(o) => o.status(units, tick, fight_over),
            FollowUp::Flag(o) => o.status(units, tick, fight_over),
            FollowUp::Extract(o) => o.status(units, tick, fight_over),
        }
    }

    fn focus(&self) -> (f: Option<Hex>) {
        match self {
            FollowUp::Capture(o) => o.focus(),
            FollowUp::Flag(o) => o.focus(),
            FollowUp::Extract(o) => o.focus(),
        }
    }

    fn foci(&self) -> (v: Vec<Hex>) {
        match self {
            FollowUp::Capture(o) => o.foci(),
            FollowUp::Flag(o) => o.foci(),
            FollowUp::Extract(o) => o.foci(),
        }
    }

    fn seeker_pct(&self) -> (p: u32) {
        match self {
            FollowUp::Capture(o) => o.seeker_pct(),
            FollowUp::Flag(o) => o.seeker_pct(),
            FollowUp::Extract(o) => o.seeker_pct(),
        }
    }
}

/// The spots of `spots` not yet marked in `searched`, in order.
pub open spec fn unswept(spots: Seq<Hex>, searched: Seq<bool>) -> Seq<Hex>
    decreases spots.len(),
{
    if spots.len() == 0 {
        Seq::empty()
    } else {
        unswept(spots.drop_last(), searched.take(spots.len() - 1)) + if !searched[spots.len()
            - 1] {
            seq![spots.last()]
        } else {
            Seq::empty()
        }
    }
}

/// **Search `N` locations, find the right one, then do the above**: first sweep the
/// candidate spots (a player standing on one searches it); only the `correct` one reveals
/// the prize, which spins up a [`FoundAction`] follow-up *at that hex*.
#[derive(Debug)]
pub struct Search {
    spots: Vec<Hex>,
    correct: usize,
    found_action: FoundAction,
    searched: Vec<bool>,
    inner: Option<FollowUp>,
}

impl Search {
    /// The candidate spots.
    pub closed spec fn spot_list(self) -> Seq<Hex> {
        self.spots@
    }

    /// Which spots have been swept.
    pub closed spec fn swept(self) -> Seq<bool> {
        self.searched@
    }

    /// The follow-up, once the correct spot has been found.
    pub closed spec fn follow_up(self) -> Option<FollowUp> {
        self.inner
    }

    /// Is the sweep bookkeeping consistent (one mark per spot)?
    #[verifier::type_invariant]
    pub closed spec fn wf(self) -> bool {
        self.searched@.len() == self.spots@.len()
    }

    /// The index of the spot that holds the prize.
    pub closed spec fn target_index(self) -> int {
        self.correct as int
    }

    /// The follow-up to run at the found spot.
    pub closed spec fn action(self) -> FoundAction {
        self.found_action
    }

    /// A fresh search over the first `count` of `spots`.
    fn new(spots: [Hex; 4], count: u8, correct: u8, found_action: FoundAction) -> (s: Search)
        requires
            count <= 4,
        ensures
            s.spot_list() == spots@.take(count as int),
            s.swept() == Seq::new(count as nat, |i: int| false),
            s.follow_up() is None,
            s.target_index() == correct as int,
            s.action() == found_action,
    {
        let mut list: Vec<Hex> = Vec::new();
        let mut marks: Vec<bool> = Vec::new();
        let n = count as usize;
        let mut i: usize = 0;
        while i < n
            invariant
                0 <= i <= n,
                n <= 4,
                list@ == spots@.take(i as int),
                marks@ == Seq::new(i as nat, |k: int| false),
            decreases n - i,
        {
            list.push(spots[i]);
            marks.push(false);
            i += 1;
            proof {
                assert(list@ =~= spots@.take(i as int));
                assert(marks@ =~= Seq::new(i as nat, |k: int| false));
            }
        }
        Search { spots: list, correct: correct as usize, found_action, searched: marks, inner: None }
    }

    /// The spots still to sweep, in order.
    fn unswept_spots(&self) -> (v: Vec<Hex>)
        requires
            self.wf(),
        ensures
            v@ == unswept(self.spots@, self.searched@),
    {
        let mut v: Vec<Hex> = Vec::new();
        let mut i: usize = 0;
        while i < self.spots.len()
            invariant
                0 <= i <= self.spots@.len(),
                self.wf(),
                v@ == unswept(self.spots@.take(i as int), self.searched@.take(i as int)),
            decreases self.spots@.len() - i,
        {
            proof {
                assert(self.spots@.take(i + 1).drop_last() =~= self.spots@.take(i as int));
                assert(self.searched@.take(i + 1).take(i as int) =~= self.searched@.take(
                    i as int,
                ));
            }
            if !self.searched[i] {
                v.push(self.spots[i]);
            }
            i += 1;
        }
        proof {
            assert(self.spots@.take(self.spots@.len() as int) =~= self.spots@);
            assert(self.searched@.take(self.spots@.len() as int) =~= self.searched@);
        }
        v
    }
}

impl Objective for Search {
    closed spec fn ready(&self) -> bool {
        self.wf() && match self.inner {
            Some(o) => o.ready(),
            None => true,
        }
    }

    closed spec fn ticked(&self, after: Self, units: Seq<UnitView>, tick: u32) -> bool {
        &&& after.spots@ == self.spots@
        &&& after.correct == self.correct
        &&& after.found_action == self.found_action
        &&& match self.inner {
            Some(o) => {
                &&& after.searched@ == self.searched@
                &&& after.inner matches Some(p) && o.ticked(p, units, tick)
            },
            None => {
                let found = self.correct < self.spots@.len() && stands_on(
                    units,
                    PLAYER,
                    self.spots@[self.correct as int],
                );
                &&& after.searched@ == Seq::new(
                    self.spots@.len(),
                    |k: int| self.searched@[k] || stands_on(units, PLAYER, self.spots@[k]),
                )
                &&& if found {
                    after.inner matches Some(p) && self.found_action.built_at(
                        self.spots@[self.correct as int],
                    ).ticked(p, units, tick)
                } else {
                    after.inner is None
                }
            },
        }
    }

    closed spec fn status_of(&self, units: Seq<UnitView>, tick: u32, fight_over: bool) -> ObjectiveStatus {
        match self.inner {
            Some(o) => o.status_of(units, tick, fight_over),
            None => latched_status(false, units, fight_over),
        }
    }

    closed spec fn focus_of(&self) -> Option<Hex> {
        match self.inner {
            Some(o) => o.focus_of(),
            None => if unswept(self.spots@, self.searched@).len() > 0 {
                Some(unswept(self.spots@, self.searched@)[0])
            } else {
                None
            },
        }
    }

    closed spec fn foci_of(&self) -> Seq<Hex> {
        match self.inner {
            Some(o) => o.foci_of(),
            None => unswept(self.spots@, self.searched@),
        }
    }

    open spec fn pct(&self) -> u32 {
        50
    }

    fn can_tick(&self) -> (b: bool) {
        self.searched.len() == self.spots.len() && match &self.inner {
            Some(o) => o.can_tick(),
            None => true,
        }
    }

    fn tick(&mut self, units: &[UnitView], tick: u32) {
        proof {
            use_type_invariant(&*self);
        }
        if self.inner.is_none() {
            let mut marks: Vec<bool> = Vec::new();
            let mut found: Option<FollowUp> = None;
            let mut k: usize = 0;
            while k < self.spots.len()
                invariant
                    0 <= k <= self.spots@.len(),
                    *self == *old(self),
                    self.searched@.len() == self.spots@.len(),
                    marks@.len() == k,
                    forall|j: int|
                        0 <= j < k ==> #[trigger] marks@[j] == (self.searched@[j] || stands_on(
                            units@,
                            PLAYER,
                            self.spots@[j],
                        )),
                    if self.correct < k && stands_on(units@, PLAYER, self.spots@[self.correct as int]) {
                        found == Some(self.found_action.built_at(self.spots@[self.correct as int]))
                    } else {
                        found is None
                    },
                decreases self.spots@.len() - k,
            {
                let spot = self.spots[k];
                if on_hex(units, PLAYER, spot) {
                    marks.push(true);
                    if k == self.correct {
                        found = Some(self.found_action.build_at(spot));
                    }
                } else {
                    marks.push(self.searched[k]);
                }
                k += 1;
            }
            proof {
                assert(marks@ =~= Seq::new(
                    old(self).spots@.len(),
                    |j: int| old(self).searched@[j] || stands_on(units@, PLAYER, old(self).spots@[j]),
                ));
            }
            self.searched = marks;
            self.inner = found;
        }
        match self.inner {
            Some(o) => {
                let mut next = o;
                next.tick(units, tick);
                self.inner = Some(next);
            },
            None => {},
        }
    }

    fn status(&self, units: &[UnitView], tick: u32, fight_over: bool) -> (s: ObjectiveStatus) {
        match &self.inner {
            Some(inner) => inner.status(units, tick, fight_over),
            None => latched(false, units, fight_over),
        }
    }

    fn focus(&self) -> (f: Option<Hex>) {
        match &self.inner {
            Some(inner) => inner.focus(),
            None => {
                proof {
                    use_type_invariant(self);
                }
                let v = self.unswept_spots();
                if v.len() > 0 {
                    Some(v[0])
                } else {
                    None
                }
            },
        }
    }

    fn foci(&self) -> (v: Vec<Hex>) {
        match &self.inner {
            Some(inner) => inner.foci(),
            None => {
                proof {
                    use_type_invariant(self);
                }
                self.unswept_spots()
            },
        }
    }

    fn seeker_pct(&self) -> (p: u32) {
        50
    }
}

/// A built objective, ready to score a battle — one of the objective kinds with its own
/// fresh state.
#[derive(Debug)]
pub enum ActiveObjective {
    WinFight(WinFight),
    Survive(Survive),
    Reach(Reach),
    MarginLoss(MarginLoss),
    TimeAttack(TimeAttack),
    Hold(Hold),
    CaptureHold(CaptureHold),
    CaptureFlag(CaptureFlag),
    Extract(Extract),
    Search(Search),
}

impl Objective for ActiveObjective {
    open spec fn ready(&self) -> bool {
        match self {
            ActiveObjective::WinFight(o) => o.ready(),
            ActiveObjective::Survive(o) => o.ready(),
            ActiveObjective::Reach(o) => o.ready(),
            ActiveObjective::MarginLoss(o) => o.ready(),
            ActiveObjective::TimeAttack(o) => o.ready(),
            ActiveObjective::Hold(o) => o.ready(),
            ActiveObjective::CaptureHold(o) => o.ready(),
            ActiveObjective::CaptureFlag(o) => o.ready(),
            ActiveObjective::Extract(o) => o.ready(),
            ActiveObjective::Search(o) => o.ready(),
        }
    }

    open spec fn ticked(&self, after: Self, units: Seq<UnitView>, tick: u32) -> bool {
        match (self, after) {
            (ActiveObjective::WinFight(a), ActiveObjective::WinFight(b)) => a.ticked(b, units, tick),
            (ActiveObjective::Survive(a), ActiveObjective::Survive(b)) => a.ticked(b, units, tick),
            (ActiveObjective::Reach(a), ActiveObjective::Reach(b)) => a.ticked(b, units, tick),
            (ActiveObjective::MarginLoss(a), ActiveObjective::MarginLoss(b)) => a.ticked(b, units, tick),
            (ActiveObjective::TimeAttack(a), ActiveObjective::TimeAttack(b)) => a.ticked(b, units, tick),
            (ActiveObjective::Hold(a), ActiveObjective::Hold(b)) => a.ticked(b, units, tick),
            (ActiveObjective::CaptureHold(a), ActiveObjective::CaptureHold(b)) => a.ticked(b, units, tick),
            (ActiveObjective::CaptureFlag(a), ActiveObjective::CaptureFlag(b)) => a.ticked(b, units, tick),
            (ActiveObjective::Extract(a), ActiveObjective::Extract(b)) => a.ticked(b, units, tick),
            (ActiveObjective::Search(a), ActiveObjective::Search(b)) => a.ticked(b, units, tick),
            _ => false,
        }
    }

    open spec fn status_of(&self, units: Seq<UnitView>, tick: u32, fight_over: bool) -> ObjectiveStatus {
        match self {
            ActiveObjective::WinFight(o) => o.status_of(units, tick, fight_over),
            ActiveObjective::Survive(o) => o.status_of(units, tick, fight_over),
            ActiveObjective::Reach(o) => o.status_of(units, tick, fight_over),
            ActiveObjective::MarginLoss(o) => o.status_of(units, tick, fight_over),
            ActiveObjective::TimeAttack(o) => o.status_of(units, tick, fight_over),
            ActiveObjective::Hold(o) => o.status_of(units, tick, fight_over),
            ActiveObjective::CaptureHold(o) => o.status_of(units, tick, fight_over),
            ActiveObjective::CaptureFlag(o) => o.status_of(units, tick, fight_over),
            ActiveObjective::Extract(o) => o.status_of(units, tick, fight_over),
            ActiveObjective::Search(o) => o.status_of(units, tick, fight_over),
        }
    }

    open spec fn focus_of(&self) -> Option<Hex> {
        match self {
            ActiveObjective::WinFight(o) => o.focus_of(),
            ActiveObjective::Survive(o) => o.focus_of(),
            ActiveObjective::Reach(o) => o.focus_of(),
            ActiveObjective::MarginLoss(o) => o.focus_of(),
            ActiveObjective::TimeAttack(o) => o.focus_of(),
            ActiveObjective::Hold(o) => o.focus_of(),
            ActiveObjective::CaptureHold(o) => o.focus_of(),
            ActiveObjective::CaptureFlag(o) => o.focus_of(),
            ActiveObjective::Extract(o) => o.focus_of(),
            ActiveObjective::Search(o) => o.focus_of(),
        }
    }

    open spec fn foci_of(&self) -> Seq<Hex> {
        match self {
            ActiveObjective::WinFight(o) => o.foci_of(),
            ActiveObjective::Survive(o) => o.foci_of(),
            ActiveObjective::Reach(o) => o.foci_of(),
            ActiveObjective::MarginLoss(o) => o.foci_of(),
            ActiveObjective::TimeAttack(o) => o.foci_of(),
            ActiveObjective::Hold(o) => o.foci_of(),
            ActiveObjective::CaptureHold(o) => o.foci_of(),
            ActiveObjective::CaptureFlag(o) => o.foci_of(),
            ActiveObjective::Extract(o) => o.foci_of(),
            ActiveObjective::Search(o) => o.foci_of(),
        }
    }

    open spec fn pct(&self) -> u32 {
        match self {
            ActiveObjective::WinFight(o) => o.pct(),
            ActiveObjective::Survive(o) => o.pct(),
            ActiveObjective::Reach(o) => o.pct(),
            ActiveObjective::MarginLoss(o) => o.pct(),
            ActiveObjective::TimeAttack(o) => o.pct(),
            ActiveObjective::Hold(o) => o.pct(),
            ActiveObjective::CaptureHold(o) => o.pct(),
            ActiveObjective::CaptureFlag(o) => o.pct(),
            ActiveObjective::Extract(o) => o.pct(),
            ActiveObjective::Search(o) => o.pct(),
        }
    }

    fn can_tick(&self) -> (b: bool) {
        match self {
            ActiveObjective::WinFight(o) => o.can_tick(),
            ActiveObjective::Survive(o) => o.can_tick(),
            ActiveObjective::Reach(o) => o.can_tick(),
            ActiveObjective::MarginLoss(o) => o.can_tick(),
            ActiveObjective::TimeAttack(o) => o.can_tick(),
            ActiveObjective::Hold(o) => o.can_tick(),
            ActiveObjective::CaptureHold(o) => o.can_tick(),
            ActiveObjective::CaptureFlag(o) => o.can_tick(),
            ActiveObjective::Extract(o) => o.can_tick(),
            ActiveObjective::Search(o) => o.can_tick(),
        }
    }

    fn tick(&mut self, units: &[UnitView], tick: u32) {
        match self {
            ActiveObjective::WinFight(o) => o.tick(units, tick),
            ActiveObjective::Survive(o) => o.tick(units, tick),
            ActiveObjective::Reach(o) => o.tick(units, tick),
            ActiveObjective::MarginLoss(o) => o.tick(units, tick),
            ActiveObjective::TimeAttack(o) => o.tick(units, tick),
            ActiveObjective::Hold(o) => o.tick(units, tick),
            ActiveObjective::CaptureHold(o) => o.tick(units, tick),
            ActiveObjective::CaptureFlag(o) => o.tick(units, tick),
            ActiveObjective::Extract(o) => o.tick(units, tick),
            ActiveObjective::Search(o) => o.tick(units, tick),
        }
    }

    fn status(&self, units: &[UnitView], tick: u32, fight_over: bool) -> (s: ObjectiveStatus) {
        match self {
            ActiveObjective::WinFight(o) => o.status(units, tick, fight_over),
            ActiveObjective::Survive(o) => o.status(units, tick, fight_over),
            ActiveObjective::Reach(o) => o.status(units, tick, fight_over),
            ActiveObjective::MarginLoss(o) => o.status(units, tick, fight_over),
            ActiveObjective::TimeAttack(o) => o.status(units, tick, fight_over),
            ActiveObjective::Hold(o) => o.status(units, tick, fight_over),
            ActiveObjective::CaptureHold(o) => o.status(units, tick, fight_over),
            ActiveObjective::CaptureFlag(o) => o.status(units, tick, fight_over),
            ActiveObjective::Extract(o) => o.status(units, tick, fight_over),
            ActiveObjective::Search(o) => o.status(units, tick, fight_over),
        }
    }

    fn focus(&self) -> (f: Option<Hex>) {
        match self {
            ActiveObjective::WinFight(o) => o.focus(),
            ActiveObjective::Survive(o) => o.focus(),
            ActiveObjective::Reach(o) => o.focus(),
            ActiveObjective::MarginLoss(o) => o.focus(),
            ActiveObjective::TimeAttack(o) => o.focus(),
            ActiveObjective::Hold(o) => o.focus(),
            ActiveObjective::CaptureHold(o) => o.focus(),
            ActiveObjective::CaptureFlag(o) => o.focus(),
            ActiveObjective::Extract(o) => o.focus(),
            ActiveObjective::Search(o) => o.focus(),
        }
    }

    fn foci(&self) -> (v: Vec<Hex>) {
        match self {
            ActiveObjective::WinFight(o) => o.foci(),
            ActiveObjective::Survive(o) => o.foci(),
            ActiveObjective::Reach(o) => o.foci(),
            ActiveObjective::MarginLoss(o) => o.foci(),
            ActiveObjective::TimeAttack(o) => o.foci(),
            ActiveObjective::Hold(o) => o.foci(),
            ActiveObjective::CaptureHold(o) => o.foci(),
            ActiveObjective::CaptureFlag(o) => o.foci(),
            ActiveObjective::Extract(o) => o.foci(),
            ActiveObjective::Search(o) => o.foci(),
        }
    }

    fn seeker_pct(&self) -> (p: u32) {
        match self {
            ActiveObjective::WinFight(o) => o.seeker_pct(),
            ActiveObjective::Survive(o) => o.seeker_pct(),
            ActiveObjective::Reach(o) => o.seeker_pct(),
            ActiveObjective::MarginLoss(o) => o.seeker_pct(),
            ActiveObjective::TimeAttack(o) => o.seeker_pct(),
            ActiveObjective::Hold(o) => o.seeker_pct(),
            ActiveObjective::CaptureHold(o) => o.seeker_pct(),
            ActiveObjective::CaptureFlag(o) => o.seeker_pct(),
            ActiveObjective::Extract(o) => o.seeker_pct(),
            ActiveObjective::Search(o) => o.seeker_pct(),
        }
    }
}

/// A portable **objective descriptor** — built into an [`ActiveObjective`] when a battle
/// starts. The run layer carries one of these on each encounter.
#[derive(Clone, Copy, PartialEq, Eq, Debug)]
pub enum ObjectiveKind {
    /// Wipe the enemy — the standard fight ([`WinFight`]).
    Eliminate,
    /// Last until round `rounds` ([`Survive`]).
    Survive(u32),
    /// Get a unit onto `hex` ([`Reach`]).
    Reach(Hex),
    /// Take and hold `hex`, sealed at round `by_round` or on a clear ([`Hold`]).
    Hold(Hex, u32),
    /// Control `hex` for `turns` cumulative rounds ([`CaptureHold`]).
    CaptureHold(Hex, u32),
    /// Touch `hex` (sticky capture) then hold `turns` rounds ([`CaptureFlag`]).
    Flag(Hex, u32),
    /// Grab the item at `item`, then carry it to `exit` ([`Extract`]).
    Extract { item: Hex, exit: Hex },
    /// Search up to four `spots` (the first `count` are live); the `correct` one reveals a
    /// [`FoundAction`] follow-up done at that hex ([`Search`]).
    Search { spots: [Hex; 4], count: u8, correct: u8, then_do: FoundAction },
}

impl ObjectiveKind {
    /// A **search** objective from a slice of candidate `spots` (1–4): sweep them, and the
    /// `correct` index reveals `then_do` at that hex. Extra slots are padded and ignored.
    pub fn search(spots: &[Hex], correct: usize, then_do: FoundAction) -> (k: ObjectiveKind)
        ensures
            k matches ObjectiveKind::Search { spots: arr, count, correct: c, then_do: t } && {
                &&& count == if spots@.len() < 4 {
                    spots@.len()
                } else {
                    4
                }
                &&& forall|i: int| 0 <= i < count ==> arr@[i] == spots@[i]
                &&& forall|i: int| count <= i < 4 ==> arr@[i] == (Hex { q: 0, r: 0 })
                &&& c == correct as u8
                &&& t == then_do
            },
    {
        let mut arr = [Hex::new(0, 0);4];
        let count = if spots.len() < 4 {
            spots.len()
        } else {
            4
        };
        let mut i: usize = 0;
        while i < count
            invariant
                0 <= i <= count,
                count <= 4,
                count <= spots@.len(),
                forall|k: int| 0 <= k < i ==> arr@[k] == spots@[k],
                forall|k: int| i <= k < 4 ==> arr@[k] == (Hex { q: 0, r: 0 }),
            decreases count - i,
        {
            arr[i] = spots[i];
            i += 1;
        }
        ObjectiveKind::Search { spots: arr, count: count as u8, correct: correct as u8, then_do }
    }

    /// Construct the objective for a fresh battle (fresh state per battle).
    pub fn build(self) -> (o: ActiveObjective)
        requires
            self matches ObjectiveKind::Search { count, .. } ==> count <= 4,
        ensures
            o.ready(),
            match self {
                ObjectiveKind::Eliminate => o == ActiveObjective::WinFight(WinFight),
                ObjectiveKind::Survive(rounds) => o == ActiveObjective::Survive(Survive { rounds }),
                ObjectiveKind::Reach(hex) => o == ActiveObjective::Reach(Reach { hex }),
                ObjectiveKind::Hold(hex, by_round) => o matches ActiveObjective::Hold(h)
                    && h.target() == hex && h.deadline() == by_round && !h.is_done(),
                ObjectiveKind::CaptureHold(hex, turns) => o matches ActiveObjective::CaptureHold(c)
                    && c.target() == hex && c.quota() == turns && c.rounds_held() == 0 && !c.is_done(),
                ObjectiveKind::Flag(hex, turns) => o matches ActiveObjective::CaptureFlag(c)
                    && c.target() == hex && c.quota() == turns && c.rounds_held() == 0
                    && !c.is_captured() && !c.is_done(),
                ObjectiveKind::Extract { item, exit } => o matches ActiveObjective::Extract(e)
                    && e.item_hex() == item && e.exit_hex() == exit && !e.carrying() && !e.is_done(),
                ObjectiveKind::Search { spots, count, correct, then_do } => o matches ActiveObjective::Search(s)
                    && s.spot_list() == spots@.take(count as int)
                    && s.swept() == Seq::new(count as nat, |i: int| false)
                    && s.follow_up() is None
                    && s.target_index() == correct as int
                    && s.action() == then_do,
            },
    {
        match self {
            ObjectiveKind::Eliminate => ActiveObjective::WinFight(WinFight),
            ObjectiveKind::Survive(rounds) => ActiveObjective::Survive(Survive { rounds }),
            ObjectiveKind::Reach(hex) => ActiveObjective::Reach(Reach { hex }),
            ObjectiveKind::Hold(hex, by_round) => ActiveObjective::Hold(Hold::new(hex, by_round)),
            ObjectiveKind::CaptureHold(hex, turns) => ActiveObjective::CaptureHold(
                CaptureHold::new(hex, turns),
            ),
            ObjectiveKind::Flag(hex, turns) => ActiveObjective::CaptureFlag(
                CaptureFlag::new(hex, turns),
            ),
            ObjectiveKind::Extract { item, exit } => ActiveObjective::Extract(
                Extract::new(item, exit),
            ),
            ObjectiveKind::Search { spots, count, correct, then_do } => {
                ActiveObjective::Search(Search::new(spots, count, correct, then_do))
            },
        }
    }
}

/// An [`Objective`] paired with its stake: `reward` on `Achieved`, `penalty` on `Failed`.
#[derive(Debug)]
pub struct Goal {
    pub objective: ActiveObjective,
    pub reward: i32,
    pub penalty: i32,
}

impl Goal {
    pub fn new(objective: ActiveObjective, reward: i32, penalty: i32) -> (g: Goal)
        ensures
            g.objective == objective,
            g.reward == reward,
            g.penalty == penalty,
    {
        Goal { objective, reward, penalty }
    }
}

/// The sum over `goals` of `reward` (or `penalty`) for those whose status is `want`.
pub open spec fn tally(goals: Seq<Goal>, units: Seq<UnitView>, tick: u32, fight_over: bool, want: ObjectiveStatus, rewards: bool) -> int
    decreases goals.len(),
{
    if goals.len() == 0 {
        0
    } else {
        tally(goals.drop_last(), units, tick, fight_over, want, rewards) + if goals.last().objective.status_of(
            units,
            tick,
            fight_over,
        ) == want {
            if rewards {
                goals.last().reward as int
            } else {
                goals.last().penalty as int
            }
        } else {
            0
        }
    }
}

/// Every running total of a tally stays inside `i32`.
pub open spec fn tally_fits(goals: Seq<Goal>, units: Seq<UnitView>, tick: u32, fight_over: bool, want: ObjectiveStatus, rewards: bool) -> bool {
    forall|k: int|
        0 <= k <= goals.len() ==> i32::MIN <= #[trigger] tally(
            goals.take(k),
            units,
            tick,
            fight_over,
            want,
            rewards,
        ) <= i32::MAX
}

/// The index of the first goal that is not yet achieved and has somewhere to send units.
pub open spec fn first_open_focus(goals: Seq<Goal>, units: Seq<UnitView>, tick: u32, fight_over: bool, i: int) -> bool {
    &&& 0 <= i < goals.len()
    &&& goals[i].objective.status_of(units, tick, fight_over) != ObjectiveStatus::Achieved
    &&& goals[i].objective.foci_of().len() > 0
    &&& forall|j: int|
        0 <= j < i ==> (#[trigger] goals[j].objective.status_of(units, tick, fight_over)
            == ObjectiveStatus::Achieved || goals[j].objective.foci_of().len() == 0)
}

/// A battle's scored objectives: tally winnings / losses and surface the unmet.
#[derive(Debug, Default)]
pub struct Objectives {
    goals: Vec<Goal>,
}

impl Objectives {
    /// The goals, in order.
    pub closed spec fn goal_list(self) -> Seq<Goal> {
        self.goals@
    }

    pub fn new(goals: Vec<Goal>) -> (o: Objectives)
        ensures
            o.goal_list() == goals@,
    {
        Objectives { goals }
    }

    /// Can every goal advance another round?
    pub open spec fn ready(self) -> bool {
        forall|i: int| 0 <= i < self.goal_list().len() ==> (#[trigger] self.goal_list()[i]).objective.ready()
    }

    /// Can every goal advance another round?
    pub fn can_tick(&self) -> (b: bool)
        ensures
            b == self.ready(),
    {
        let mut i: usize = 0;
        while i < self.goals.len()
            invariant
                0 <= i <= self.goals@.len(),
                forall|k: int| 0 <= k < i ==> (#[trigger] self.goals@[k]).objective.ready(),
            decreases self.goals@.len() - i,
        {
            if !self.goals[i].objective.can_tick() {
                return false;
            }
            i += 1;
        }
        true
    }

    /// Advance every goal's internal state for the round.
    pub fn tick(&mut self, units: &[UnitView], tick: u32)
        requires
            old(self).ready(),
        ensures
            final(self).goal_list().len() == old(self).goal_list().len(),
            forall|i: int|
                0 <= i < old(self).goal_list().len() ==> {
                    &&& old(self).goal_list()[i].objective.ticked(
                        (#[trigger] final(self).goal_list()[i]).objective,
                        units@,
                        tick,
                    )
                    &&& final(self).goal_list()[i].reward == old(self).goal_list()[i].reward
                    &&& final(self).goal_list()[i].penalty == old(self).goal_list()[i].penalty
                },
    {
        let mut goals: Vec<Goal> = Vec::new();
        std::mem::swap(&mut goals, &mut self.goals);
        let ghost before = goals@;
        let mut out: Vec<Goal> = Vec::new();
        let mut i: usize = 0;
        while goals.len() > 0
            invariant
                out@.len() + goals@.len() == before.len(),
                goals@ == before.subrange(out@.len() as int, before.len() as int),
                forall|k: int| 0 <= k < before.len() ==> (#[trigger] before[k]).objective.ready(),
                forall|k: int|
                    0 <= k < out@.len() ==> {
                        &&& before[k].objective.ticked((#[trigger] out@[k]).objective, units@, tick)
                        &&& out@[k].reward == before[k].reward
                        &&& out@[k].penalty == before[k].penalty
                    },
            decreases goals@.len(),
        {
            let mut g = goals.remove(0);
            assert(g == before[out@.len() as int]);
            g.objective.tick(units, tick);
            out.push(g);
        }
        self.goals = out;
    }

    /// The status of every goal at the current state.
    pub fn report(&self, units: &[UnitView], tick: u32, fight_over: bool) -> (r: Vec<ObjectiveStatus>)
        ensures
            r@.len() == self.goal_list().len(),
            forall|i: int|
                0 <= i < r@.len() ==> #[trigger] r@[i] == self.goal_list()[i].objective.status_of(
                    units@,
                    tick,
                    fight_over,
                ),
    {
        let mut r: Vec<ObjectiveStatus> = Vec::new();
        let mut i: usize = 0;
        while i < self.goals.len()
            invariant
                0 <= i <= self.goals@.len(),
                r@.len() == i,
                forall|k: int|
                    0 <= k < i ==> #[trigger] r@[k] == self.goals@[k].objective.status_of(
                        units@,
                        tick,
                        fight_over,
                    ),
            decreases self.goals@.len() - i,
        {
            r.push(self.goals[i].objective.status(units, tick, fight_over));
            i += 1;
        }
        r
    }

    /// The hexes the player should flow toward and what share of the squad should — the
    /// first **unmet** positional goal's foci with its seeker percent, or `None`.
    pub fn foci(&self, units: &[UnitView], tick: u32, fight_over: bool) -> (f: Option<(Vec<Hex>, u32)>)
        ensures
            match f {
                Some((hexes, pct)) => exists|i: int|
                    first_open_focus(self.goal_list(), units@, tick, fight_over, i)
                        && hexes@ == (#[trigger] self.goal_list()[i]).objective.foci_of()
                        && pct == self.goal_list()[i].objective.pct(),
                None => forall|i: int|
                    0 <= i < self.goal_list().len() ==> (#[trigger] self.goal_list()[i]).objective.status_of(
                        units@,
                        tick,
                        fight_over,
                    ) == ObjectiveStatus::Achieved || self.goal_list()[i].objective.foci_of().len()
                        == 0,
            },
    {
        let mut i: usize = 0;
        while i < self.goals.len()
            invariant
                0 <= i <= self.goals@.len(),
                forall|j: int|
                    0 <= j < i ==> (#[trigger] self.goals@[j]).objective.status_of(
                        units@,
                        tick,
                        fight_over,
                    ) == ObjectiveStatus::Achieved || self.goals@[j].objective.foci_of().len() == 0,
            decreases self.goals@.len() - i,
        {
            let g = &self.goals[i];
            if g.objective.status(units, tick, fight_over) != ObjectiveStatus::Achieved {
                let foci = g.objective.foci();
                if foci.len() > 0 {
                    let pct = g.objective.seeker_pct();
                    proof {
                        assert(first_open_focus(self.goal_list(), units@, tick, fight_over, i as int));
                    }
                    return Some((foci, pct));
                }
            }
            i += 1;
        }
        None
    }

    fn tally(&self, units: &[UnitView], tick: u32, fight_over: bool, want: ObjectiveStatus, rewards: bool) -> (t: i32)
        requires
            tally_fits(self.goal_list(), units@, tick, fight_over, want, rewards),
        ensures
            t == tally(self.goal_list(), units@, tick, fight_over, want, rewards),
    {
        let mut t: i32 = 0;
        let mut i: usize = 0;
        while i < self.goals.len()
            invariant
                0 <= i <= self.goals@.len(),
                tally_fits(self.goals@, units@, tick, fight_over, want, rewards),
                t == tally(self.goals@.take(i as int), units@, tick, fight_over, want, rewards),
            decreases self.goals@.len() - i,
        {
            proof {
                assert(self.goals@.take(i + 1).drop_last() =~= self.goals@.take(i as int));
                assert(i32::MIN <= tally(self.goals@.take(i + 1), units@, tick, fight_over, want, rewards) <= i32::MAX);
            }
            let g = &self.goals[i];
            if g.objective.status(units, tick, fight_over) == want {
                t = t + if rewards {
                    g.reward
                } else {
                    g.penalty
                };
            }
            i += 1;
        }
        proof {
            assert(self.goals@.take(self.goals@.len() as int) =~= self.goals@);
        }
        t
    }

    /// Sum of rewards from **achieved** goals.
    pub fn winnings(&self, units: &[UnitView], tick: u32, fight_over: bool) -> (w: i32)
        requires
            tally_fits(self.goal_list(), units@, tick, fight_over, ObjectiveStatus::Achieved, true),
        ensures
            w == tally(self.goal_list(), units@, tick, fight_over, ObjectiveStatus::Achieved, true),
    {
        self.tally(units, tick, fight_over, ObjectiveStatus::Achieved, true)
    }

    /// Sum of penalties from **failed** goals.
    pub fn losses(&self, units: &[UnitView], tick: u32, fight_over: bool) -> (l: i32)
        requires
            tally_fits(self.goal_list(), units@, tick, fight_over, ObjectiveStatus::Failed, false),
        ensures
            l == tally(self.goal_list(), units@, tick, fight_over, ObjectiveStatus::Failed, false),
    {
        self.tally(units, tick, fight_over, ObjectiveStatus::Failed, false)
    }

    /// Net score: winnings − losses.
    pub fn net(&self, units: &[UnitView], tick: u32, fight_over: bool) -> (n: i32)
        requires
            tally_fits(self.goal_list(), units@, tick, fight_over, ObjectiveStatus::Achieved, true),
            tally_fits(self.goal_list(), units@, tick, fight_over, ObjectiveStatus::Failed, false),
            i32::MIN <= tally(self.goal_list(), units@, tick, fight_over, ObjectiveStatus::Achieved, true)
                - tally(self.goal_list(), units@, tick, fight_over, ObjectiveStatus::Failed, false) <= i32::MAX,
        ensures
            n == tally(self.goal_list(), units@, tick, fight_over, ObjectiveStatus::Achieved, true)
                - tally(self.goal_list(), units@, tick, fight_over, ObjectiveStatus::Failed, false),
    {
        self.winnings(units, tick, fight_over) - self.losses(units, tick, fight_over)
    }

    /// Indices of goals still **pending** — unachieved, but not failed — ascending.
    pub fn unachieved(&self, units: &[UnitView], tick: u32, fight_over: bool) -> (v: Vec<usize>)
        ensures
            forall|i: int|
                0 <= i < self.goal_list().len() ==> (v@.contains(i as usize) <==> (#[trigger] self.goal_list()[i]).objective.status_of(
                    units@,
                    tick,
                    fight_over,
                ) == ObjectiveStatus::Pending),
            forall|k: int| 0 <= k < v@.len() ==> (#[trigger] v@[k]) < self.goal_list().len(),
            forall|a: int, b: int| 0 <= a < b < v@.len() ==> (#[trigger] v@[a]) < (#[trigger] v@[b]),
    {
        let mut v: Vec<usize> = Vec::new();
        let mut i: usize = 0;
        while i < self.goals.len()
            invariant
                0 <= i <= self.goals@.len(),
                forall|j: int|
                    0 <= j < i ==> (v@.contains(j as usize) <==> (#[trigger] self.goals@[j]).objective.status_of(
                        units@,
                        tick,
                        fight_over,
                    ) == ObjectiveStatus::Pending),
                forall|k: int| 0 <= k < v@.len() ==> (#[trigger] v@[k]) < i,
                forall|a: int, b: int| 0 <= a < b < v@.len() ==> (#[trigger] v@[a]) < (#[trigger] v@[b]),
            decreases self.goals@.len() - i,
        {
            if self.goals[i].objective.status(units, tick, fight_over) == ObjectiveStatus::Pending {
                proof {
                    assert forall|j: int| 0 <= j < i + 1 implies (v@.push(i).contains(j as usize) <==> (#[trigger] self.goals@[j]).objective.status_of(
                        units@,
                        tick,
                        fight_over,
                    ) == ObjectiveStatus::Pending) by {
                        if j == i {
                            assert(v@.push(i)[v@.len() as int] == i);
                        } else {
                            if v@.push(i).contains(j as usize) {
                                let k = choose|k: int| 0 <= k < v@.push(i).len() && v@.push(i)[k] == j as usize;
                                assert(k < v@.len());
                                assert(v@.contains(j as usize));
                            }
                            if v@.contains(j as usize) {
                                let k = choose|k: int| 0 <= k < v@.len() && v@[k] == j as usize;
                                assert(v@.push(i)[k] == j as usize);
                            }
                        }
                    }
                }
                v.push(i);
            } else {
                proof {
                    assert forall|j: int| 0 <= j < i + 1 implies (v@.contains(j as usize) <==> (#[trigger] self.goals@[j]).objective.status_of(
                        units@,
                        tick,
                        fight_over,
                    ) == ObjectiveStatus::Pending) by {
                        if j == i && v@.contains(j as usize) {
                            let k = choose|k: int| 0 <= k < v@.len() && v@[k] == j as usize;
                            assert(v@[k] < i);
                        }
                    }
                }
            }
            i += 1;
        }
        v
    }
}

/// **Net is winnings less losses, and a goal counts toward at most one side**: a goal's
/// status is either Achieved, Failed or Pending, never two at once.
pub proof fn lemma_goal_scores_once(s: ObjectiveStatus)
    ensures
        !(s == ObjectiveStatus::Achieved && s == ObjectiveStatus::Failed),
        (s == ObjectiveStatus::Pending) <==> (s != ObjectiveStatus::Achieved && s != ObjectiveStatus::Failed),
{
}

/// **Once latched, always achieved**: a capture that has sealed stays Achieved through any
/// later round and on any field, so the holder can leave to mop up.
pub proof fn lemma_hold_latches(h: Hold, after: Hold, units: Seq<UnitView>, tick: u32, later: Seq<UnitView>, t2: u32, over: bool)
    requires
        h.is_done(),
        h.ticked(after, units, tick),
    ensures
        after.is_done(),
        after.status_of(later, t2, over) == ObjectiveStatus::Achieved,
{
}

/// **Once latched, always achieved**, for a cumulative capture.
pub proof fn lemma_capture_hold_latches(c: CaptureHold, after: CaptureHold, units: Seq<UnitView>, tick: u32, later: Seq<UnitView>, t2: u32, over: bool)
    requires
        c.is_done(),
        c.ticked(after, units, tick),
    ensures
        after.is_done(),
        after.status_of(later, t2, over) == ObjectiveStatus::Achieved,
{
}

/// **The flag grab is sticky**: once captured it stays captured through any round, and a
/// sealed flag stays Achieved.
pub proof fn lemma_flag_is_sticky(c: CaptureFlag, after: CaptureFlag, units: Seq<UnitView>, tick: u32, later: Seq<UnitView>, t2: u32, over: bool)
    requires
        c.ticked(after, units, tick),
    ensures
        c.is_captured() ==> after.is_captured(),
        c.is_done() ==> after.status_of(later, t2, over) == ObjectiveStatus::Achieved,
{
}

/// **The item stays in hand**: once picked up it is never dropped, and a completed
/// extraction stays Achieved.
pub proof fn lemma_extract_is_sticky(e: Extract, after: Extract, units: Seq<UnitView>, tick: u32, later: Seq<UnitView>, t2: u32, over: bool)
    requires
        e.ticked(after, units, tick),
    ensures
        e.carrying() ==> after.carrying(),
        e.is_done() ==> after.status_of(later, t2, over) == ObjectiveStatus::Achieved,
{
}

/// **A margin loss is a close defeat, never a win**: while the player still stands, an
/// outright win (no enemy left) botches it and a live fight leaves it open; once the player
/// is wiped it is met exactly when at most the allowed enemies survive.
pub proof fn lemma_margin_loss_needs_a_close_defeat(o: MarginLoss, units: Seq<UnitView>, tick: u32, fight_over: bool)
    ensures
        (exists|p: int| 0 <= p < units.len() && #[trigger] units[p].alive && units[p].team == Team::A)
            && (forall|k: int| 0 <= k < units.len() ==> !(#[trigger] units[k].alive && units[k].team == Team::B))
            ==> o.status_of(units, tick, fight_over) == ObjectiveStatus::Failed,
        o.status_of(units, tick, fight_over) == ObjectiveStatus::Achieved ==> forall|k: int|
            0 <= k < units.len() ==> !(#[trigger] units[k].alive && units[k].team == Team::A),
        (forall|k: int| 0 <= k < units.len() ==> !(#[trigger] units[k].alive && units[k].team == Team::A))
            && alive_count(units, Team::B) <= u32::MAX ==> (
        o.status_of(units, tick, fight_over) == ObjectiveStatus::Achieved <==> alive_count(units, Team::B)
            <= o.max_enemy_survivors),
{
    if (exists|p: int| 0 <= p < units.len() && #[trigger] units[p].alive && units[p].team == Team::A) {
        assert(alive_on(units, PLAYER));
    }
    if !(forall|k: int| 0 <= k < units.len() ==> !(#[trigger] units[k].alive && units[k].team == Team::A)) {
        let p = choose|p: int| !(0 <= p < units.len() ==> !(#[trigger] units[p].alive && units[p].team == Team::A));
        assert(units[p].alive && units[p].team == PLAYER);
        assert(alive_on(units, PLAYER));
    } else {
        assert(!alive_on(units, PLAYER));
    }
}

} // verus!
