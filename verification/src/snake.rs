//! The agent ("snake") state machine and the controller capability set.
//!
//! An agent owns a numeric identity, an ordered list of occupied cell
//! indices (index 0 is the head), a maximum-length counter that grows by
//! one per food consumed, a lifecycle state (alive or dead), and a display
//! color. An agent is driven by exactly one controller: either a local
//! input source or a remote byte-stream channel. The controller trait
//! carries no contracts; every statement the engine relies on is made by
//! the verified methods of [`Snake`] itself.

use vstd::prelude::*;

use crate::object::Tile;

verus! {

/// Diagnostic data a controller exposes, purely for presentation.
pub struct PlayerInfo {
    pub marked_cells: Vec<u16>,
    pub info_lines: Vec<String>,
}

/// A snapshot handed to a controller for transmission: the grid is
/// borrowed from the engine, the roster is a per-tick copy.
pub struct SnakeData<'a> {
    pub height: u16,
    pub width: u16,
    pub grid: &'a Vec<Tile>,
    pub snakes: Vec<SnakeRefData>,
}

/// A decoded snapshot, as a remote peer reconstructs it from bytes.
#[derive(Debug, Clone)]
pub struct SnakeResponseData {
    pub height: u16,
    pub width: u16,
    pub grid: Vec<Tile>,
    pub snakes: Vec<SnakeRefResponseData>,
    pub my_snake_id: u16,
}

/// Per-agent roster entry of an outgoing snapshot.
#[derive(Eq, Hash, PartialEq, Debug)]
pub struct SnakeRefData {
    pub id: i32,
    pub name: String,
    pub alive: bool,
    pub size: i32,
    pub tiles: Vec<i32>,
    pub color: (u8, u8, u8),
}

impl Clone for SnakeRefData {
    /// An exact copy, field for field.
    fn clone(&self) -> (r: SnakeRefData)
        ensures
            r.id == self.id,
            r.name@ == self.name@,
            r.alive == self.alive,
            r.size == self.size,
            r.tiles@ == self.tiles@,
            r.color == self.color,
    {
        SnakeRefData {
            id: self.id,
            name: self.name.clone(),
            alive: self.alive,
            size: self.size,
            tiles: self.tiles.clone(),
            color: self.color,
        }
    }
}

/// Per-agent roster entry of a decoded snapshot. The color is dropped in
/// transit; cell indices travel as unsigned 16-bit values.
#[derive(Eq, Hash, PartialEq, Clone, Debug)]
pub struct SnakeRefResponseData {
    pub id: i32,
    pub name: String,
    pub alive: bool,
    pub tiles: Vec<u16>,
    pub size: u16,
}

/// Agent lifecycle: one-way, `ALIVE` to `DEAD`.
#[allow(non_camel_case_types)]
#[derive(Debug, Clone, Copy, PartialEq, Eq, Structural)]
pub enum SnakeState {
    ALIVE,
    DEAD,
}

/// A movement direction, or `NONE` for an agent with no say (a dead one).
#[allow(non_camel_case_types)]
#[derive(Debug, Clone, Copy, PartialEq, Eq, Structural)]
pub enum Direction {
    UP,
    DOWN,
    LEFT,
    RIGHT,
    NONE,
}

/// The display name of a direction.
pub open spec fn spec_direction_name(d: Direction) -> Seq<char> {
    match d {
        Direction::UP => "Up"@,
        Direction::DOWN => "Down"@,
        Direction::LEFT => "Left"@,
        Direction::RIGHT => "Right"@,
        Direction::NONE => "None"@,
    }
}

/// The command-packet tag of a direction; `NONE` has no tag.
pub open spec fn spec_direction_tag(d: Direction) -> Option<i32> {
    match d {
        Direction::UP => Some(10i32),
        Direction::DOWN => Some(11i32),
        Direction::LEFT => Some(12i32),
        Direction::RIGHT => Some(13i32),
        Direction::NONE => None,
    }
}

impl Direction {
    /// The display name of this direction.
    pub fn to_string(&self) -> (r: String)
        ensures
            r@ == spec_direction_name(*self),
    {
        broadcast use vstd::string::to_string_from_display_ensures_for_str;

        match self {
            Direction::UP => "Up".to_string(),
            Direction::DOWN => "Down".to_string(),
            Direction::LEFT => "Left".to_string(),
            Direction::RIGHT => "Right".to_string(),
            Direction::NONE => "None".to_string(),
        }
    }

    /// The numeric tag of this direction on the wire, if it has one.
    pub fn to_int(&self) -> (r: Option<i32>)
        ensures
            r == spec_direction_tag(*self),
    {
        match self {
            Direction::UP => Some(10),
            Direction::DOWN => Some(11),
            Direction::LEFT => Some(12),
            Direction::RIGHT => Some(13),
            Direction::NONE => None,
        }
    }
}

/// The capability set of an agent controller. Implementations are free
/// (a local input source here, byte-stream backends in the host program);
/// nothing is promised of them, so the engine's contracts never rest on
/// controller behavior.
pub trait SnakeController {
    /// Establish the controller's endpoint; `false` on failure, which the
    /// caller treats as a permanently disconnected agent.
    fn connect(&mut self) -> bool;

    /// Release the endpoint; safe on one that never connected.
    fn disconnect(&self);

    /// A human-readable identity.
    fn get_name(&self) -> String;

    /// Non-blocking poll of the input source.
    fn update(&mut self);

    /// The most recent requested direction.
    fn next_direction(&self) -> Direction;

    /// Hand a fresh snapshot over for transmission to the peer.
    fn report_data(&mut self, data: SnakeData<'_>, snake_id: i32);

    /// Best-effort announcement of the match winner.
    fn send_winner(&mut self, winner: i32);

    /// Optional diagnostic lines and marked cells; `None` is valid.
    fn get_info(&self) -> Option<PlayerInfo>;

    /// A fresh controller carrying only static identity and
    /// configuration, for re-arming between matches; it inherits no
    /// transient connection state.
    fn clone_weak(&self) -> Self where Self: Sized;
}

/// The local-input controller variant: it holds the direction the host
/// last sampled from its local source and hands it back unchanged.
pub struct LocalController {
    pub direction: Direction,
    pub name: String,
}

impl LocalController {
    /// A fresh local controller, initially heading right.
    pub fn new(name: String) -> (r: LocalController)
        ensures
            r.direction == Direction::RIGHT,
            r.name@ == name@,
    {
        LocalController { direction: Direction::RIGHT, name }
    }

    /// Record the direction most recently requested locally.
    pub fn set_direction(&mut self, d: Direction)
        ensures
            final(self).direction == d,
            final(self).name == old(self).name,
    {
        self.direction = d;
    }
}

impl SnakeController for LocalController {
    fn connect(&mut self) -> (r: bool)
        ensures
            r,
            *final(self) == *old(self),
    {
        true
    }

    fn disconnect(&self) {
    }

    fn get_name(&self) -> (r: String)
        ensures
            r@ == self.name@,
    {
        self.name.clone()
    }

    fn update(&mut self)
        ensures
            *final(self) == *old(self),
    {
    }

    fn next_direction(&self) -> (r: Direction)
        ensures
            r == self.direction,
    {
        self.direction
    }

    fn report_data(&mut self, data: SnakeData<'_>, snake_id: i32)
        ensures
            *final(self) == *old(self),
    {
    }

    fn send_winner(&mut self, winner: i32)
        ensures
            *final(self) == *old(self),
    {
    }

    fn get_info(&self) -> (r: Option<PlayerInfo>)
        ensures
            r is None,
    {
        None
    }

    fn clone_weak(&self) -> (r: LocalController)
        ensures
            r.direction == self.direction,
            r.name == self.name,
    {
        LocalController { direction: self.direction, name: self.name.clone() }
    }
}

/// The mathematical state of an agent: everything but its controller.
pub struct SnakeModel {
    pub id: int,
    pub tiles: Seq<int>,
    pub max_size: int,
    pub alive: bool,
    pub color: (u8, u8, u8),
}

/// A sequence of `i32` cell indices as mathematical integers.
pub open spec fn int_seq(s: Seq<i32>) -> Seq<int> {
    s.map_values(|x: i32| x as int)
}

/// Pop cells off the tail of `t` until at most `cap` remain; yields the
/// kept prefix and the popped cells in the order they came off.
pub open spec fn pops(t: Seq<int>, cap: int) -> (Seq<int>, Seq<int>)
    decreases t.len(),
{
    if t.len() == 0 || t.len() <= cap {
        (t, Seq::empty())
    } else {
        let r = pops(t.drop_last(), cap);
        (r.0, seq![t.last()] + r.1)
    }
}

/// What `move_head` does to an agent: a dead agent is untouched; a living
/// one gets the new head prepended, then sheds tail cells down to its
/// maximum length. Yields the new state and the shed cells.
pub open spec fn spec_move_head(s: SnakeModel, c: int) -> (SnakeModel, Seq<int>) {
    if !s.alive {
        (s, Seq::empty())
    } else {
        let r = pops(seq![c] + s.tiles, s.max_size);
        (SnakeModel { tiles: r.0, ..s }, r.1)
    }
}

/// What `grow` does: the maximum length rises by one (saturating at the
/// counter's limit); the body itself only lengthens on the next move.
pub open spec fn spec_grow(s: SnakeModel) -> SnakeModel {
    SnakeModel {
        max_size: if s.max_size < i32::MAX {
            s.max_size + 1
        } else {
            s.max_size
        },
        ..s
    }
}

/// What `kill` does: the state becomes dead; the body is frozen as it is.
pub open spec fn spec_kill(s: SnakeModel) -> SnakeModel {
    SnakeModel { alive: false, ..s }
}

/// An agent: identity, body, growth counter, lifecycle, color, and its
/// controller. The controller is deliberately outside the agent's
/// mathematical state.
pub struct Snake<C: SnakeController> {
    pub id: i32,
    pub tiles: Vec<i32>,
    max_size: i32,
    controller: C,
    state: SnakeState,
    pub color: (u8, u8, u8),
}

impl<C: SnakeController> View for Snake<C> {
    type V = SnakeModel;

    closed spec fn view(&self) -> SnakeModel {
        SnakeModel {
            id: self.id as int,
            tiles: int_seq(self.tiles@),
            max_size: self.max_size as int,
            alive: self.state is ALIVE,
            color: self.color,
        }
    }
}

impl<C: SnakeController> Snake<C> {
    /// A fresh agent: alive, bodyless until it spawns, maximum length 1.
    pub fn new(id: i32, controller: C, color: (u8, u8, u8)) -> (r: Snake<C>)
        ensures
            r@.id == id,
            r@.tiles.len() == 0,
            r@.max_size == 1,
            r@.alive,
            r@.color == color,
    {
        Snake { id, tiles: Vec::new(), controller, max_size: 1, state: SnakeState::ALIVE, color }
    }

    /// Poll the controller's input source; the agent state is untouched.
    pub fn update_controller(&mut self)
        ensures
            final(self)@ == old(self)@,
    {
        self.controller.update();
    }

    /// The controller's human-readable identity.
    pub fn get_name(&self) -> String {
        self.controller.get_name()
    }

    /// Hand a snapshot to the controller for transmission; a dead agent's
    /// controller is no longer served. The agent state is untouched.
    pub fn send_gamestate(&mut self, data: SnakeData<'_>)
        ensures
            final(self)@ == old(self)@,
    {
        if self.is_dead() {
            return;
        }
        self.controller.report_data(data, self.id);
    }

    /// The direction this agent will move: whatever its controller says
    /// while it lives, and `NONE` once it is dead.
    pub fn next_direction(&self) -> (r: Direction)
        ensures
            !self@.alive ==> r == Direction::NONE,
    {
        if let SnakeState::DEAD = self.state {
            return Direction::NONE;
        }
        self.controller.next_direction()
    }

    /// The head cell of a spawned agent.
    pub fn get_head(&self) -> (r: i32)
        requires
            self@.tiles.len() > 0,
        ensures
            r == self@.tiles[0],
    {
        self.tiles[0]
    }

    /// The occupied cells, head first.
    pub fn get_tiles(&self) -> (r: &Vec<i32>)
        ensures
            int_seq(r@) == self@.tiles,
    {
        &self.tiles
    }

    /// The agent's identity.
    pub fn get_id(&self) -> (r: i32)
        ensures
            r == self@.id,
    {
        self.id
    }

    /// Whether the agent has died.
    pub fn is_dead(&self) -> (r: bool)
        ensures
            r == !self@.alive,
    {
        match self.state {
            SnakeState::ALIVE => false,
            SnakeState::DEAD => true,
        }
    }

    /// Move the head to `new_head` and shed tail cells beyond the maximum
    /// length, returning the shed cells. A dead agent is untouched and
    /// sheds nothing.
    pub fn move_head(&mut self, new_head: i32) -> (removed: Vec<i32>)
        ensures
            final(self)@ == spec_move_head(old(self)@, new_head as int).0,
            int_seq(removed@) == spec_move_head(old(self)@, new_head as int).1,
    {
        if self.is_dead() {
            return Vec::new();
        }
        let mut removed: Vec<i32> = Vec::new();
        self.tiles.insert(0, new_head);
        let ghost t = int_seq(self.tiles@);
        let ghost cap_spec = self@.max_size;
        proof {
            assert(t =~= seq![new_head as int] + int_seq(old(self).tiles@));
        }
        let cap: usize = if self.max_size > 0 {
            self.max_size as usize
        } else {
            0
        };
        while self.tiles.len() > cap
            invariant
                cap == if cap_spec > 0 {
                    cap_spec
                } else {
                    0
                },
                pops(t, cap_spec).0 == pops(int_seq(self.tiles@), cap_spec).0,
                pops(t, cap_spec).1 =~= int_seq(removed@) + pops(int_seq(self.tiles@), cap_spec).1,
                self.id == old(self).id,
                self.max_size == old(self).max_size,
                self.state == old(self).state,
                self.color == old(self).color,
            decreases self.tiles.len(),
        {
            let ghost cur = int_seq(self.tiles@);
            let popped = self.tiles.pop().unwrap();
            removed.push(popped);
            proof {
                assert(int_seq(self.tiles@) =~= cur.drop_last());
                assert(popped as int == cur.last());
                assert(int_seq(removed@) =~= int_seq(removed@.drop_last()) + seq![popped as int]);
            }
        }
        proof {
            let fin = int_seq(self.tiles@);
            assert(pops(fin, cap_spec).0 =~= fin);
            assert(pops(fin, cap_spec).1 =~= Seq::<int>::empty());
            assert(int_seq(removed@) + Seq::<int>::empty() =~= int_seq(removed@));
        }
        removed
    }

    /// Raise the maximum length by one; takes effect on the next move.
    pub fn grow(&mut self)
        ensures
            final(self)@ == spec_grow(old(self)@),
    {
        if self.max_size < i32::MAX {
            self.max_size = self.max_size + 1;
        }
    }

    /// Kill the agent and hand back its frozen body for conversion into
    /// dead-remnant tiles. A second call changes nothing and returns the
    /// same frozen body.
    pub fn kill(&mut self) -> (r: &Vec<i32>)
        ensures
            final(self)@ == spec_kill(old(self)@),
            int_seq(r@) == old(self)@.tiles,
    {
        self.state = SnakeState::DEAD;
        &self.tiles
    }

    /// The roster entry of this agent: identity, body, growth counter,
    /// alive flag and color are exact; the name is whatever the
    /// controller reports.
    pub fn get_data(&self) -> (r: SnakeRefData)
        ensures
            r.id == self@.id,
            r.alive == self@.alive,
            r.size == self@.max_size,
            int_seq(r.tiles@) == self@.tiles,
            r.color == self@.color,
    {
        SnakeRefData {
            id: self.id,
            name: self.get_name(),
            alive: match self.state {
                SnakeState::ALIVE => true,
                SnakeState::DEAD => false,
            },
            size: self.max_size,
            tiles: self.tiles.clone(),
            color: self.color,
        }
    }

    /// Empty the body list, as a match reset does; identity, growth
    /// counter and lifecycle state stay as they are.
    pub fn reset_body(&mut self)
        ensures
            final(self)@ == (SnakeModel { tiles: Seq::empty(), ..old(self)@ }),
    {
        self.tiles.clear();
        proof {
            assert(int_seq(self.tiles@) =~= Seq::<int>::empty());
        }
    }

    /// The controller's diagnostic data, if it offers any.
    pub fn get_info(&self) -> Option<PlayerInfo> {
        self.controller.get_info()
    }

    /// Announce the match winner to the controller, best effort; the
    /// agent state is untouched.
    pub fn send_winner(&mut self, winner: i32)
        ensures
            final(self)@ == old(self)@,
    {
        self.controller.send_winner(winner)
    }

    /// Release the controller's endpoint; the agent state is untouched.
    pub fn disconnect_controller(&mut self)
        ensures
            final(self)@ == old(self)@,
    {
        self.controller.disconnect()
    }

    /// Establish the controller's endpoint; the agent state is untouched.
    pub fn connect_controller(&mut self) -> (r: bool)
        ensures
            final(self)@ == old(self)@,
    {
        self.controller.connect()
    }
}

/// An agent after a run of steps, each step saying whether it ate that
/// tick and which cell its head moved to.
pub open spec fn run_snake(s: SnakeModel, steps: Seq<(bool, int)>) -> SnakeModel
    decreases steps.len(),
{
    if steps.len() == 0 {
        s
    } else {
        let s1 = if steps[0].0 {
            spec_grow(s)
        } else {
            s
        };
        run_snake(spec_move_head(s1, steps[0].1).0, steps.drop_first())
    }
}

/// How many steps of a run consumed food.
pub open spec fn food_count(steps: Seq<(bool, int)>) -> int
    decreases steps.len(),
{
    if steps.len() == 0 {
        0
    } else {
        (if steps[0].0 {
            1int
        } else {
            0int
        }) + food_count(steps.drop_first())
    }
}

proof fn lemma_food_count_bounds(steps: Seq<(bool, int)>)
    ensures
        0 <= food_count(steps) <= steps.len(),
    decreases steps.len(),
{
    if steps.len() > 0 {
        lemma_food_count_bounds(steps.drop_first());
    }
}

proof fn lemma_pops_len(t: Seq<int>, cap: int)
    requires
        cap >= 1,
    ensures
        pops(t, cap).0.len() == vstd::math::min(cap, t.len() as int),
    decreases t.len(),
{
    if !(t.len() == 0 || t.len() <= cap) {
        lemma_pops_len(t.drop_last(), cap);
    }
}

/// Law (agent growth): an agent that stays alive through a run of moves
/// ends with body length `min(max_size + food eaten, starting length +
/// moves made)`; from a fresh spawn (length 1, maximum length 1) that is
/// `min(food + 1, moves + 1)`.
pub proof fn lemma_agent_growth(s: SnakeModel, steps: Seq<(bool, int)>)
    requires
        s.alive,
        s.max_size >= 1,
        s.tiles.len() <= s.max_size,
        s.max_size + food_count(steps) <= i32::MAX,
    ensures
        run_snake(s, steps).tiles.len() == vstd::math::min(
            s.max_size + food_count(steps),
            s.tiles.len() + steps.len() as int,
        ),
        run_snake(s, steps).alive,
        run_snake(s, steps).max_size == s.max_size + food_count(steps),
    decreases steps.len(),
{
    lemma_food_count_bounds(steps);
    if steps.len() == 0 {
    } else {
        let ate = steps[0].0;
        let s1 = if ate {
            spec_grow(s)
        } else {
            s
        };
        let t = seq![steps[0].1] + s1.tiles;
        lemma_pops_len(t, s1.max_size);
        let s2 = spec_move_head(s1, steps[0].1).0;
        let rest = steps.drop_first();
        lemma_agent_growth(s2, rest);
        lemma_food_count_bounds(rest);
        let a: int = if ate {
            1
        } else {
            0
        };
        assert(s2.tiles.len() == vstd::math::min(s.max_size + a, s.tiles.len() as int + 1));
        assert(s2.max_size == s.max_size + a);
        assert(food_count(steps) == a + food_count(rest));
        assert(run_snake(s, steps) == run_snake(s2, rest));
        assert(run_snake(s2, rest).tiles.len() == vstd::math::min(
            s.max_size + a + food_count(rest),
            vstd::math::min(s.max_size + a, s.tiles.len() as int + 1) + rest.len(),
        ));
        assert(food_count(rest) <= rest.len());
        assert(vstd::math::min(
            s.max_size + a + food_count(rest),
            vstd::math::min(s.max_size + a, s.tiles.len() as int + 1) + rest.len(),
        ) == vstd::math::min(
            s.max_size + food_count(steps),
            s.tiles.len() + steps.len() as int,
        ));
    }
}

/// Law (agent growth, from spawn): after `N` food consumptions over `T`
/// surviving moves, the body length is exactly `min(N + 1, T + 1)`.
pub proof fn lemma_agent_growth_from_spawn(s: SnakeModel, steps: Seq<(bool, int)>)
    requires
        s.alive,
        s.max_size == 1,
        s.tiles.len() == 1,
        food_count(steps) < i32::MAX,
    ensures
        run_snake(s, steps).tiles.len() == vstd::math::min(
            food_count(steps) + 1,
            steps.len() as int + 1,
        ),
{
    lemma_agent_growth(s, steps);
}

/// Law (death idempotence): killing an already-dead agent changes
/// nothing, the frozen body is the same both times, and a move applied
/// to a dead agent sheds no cells at all.
pub proof fn lemma_kill_idempotent(s: SnakeModel, c: int)
    ensures
        spec_kill(spec_kill(s)) == spec_kill(s),
        spec_kill(s).tiles == s.tiles,
        spec_move_head(spec_kill(s), c) == (spec_kill(s), Seq::<int>::empty()),
{
}

} // verus!
