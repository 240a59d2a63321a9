//! The single-elevator state machine.
//!
//! The controller feeds hardware events (new request matrix, floor arrival,
//! door timer expiry, obstruction) into [`ElevatorState`]; each handler
//! updates the state and returns the hardware and network actions to perform,
//! in order. Executing the actions (motor, lights, timers, messages) is the
//! caller's business.
use vstd::prelude::*;

use crate::config::{CALL_COUNT, FLOOR_COUNT};

verus! {

/// What the elevator is doing.
#[derive(Debug, Clone, Copy, PartialEq, Eq, Structural)]
pub enum ElevatorBehaviour {
    /// Idle and waiting for requests.
    Idle,
    /// Doors are open.
    DoorOpen,
    /// Moving between floors.
    Moving,
}

/// Direction of travel.
#[derive(Debug, Clone, Copy, PartialEq, Eq, Structural)]
pub enum Dirn {
    Down,
    Stop,
    Up,
}

/// The three buttons of a floor.
#[derive(Debug, Clone, Copy, PartialEq, Eq, Structural)]
pub enum Button {
    HallUp,
    HallDown,
    Cab,
}

/// Column of the hall-up button in a request matrix.
pub const HALL_UP: usize = 0;

/// Column of the hall-down button in a request matrix.
pub const HALL_DOWN: usize = 1;

/// Column of the cab button in a request matrix.
pub const CAB: usize = 2;

impl Button {
    /// Column of this button in a request matrix.
    pub fn index(self) -> (i: usize)
        ensures
            i == button_column(self),
    {
        match self {
            Button::HallUp => HALL_UP,
            Button::HallDown => HALL_DOWN,
            Button::Cab => CAB,
        }
    }
}

/// Column of a button in a request matrix.
pub open spec fn button_column(b: Button) -> usize {
    match b {
        Button::HallUp => 0,
        Button::HallDown => 1,
        Button::Cab => 2,
    }
}

/// Requests per floor and button: `[floor][hall up, hall down, cab]`.
pub type ControllerRequests = [[bool; CALL_COUNT]; FLOOR_COUNT];

/// A request matrix with no request set.
pub fn no_requests() -> (r: ControllerRequests)
    ensures
        forall|f: int, b: int| !cell(r, f, b),
{
    [[false; CALL_COUNT]; FLOOR_COUNT]
}

/// Whether button `b` of floor `f` is set (false outside the matrix).
pub open spec fn cell(r: ControllerRequests, f: int, b: int) -> bool {
    0 <= f < FLOOR_COUNT && 0 <= b < CALL_COUNT && r@[f]@[b]
}

/// Whether any button of floor `f` is set.
pub open spec fn floor_has_request(r: ControllerRequests, f: int) -> bool {
    exists|b: int| 0 <= b < CALL_COUNT && #[trigger] cell(r, f, b)
}

/// Whether some floor in `[lo, hi)` has a request.
pub open spec fn any_request_in(r: ControllerRequests, lo: int, hi: int) -> bool {
    exists|f: int| lo <= f < hi && #[trigger] floor_has_request(r, f)
}

/// Floors whose rows agree agree on having a request.
proof fn lemma_floor_same(r1: ControllerRequests, r2: ControllerRequests, f: int)
    requires
        0 <= f < FLOOR_COUNT ==> r1@[f] == r2@[f],
    ensures
        floor_has_request(r1, f) == floor_has_request(r2, f),
{
    if floor_has_request(r1, f) {
        let b = choose|b: int| 0 <= b < CALL_COUNT && #[trigger] cell(r1, f, b);
        assert(cell(r2, f, b));
    }
    if floor_has_request(r2, f) {
        let b = choose|b: int| 0 <= b < CALL_COUNT && #[trigger] cell(r2, f, b);
        assert(cell(r1, f, b));
    }
}

/// Matrices whose rows agree on `[lo, hi)` agree on requests in that range.
proof fn lemma_range_same(r1: ControllerRequests, r2: ControllerRequests, lo: int, hi: int)
    requires
        forall|g: int| lo <= g < hi && 0 <= g < FLOOR_COUNT ==> r1@[g] == r2@[g],
    ensures
        any_request_in(r1, lo, hi) == any_request_in(r2, lo, hi),
{
    if any_request_in(r1, lo, hi) {
        let f = choose|f: int| lo <= f < hi && #[trigger] floor_has_request(r1, f);
        lemma_floor_same(r1, r2, f);
    }
    if any_request_in(r2, lo, hi) {
        let f = choose|f: int| lo <= f < hi && #[trigger] floor_has_request(r2, f);
        lemma_floor_same(r1, r2, f);
    }
}

/// A floor index of the matrix.
pub open spec fn valid_floor(floor: i8) -> bool {
    0 <= floor < FLOOR_COUNT
}

/// An action the state machine asks its driver to perform.
#[derive(Debug, Clone, Copy, PartialEq)]
pub enum FsmAction {
    /// Set the motor direction.
    MotorDirection(Dirn),
    /// Switch the door-open lamp.
    DoorLight(bool),
    /// Show the floor indicator for this floor.
    FloorIndicator(u8),
    /// Start a door timer that fires once after this many seconds.
    StartDoorTimer(u64),
    /// Report direction, behaviour and floor to the manager.
    ReportState(Dirn, ElevatorBehaviour, i8),
    /// Ask the manager to clear the marked buttons `[hall up, hall down, cab]` of a floor.
    ClearRequest(usize, [bool; 3]),
}

/// A direction together with the behaviour it leads to.
#[derive(Debug, Clone, Copy, PartialEq, Eq, Structural)]
pub struct DirectionBehaviourPair {
    pub dirn: Dirn,
    pub behavior: ElevatorBehaviour,
}

/// State of one elevator as its controller sees it.
#[derive(Debug, Clone, Copy)]
pub struct ElevatorState {
    /// Door timers started and not yet expired.
    pub no_of_timer_threads: u8,
    /// Current floor, -1 while unknown.
    pub floor: i8,
    pub dirn: Dirn,
    /// Requests assigned to this elevator.
    pub requests: ControllerRequests,
    pub behaviour: ElevatorBehaviour,
    /// Seconds the door stays open.
    pub door_open_duration: u64,
    /// Last reading of the obstruction switch.
    pub obstruction: bool,
}

impl ElevatorState {
    /// Requests at the current floor.
    pub open spec fn spec_here(self) -> bool {
        floor_has_request(self.requests, self.floor as int)
    }

    /// Requests strictly above the current floor.
    pub open spec fn spec_above(self) -> bool {
        self.floor >= -1 && any_request_in(self.requests, self.floor + 1, FLOOR_COUNT as int)
    }

    /// Requests strictly below the current floor.
    pub open spec fn spec_below(self) -> bool {
        any_request_in(self.requests, 0, self.floor as int)
    }

    /// The scan below the floor stays inside the matrix.
    pub open spec fn below_defined(self) -> bool {
        self.floor <= FLOOR_COUNT || any_request_in(self.requests, 0, FLOOR_COUNT as int)
    }

    /// The direction choice reads only what it may read.
    pub open spec fn choice_defined(self) -> bool {
        match self.dirn {
            Dirn::Up => self.floor < 127 && (self.spec_above() || valid_floor(self.floor)),
            Dirn::Down => self.below_defined() && (self.spec_below() || valid_floor(self.floor)),
            Dirn::Stop => valid_floor(self.floor),
        }
    }

    /// Direction and behaviour chosen from the requests, preferring to keep
    /// the current direction of travel.
    pub open spec fn spec_choose_direction(self) -> DirectionBehaviourPair {
        match self.dirn {
            Dirn::Up => if self.spec_above() {
                DirectionBehaviourPair { dirn: Dirn::Up, behavior: ElevatorBehaviour::Moving }
            } else if self.spec_here() {
                DirectionBehaviourPair { dirn: Dirn::Down, behavior: ElevatorBehaviour::DoorOpen }
            } else if self.spec_below() {
                DirectionBehaviourPair { dirn: Dirn::Down, behavior: ElevatorBehaviour::Moving }
            } else {
                DirectionBehaviourPair { dirn: Dirn::Stop, behavior: ElevatorBehaviour::Idle }
            },
            Dirn::Down => if self.spec_below() {
                DirectionBehaviourPair { dirn: Dirn::Down, behavior: ElevatorBehaviour::Moving }
            } else if self.spec_here() {
                DirectionBehaviourPair { dirn: Dirn::Up, behavior: ElevatorBehaviour::DoorOpen }
            } else if self.spec_above() {
                DirectionBehaviourPair { dirn: Dirn::Up, behavior: ElevatorBehaviour::Moving }
            } else {
                DirectionBehaviourPair { dirn: Dirn::Stop, behavior: ElevatorBehaviour::Idle }
            },
            Dirn::Stop => if self.spec_here() {
                DirectionBehaviourPair { dirn: Dirn::Stop, behavior: ElevatorBehaviour::DoorOpen }
            } else if self.spec_above() {
                DirectionBehaviourPair { dirn: Dirn::Up, behavior: ElevatorBehaviour::Moving }
            } else if self.spec_below() {
                DirectionBehaviourPair { dirn: Dirn::Down, behavior: ElevatorBehaviour::Moving }
            } else {
                DirectionBehaviourPair { dirn: Dirn::Stop, behavior: ElevatorBehaviour::Idle }
            },
        }
    }

    /// Whether an elevator moving in its direction stops at its floor.
    pub open spec fn spec_should_stop(self) -> bool {
        match self.dirn {
            Dirn::Down => cell(self.requests, self.floor as int, HALL_DOWN as int) || cell(
                self.requests,
                self.floor as int,
                CAB as int,
            ) || !self.spec_below(),
            Dirn::Up => cell(self.requests, self.floor as int, HALL_UP as int) || cell(
                self.requests,
                self.floor as int,
                CAB as int,
            ) || !self.spec_above(),
            Dirn::Stop => true,
        }
    }

    /// Buttons of the current floor that arriving in the current direction clears:
    /// the cab button always; the hall button of the direction of travel; the other
    /// hall button too when nothing more lies ahead (going down: and no one waits
    /// to go on down); both hall buttons when stopped.
    pub open spec fn spec_clear_mask(self) -> Seq<bool> {
        let f = self.floor as int;
        match self.dirn {
            Dirn::Up => seq![true, !self.spec_above(), true],
            Dirn::Down => seq![!self.spec_below() && !cell(self.requests, f, HALL_DOWN as int), true, true],
            Dirn::Stop => seq![true, true, true],
        }
    }

    /// `after` is `before` with the buttons of `mask` cleared at floor `floor`.
    pub open spec fn cleared_from(
        after: ControllerRequests,
        before: ControllerRequests,
        floor: int,
        mask: Seq<bool>,
    ) -> bool {
        forall|f: int, b: int|
            #![trigger cell(after, f, b)]
            cell(after, f, b) == (cell(before, f, b) && !(f == floor && mask[b]))
    }

    /// Creates the state of a freshly started elevator: floor unknown,
    /// stopped and idle, no requests, doors open for three seconds.
    pub fn init_elevator() -> (s: ElevatorState)
        ensures
            s.no_of_timer_threads == 0,
            s.floor == -1,
            s.dirn == Dirn::Stop,
            forall|f: int, b: int| !cell(s.requests, f, b),
            s.behaviour == ElevatorBehaviour::Idle,
            s.door_open_duration == 3,
            !s.obstruction,
    {
        ElevatorState {
            no_of_timer_threads: 0,
            floor: -1,
            dirn: Dirn::Stop,
            requests: no_requests(),
            behaviour: ElevatorBehaviour::Idle,
            door_open_duration: 3,
            obstruction: false,
        }
    }

    /// Whether any button of the current floor is set.
    pub fn requests_here(&self) -> (r: bool)
        requires
            valid_floor(self.floor),
        ensures
            r == self.spec_here(),
    {
        let f = self.floor as usize;
        let mut b: usize = 0;
        while b < CALL_COUNT
            invariant
                b <= CALL_COUNT,
                f == self.floor,
                valid_floor(self.floor),
                forall|c: int| 0 <= c < b ==> !cell(self.requests, f as int, c),
            decreases CALL_COUNT - b,
        {
            if self.requests[f][b] {
                assert(cell(self.requests, f as int, b as int));
                return true;
            }
            b += 1;
        }
        false
    }

    /// Whether floor `f` of the requests has any button set.
    fn floor_requested(&self, f: usize) -> (r: bool)
        requires
            f < FLOOR_COUNT,
        ensures
            r == floor_has_request(self.requests, f as int),
    {
        let mut b: usize = 0;
        while b < CALL_COUNT
            invariant
                b <= CALL_COUNT,
                f < FLOOR_COUNT,
                forall|c: int| 0 <= c < b ==> !cell(self.requests, f as int, c),
            decreases CALL_COUNT - b,
        {
            if self.requests[f][b] {
                assert(cell(self.requests, f as int, b as int));
                return true;
            }
            b += 1;
        }
        false
    }

    /// Whether any floor below the current one has a request.
    pub fn requests_below(&self) -> (r: bool)
        requires
            self.below_defined(),
        ensures
            r == self.spec_below(),
    {
        if self.floor <= 0 {
            return false;
        }
        let top = self.floor as usize;
        let mut f: usize = 0;
        while f < top
            invariant
                f <= top,
                top == self.floor,
                self.below_defined(),
                forall|g: int| 0 <= g < f ==> !floor_has_request(self.requests, g),
            decreases top - f,
        {
            if f >= FLOOR_COUNT {
                assert forall|g: int| 0 <= g < FLOOR_COUNT implies !floor_has_request(self.requests, g) by {}
                assert(false);
            }
            if self.floor_requested(f) {
                return true;
            }
            f += 1;
        }
        false
    }

    /// Whether any floor above the current one has a request.
    pub fn requests_above(&self) -> (r: bool)
        requires
            self.floor < 127,
        ensures
            r == self.spec_above(),
    {
        if self.floor < -1 || self.floor >= FLOOR_COUNT as i8 {
            return false;
        }
        let mut f: usize = (self.floor + 1) as usize;
        while f < FLOOR_COUNT
            invariant
                self.floor + 1 <= f <= FLOOR_COUNT,
                self.floor >= -1,
                forall|g: int| self.floor + 1 <= g < f ==> !floor_has_request(self.requests, g),
            decreases FLOOR_COUNT - f,
        {
            if self.floor_requested(f) {
                return true;
            }
            f += 1;
        }
        false
    }

    /// Whether any floor has a request.
    fn any_request(&self) -> (r: bool)
        ensures
            r == any_request_in(self.requests, 0, FLOOR_COUNT as int),
    {
        let mut f: usize = 0;
        while f < FLOOR_COUNT
            invariant
                f <= FLOOR_COUNT,
                forall|g: int| 0 <= g < f ==> !floor_has_request(self.requests, g),
            decreases FLOOR_COUNT - f,
        {
            if self.floor_requested(f) {
                return true;
            }
            f += 1;
        }
        false
    }

    /// Whether choosing a direction only reads the request matrix where it
    /// exists; see [`Self::choice_defined`].
    pub fn choice_is_defined(&self) -> (b: bool)
        ensures
            b == self.choice_defined(),
    {
        let valid = 0 <= self.floor && self.floor < FLOOR_COUNT as i8;
        match self.dirn {
            Dirn::Up => self.floor < 127 && (self.requests_above() || valid),
            Dirn::Down => {
                let below_defined = self.floor <= FLOOR_COUNT as i8 || self.any_request();
                below_defined && (self.requests_below() || valid)
            },
            Dirn::Stop => valid,
        }
    }

    /// Chooses the next direction and behaviour from the requests: keep going
    /// in the direction of travel while there are requests ahead, open the door
    /// for requests here, turn around for requests behind, else stop.
    pub fn requests_choose_direction(&self) -> (p: DirectionBehaviourPair)
        requires
            self.choice_defined(),
        ensures
            p == self.spec_choose_direction(),
    {
        match self.dirn {
            Dirn::Up => {
                if self.requests_above() {
                    DirectionBehaviourPair { dirn: Dirn::Up, behavior: ElevatorBehaviour::Moving }
                } else if self.requests_here() {
                    DirectionBehaviourPair { dirn: Dirn::Down, behavior: ElevatorBehaviour::DoorOpen }
                } else if self.requests_below() {
                    DirectionBehaviourPair { dirn: Dirn::Down, behavior: ElevatorBehaviour::Moving }
                } else {
                    DirectionBehaviourPair { dirn: Dirn::Stop, behavior: ElevatorBehaviour::Idle }
                }
            },
            Dirn::Down => {
                if self.requests_below() {
                    DirectionBehaviourPair { dirn: Dirn::Down, behavior: ElevatorBehaviour::Moving }
                } else if self.requests_here() {
                    DirectionBehaviourPair { dirn: Dirn::Up, behavior: ElevatorBehaviour::DoorOpen }
                } else if self.requests_above() {
                    DirectionBehaviourPair { dirn: Dirn::Up, behavior: ElevatorBehaviour::Moving }
                } else {
                    DirectionBehaviourPair { dirn: Dirn::Stop, behavior: ElevatorBehaviour::Idle }
                }
            },
            Dirn::Stop => {
                if self.requests_here() {
                    DirectionBehaviourPair { dirn: Dirn::Stop, behavior: ElevatorBehaviour::DoorOpen }
                } else if self.requests_above() {
                    DirectionBehaviourPair { dirn: Dirn::Up, behavior: ElevatorBehaviour::Moving }
                } else if self.requests_below() {
                    DirectionBehaviourPair { dirn: Dirn::Down, behavior: ElevatorBehaviour::Moving }
                } else {
                    DirectionBehaviourPair { dirn: Dirn::Stop, behavior: ElevatorBehaviour::Idle }
                }
            },
        }
    }

    /// Whether the elevator, arriving at its floor while moving, stops there.
    pub fn requests_should_stop(&self) -> (r: bool)
        requires
            valid_floor(self.floor),
        ensures
            r == self.spec_should_stop(),
    {
        let f = self.floor as usize;
        match self.dirn {
            Dirn::Down => self.requests[f][HALL_DOWN] || self.requests[f][CAB] || !self.requests_below(),
            Dirn::Up => self.requests[f][HALL_UP] || self.requests[f][CAB] || !self.requests_above(),
            Dirn::Stop => true,
        }
    }

    /// Clears the requests served at the current floor and returns the
    /// message that tells the manager which buttons were cleared.
    pub fn requests_clear_at_current_floor(&mut self) -> (a: FsmAction)
        requires
            valid_floor(old(self).floor),
        ensures
            a matches FsmAction::ClearRequest(fl, m) && fl == old(self).floor && m@
                == old(self).spec_clear_mask(),
            Self::cleared_from(
                final(self).requests,
                old(self).requests,
                old(self).floor as int,
                old(self).spec_clear_mask(),
            ),
            final(self).floor == old(self).floor,
            final(self).dirn == old(self).dirn,
            final(self).behaviour == old(self).behaviour,
            final(self).no_of_timer_threads == old(self).no_of_timer_threads,
            final(self).door_open_duration == old(self).door_open_duration,
            final(self).obstruction == old(self).obstruction,
    {
        let ghost s0 = *self;
        let f = self.floor as usize;
        let mut should_clear = [false; 3];
        self.requests[f][CAB] = false;
        should_clear[CAB] = true;
        assert(forall|g: int| 0 <= g < FLOOR_COUNT && g != f ==> self.requests@[g] == s0.requests@[g]);
        match self.dirn {
            Dirn::Up => {
                proof {
                    lemma_range_same(self.requests, s0.requests, self.floor + 1, FLOOR_COUNT as int);
                }
                let above = self.requests_above();
                if !above {
                    self.requests[f][HALL_DOWN] = false;
                    should_clear[HALL_DOWN] = true;
                }
                self.requests[f][HALL_UP] = false;
                should_clear[HALL_UP] = true;
            },
            Dirn::Down => {
                proof {
                    lemma_range_same(self.requests, s0.requests, 0, self.floor as int);
                }
                let below = self.requests_below();
                if !below && !self.requests[f][HALL_DOWN] {
                    self.requests[f][HALL_UP] = false;
                    should_clear[HALL_UP] = true;
                }
                self.requests[f][HALL_DOWN] = false;
                should_clear[HALL_DOWN] = true;
            },
            Dirn::Stop => {
                self.requests[f][HALL_UP] = false;
                self.requests[f][HALL_DOWN] = false;
                should_clear[HALL_UP] = true;
                should_clear[HALL_DOWN] = true;
            },
        }
        proof {
            assert(should_clear@ =~= s0.spec_clear_mask());
        }
        FsmAction::ClearRequest(f, should_clear)
    }
}

/// `a` asks to clear the buttons `mask` of floor `floor`.
pub open spec fn is_clear_action(a: FsmAction, floor: i8, mask: Seq<bool>) -> bool {
    a matches FsmAction::ClearRequest(fl, m) && fl == floor && m@ == mask
}

impl ElevatorState {
    /// The state with its requests replaced.
    pub open spec fn with_requests(self, requests: ControllerRequests) -> ElevatorState {
        ElevatorState { requests, ..self }
    }

    /// The state moved on to a chosen direction and behaviour.
    pub open spec fn with_choice(self, p: DirectionBehaviourPair) -> ElevatorState {
        ElevatorState { dirn: p.dirn, behaviour: p.behavior, ..self }
    }

    /// Opening the door at the current floor from state `s`: lamp on, timer started,
    /// served buttons cleared and reported; `t` is the state afterwards.
    pub open spec fn door_opened(s: ElevatorState, t: ElevatorState, actions: Seq<FsmAction>) -> bool {
        &&& actions.len() == 3
        &&& actions[0] == FsmAction::DoorLight(true)
        &&& actions[1] == FsmAction::StartDoorTimer(s.door_open_duration)
        &&& is_clear_action(actions[2], s.floor, s.spec_clear_mask())
        &&& Self::cleared_from(t.requests, s.requests, s.floor as int, s.spec_clear_mask())
        &&& t.no_of_timer_threads == s.no_of_timer_threads + 1
        &&& t.floor == s.floor && t.dirn == s.dirn && t.behaviour == s.behaviour
        &&& t.door_open_duration == s.door_open_duration && t.obstruction == s.obstruction
    }

    /// Starts one more door timer.
    pub fn start_time_out_thread(&mut self) -> (a: FsmAction)
        requires
            old(self).no_of_timer_threads < 255,
        ensures
            a == FsmAction::StartDoorTimer(old(self).door_open_duration),
            *final(self) == (ElevatorState {
                no_of_timer_threads: (old(self).no_of_timer_threads + 1) as u8,
                ..*old(self)
            }),
    {
        self.no_of_timer_threads = self.no_of_timer_threads + 1;
        FsmAction::StartDoorTimer(self.door_open_duration)
    }

    /// Opens the door at the current floor: lamp, timer, clearing.
    fn open_door(&mut self) -> (actions: Vec<FsmAction>)
        requires
            valid_floor(old(self).floor),
            old(self).no_of_timer_threads < 255,
        ensures
            Self::door_opened(*old(self), *final(self), actions@),
    {
        let mut actions: Vec<FsmAction> = Vec::new();
        actions.push(FsmAction::DoorLight(true));
        let t = self.start_time_out_thread();
        actions.push(t);
        let c = self.requests_clear_at_current_floor();
        actions.push(c);
        actions
    }

    /// Takes a new request matrix. An idle elevator then chooses where to go:
    /// it opens the door for requests here, starts the motor towards requests
    /// elsewhere, or stays idle. A busy elevator only records the matrix.
    pub fn fsm_on_new_requests(&mut self, requests: ControllerRequests) -> (actions: Vec<FsmAction>)
        requires
            old(self).behaviour == ElevatorBehaviour::Idle ==> {
                let s = old(self).with_requests(requests);
                &&& s.choice_defined()
                &&& s.spec_choose_direction().behavior == ElevatorBehaviour::DoorOpen
                    ==> s.no_of_timer_threads < 255
            },
        ensures
            ({
                let s = old(self).with_requests(requests);
                let p = s.spec_choose_direction();
                let c = s.with_choice(p);
                if old(self).behaviour != ElevatorBehaviour::Idle {
                    *final(self) == s && actions@.len() == 0
                } else {
                    match p.behavior {
                        ElevatorBehaviour::Idle => *final(self) == c && actions@.len() == 0,
                        ElevatorBehaviour::Moving => *final(self) == c && actions@ == seq![
                            FsmAction::MotorDirection(p.dirn),
                        ],
                        ElevatorBehaviour::DoorOpen => Self::door_opened(c, *final(self), actions@),
                    }
                }
            }),
    {
        self.requests = requests;
        match self.behaviour {
            ElevatorBehaviour::Idle => {
                let pair = self.requests_choose_direction();
                self.dirn = pair.dirn;
                self.behaviour = pair.behavior;
                match self.behaviour {
                    ElevatorBehaviour::Idle => Vec::new(),
                    ElevatorBehaviour::DoorOpen => self.open_door(),
                    ElevatorBehaviour::Moving => {
                        let mut actions: Vec<FsmAction> = Vec::new();
                        actions.push(FsmAction::MotorDirection(self.dirn));
                        actions
                    },
                }
            },
            _ => Vec::new(),
        }
    }

    /// Starts between floors: drive down to find a floor.
    pub fn fsm_on_init_between_floors(&mut self) -> (actions: Vec<FsmAction>)
        ensures
            *final(self) == (ElevatorState {
                dirn: Dirn::Down,
                behaviour: ElevatorBehaviour::Moving,
                ..*old(self)
            }),
            actions@ == seq![FsmAction::MotorDirection(Dirn::Down)],
    {
        self.dirn = Dirn::Down;
        self.behaviour = ElevatorBehaviour::Moving;
        let mut actions: Vec<FsmAction> = Vec::new();
        actions.push(FsmAction::MotorDirection(Dirn::Down));
        actions
    }

    /// A door timer expired. Only the last pending timer counts; while the
    /// door is obstructed a new timer is started; otherwise an open door
    /// chooses the next direction and closes, or stays open for requests
    /// here. The resulting state is reported to the manager.
    pub fn fsm_on_door_time_out(&mut self) -> (actions: Vec<FsmAction>)
        requires
            old(self).no_of_timer_threads > 0,
            old(self).no_of_timer_threads == 1 && !old(self).obstruction && old(self).behaviour
                == ElevatorBehaviour::DoorOpen ==> old(self).choice_defined(),
        ensures
            ({
                let s = ElevatorState {
                    no_of_timer_threads: (old(self).no_of_timer_threads - 1) as u8,
                    ..*old(self)
                };
                let p = s.spec_choose_direction();
                let c = s.with_choice(p);
                let n = actions@.len();
                if s.no_of_timer_threads > 0 {
                    *final(self) == s && n == 0
                } else if s.obstruction {
                    *final(self) == (ElevatorState { no_of_timer_threads: 1, ..s })
                        && actions@ == seq![FsmAction::StartDoorTimer(s.door_open_duration)]
                } else {
                    &&& n >= 1
                    &&& actions@[n - 1] == FsmAction::ReportState(
                        final(self).dirn,
                        final(self).behaviour,
                        final(self).floor,
                    )
                    &&& if s.behaviour != ElevatorBehaviour::DoorOpen {
                        *final(self) == s && n == 1
                    } else if p.behavior == ElevatorBehaviour::DoorOpen {
                        &&& n == 3
                        &&& actions@[0] == FsmAction::StartDoorTimer(s.door_open_duration)
                        &&& is_clear_action(actions@[1], c.floor, c.spec_clear_mask())
                        &&& Self::cleared_from(
                            final(self).requests,
                            c.requests,
                            c.floor as int,
                            c.spec_clear_mask(),
                        )
                        &&& final(self).no_of_timer_threads == 1
                        &&& final(self).floor == c.floor && final(self).dirn == c.dirn
                        &&& final(self).behaviour == c.behaviour
                        &&& final(self).door_open_duration == c.door_open_duration
                        &&& final(self).obstruction == c.obstruction
                    } else {
                        &&& *final(self) == c
                        &&& n == 3
                        &&& actions@[0] == FsmAction::DoorLight(false)
                        &&& actions@[1] == FsmAction::MotorDirection(p.dirn)
                    }
                }
            }),
    {
        self.no_of_timer_threads = self.no_of_timer_threads - 1;
        let mut actions: Vec<FsmAction> = Vec::new();
        if self.no_of_timer_threads > 0 {
            return actions;
        }
        if self.obstruction {
            let t = self.start_time_out_thread();
            actions.push(t);
            return actions;
        }
        match self.behaviour {
            ElevatorBehaviour::DoorOpen => {
                let pair = self.requests_choose_direction();
                self.dirn = pair.dirn;
                self.behaviour = pair.behavior;
                match self.behaviour {
                    ElevatorBehaviour::DoorOpen => {
                        let t = self.start_time_out_thread();
                        actions.push(t);
                        let c = self.requests_clear_at_current_floor();
                        actions.push(c);
                    },
                    _ => {
                        actions.push(FsmAction::DoorLight(false));
                        actions.push(FsmAction::MotorDirection(self.dirn));
                    },
                }
            },
            _ => {},
        }
        actions.push(FsmAction::ReportState(self.dirn, self.behaviour, self.floor));
        actions
    }

    /// Records the obstruction switch.
    pub fn fsm_on_obstruction(&mut self, val: bool)
        ensures
            *final(self) == (ElevatorState { obstruction: val, ..*old(self) }),
    {
        self.obstruction = val;
    }

    /// Arrived at `floor`. A moving elevator that should stop there stops,
    /// opens the door, clears the served buttons and starts the door timer.
    /// The floor indicator is set and the state reported in any case.
    pub fn fsm_on_floor_arrival(&mut self, floor: i8) -> (actions: Vec<FsmAction>)
        requires
            old(self).behaviour == ElevatorBehaviour::Moving ==> {
                let s = ElevatorState { floor, ..*old(self) };
                &&& valid_floor(floor)
                &&& s.spec_should_stop() ==> s.no_of_timer_threads < 255
            },
        ensures
            ({
                let s = ElevatorState { floor, ..*old(self) };
                let n = actions@.len();
                &&& n >= 2
                &&& actions@[0] == FsmAction::FloorIndicator(floor as u8)
                &&& actions@[n - 1] == FsmAction::ReportState(
                    final(self).dirn,
                    final(self).behaviour,
                    final(self).floor,
                )
                &&& if s.behaviour == ElevatorBehaviour::Moving && s.spec_should_stop() {
                    &&& n == 6
                    &&& actions@[1] == FsmAction::MotorDirection(Dirn::Stop)
                    &&& actions@[2] == FsmAction::DoorLight(true)
                    &&& is_clear_action(actions@[3], floor, s.spec_clear_mask())
                    &&& actions@[4] == FsmAction::StartDoorTimer(s.door_open_duration)
                    &&& Self::cleared_from(
                        final(self).requests,
                        s.requests,
                        floor as int,
                        s.spec_clear_mask(),
                    )
                    &&& final(self).no_of_timer_threads == s.no_of_timer_threads + 1
                    &&& final(self).behaviour == ElevatorBehaviour::DoorOpen
                    &&& final(self).floor == floor && final(self).dirn == s.dirn
                    &&& final(self).door_open_duration == s.door_open_duration
                    &&& final(self).obstruction == s.obstruction
                } else {
                    *final(self) == s && n == 2
                }
            }),
    {
        self.floor = floor;
        let mut actions: Vec<FsmAction> = Vec::new();
        actions.push(FsmAction::FloorIndicator(floor as u8));
        match self.behaviour {
            ElevatorBehaviour::Moving => {
                if self.requests_should_stop() {
                    actions.push(FsmAction::MotorDirection(Dirn::Stop));
                    actions.push(FsmAction::DoorLight(true));
                    let c = self.requests_clear_at_current_floor();
                    actions.push(c);
                    let t = self.start_time_out_thread();
                    actions.push(t);
                    self.behaviour = ElevatorBehaviour::DoorOpen;
                }
            },
            _ => {},
        }
        actions.push(FsmAction::ReportState(self.dirn, self.behaviour, self.floor));
        actions
    }

    /// The stop button has no effect.
    pub fn fsm_on_stop_button_press(&mut self)
        ensures
            *final(self) == *old(self),
    {
    }
}

/// The elevator goes idle, and stops, exactly when no request is left at,
/// above or below its floor; it opens its doors only for a request at its
/// floor and moves only toward requests.
pub proof fn lemma_choose_direction_laws(s: ElevatorState)
    ensures
        (s.spec_choose_direction().behavior == ElevatorBehaviour::Idle) <==> !(s.spec_here() || s.spec_above()
            || s.spec_below()),
        s.spec_choose_direction().behavior == ElevatorBehaviour::Idle ==> s.spec_choose_direction().dirn
            == Dirn::Stop,
        s.spec_choose_direction().behavior == ElevatorBehaviour::DoorOpen ==> s.spec_here(),
        s.spec_choose_direction().behavior == ElevatorBehaviour::Moving && s.spec_choose_direction().dirn
            == Dirn::Up ==> s.spec_above(),
        s.spec_choose_direction().behavior == ElevatorBehaviour::Moving && s.spec_choose_direction().dirn
            == Dirn::Down ==> s.spec_below(),
        s.spec_choose_direction().behavior == ElevatorBehaviour::Moving ==> s.spec_choose_direction().dirn
            != Dirn::Stop,
{
}

/// A cab request at the floor always stops the elevator there, and a stop
/// clears the cab button and the hall button of the direction of travel.
pub proof fn lemma_stop_and_clear(s: ElevatorState)
    ensures
        cell(s.requests, s.floor as int, CAB as int) ==> s.spec_should_stop(),
        s.dirn == Dirn::Stop ==> s.spec_should_stop(),
        s.spec_clear_mask().len() == CALL_COUNT,
        s.spec_clear_mask()[CAB as int],
        s.dirn == Dirn::Up ==> s.spec_clear_mask()[HALL_UP as int],
        s.dirn == Dirn::Down ==> s.spec_clear_mask()[HALL_DOWN as int],
{
}

/// Going up with a request on some floor above, the elevator keeps going
/// up.
pub proof fn lemma_keeps_going_up(s: ElevatorState, g: int, b: int)
    requires
        s.dirn == Dirn::Up,
        -1 <= s.floor < g < FLOOR_COUNT,
        0 <= b < CALL_COUNT,
        cell(s.requests, g, b),
    ensures
        s.spec_choose_direction() == (DirectionBehaviourPair { dirn: Dirn::Up, behavior: ElevatorBehaviour::Moving }),
{
    assert(floor_has_request(s.requests, g));
}

/// Going down with a request on some floor below, the elevator keeps
/// going down.
pub proof fn lemma_keeps_going_down(s: ElevatorState, g: int, b: int)
    requires
        s.dirn == Dirn::Down,
        0 <= g < s.floor,
        0 <= b < CALL_COUNT,
        cell(s.requests, g, b),
    ensures
        s.spec_choose_direction() == (DirectionBehaviourPair {
            dirn: Dirn::Down,
            behavior: ElevatorBehaviour::Moving,
        }),
{
    assert(floor_has_request(s.requests, g));
}

/// A stopped elevator with a request at its floor opens the door there.
pub proof fn lemma_stopped_opens_for_request_here(s: ElevatorState, b: int)
    requires
        s.dirn == Dirn::Stop,
        valid_floor(s.floor),
        0 <= b < CALL_COUNT,
        cell(s.requests, s.floor as int, b),
    ensures
        s.spec_choose_direction().behavior == ElevatorBehaviour::DoorOpen,
{
    assert(floor_has_request(s.requests, s.floor as int));
}

/// An arriving elevator stops for a cab request there, for a hall call
/// there in its direction of travel, and when no request lies ahead.
pub proof fn lemma_stops_for_calls(s: ElevatorState)
    requires
        valid_floor(s.floor),
    ensures
        cell(s.requests, s.floor as int, CAB as int) ==> s.spec_should_stop(),
        s.dirn == Dirn::Up && cell(s.requests, s.floor as int, HALL_UP as int) ==> s.spec_should_stop(),
        s.dirn == Dirn::Down && cell(s.requests, s.floor as int, HALL_DOWN as int) ==> s.spec_should_stop(),
        s.dirn == Dirn::Up && (forall|g: int, b: int|
            s.floor < g < FLOOR_COUNT && 0 <= b < CALL_COUNT ==> !#[trigger] cell(s.requests, g, b))
            ==> s.spec_should_stop(),
        s.dirn == Dirn::Down && (forall|g: int, b: int|
            0 <= g < s.floor && 0 <= b < CALL_COUNT ==> !#[trigger] cell(s.requests, g, b))
            ==> s.spec_should_stop(),
{
}

/// With a request ahead and neither a cab request nor a hall call in its
/// direction at the floor, an arriving elevator passes the floor by.
pub proof fn lemma_passes_by(s: ElevatorState, g: int, b: int)
    requires
        valid_floor(s.floor),
        0 <= b < CALL_COUNT,
        !cell(s.requests, s.floor as int, CAB as int),
        s.dirn == Dirn::Up ==> s.floor < g < FLOOR_COUNT && !cell(s.requests, s.floor as int, HALL_UP as int),
        s.dirn == Dirn::Down ==> 0 <= g < s.floor && !cell(s.requests, s.floor as int, HALL_DOWN as int),
        s.dirn != Dirn::Stop,
        cell(s.requests, g, b),
    ensures
        !s.spec_should_stop(),
{
    assert(floor_has_request(s.requests, g));
}

/// A stop clears the cab button and the hall button of the direction of
/// travel; the other hall button too once nothing lies ahead (going down:
/// and no one waits here to go down); both when stopped.
pub proof fn lemma_clear_mask_serves_floor(s: ElevatorState)
    requires
        valid_floor(s.floor),
    ensures
        s.spec_clear_mask().len() == CALL_COUNT,
        s.spec_clear_mask()[CAB as int],
        s.dirn != Dirn::Down ==> s.spec_clear_mask()[HALL_UP as int],
        s.dirn != Dirn::Up ==> s.spec_clear_mask()[HALL_DOWN as int],
        s.dirn == Dirn::Up && (forall|g: int, b: int|
            s.floor < g < FLOOR_COUNT && 0 <= b < CALL_COUNT ==> !#[trigger] cell(s.requests, g, b))
            ==> s.spec_clear_mask()[HALL_DOWN as int],
        s.dirn == Dirn::Down && !cell(s.requests, s.floor as int, HALL_DOWN as int) && (forall|g: int, b: int|
            0 <= g < s.floor && 0 <= b < CALL_COUNT ==> !#[trigger] cell(s.requests, g, b))
            ==> s.spec_clear_mask()[HALL_UP as int],
{
}

/// A stop keeps the hall button against the direction of travel while a
/// request lies ahead (going down: also while someone waits here to go
/// down).
pub proof fn lemma_clear_mask_keeps_opposite(s: ElevatorState, g: int, b: int)
    requires
        valid_floor(s.floor),
        0 <= b < CALL_COUNT,
        cell(s.requests, g, b),
    ensures
        s.dirn == Dirn::Up && s.floor < g < FLOOR_COUNT ==> !s.spec_clear_mask()[HALL_DOWN as int],
        s.dirn == Dirn::Down && 0 <= g < s.floor ==> !s.spec_clear_mask()[HALL_UP as int],
        s.dirn == Dirn::Down && cell(s.requests, s.floor as int, HALL_DOWN as int)
            ==> !s.spec_clear_mask()[HALL_UP as int],
{
    assert(floor_has_request(s.requests, g));
}

} // verus!
