//! The lifecycle of one service: its states, the transitions between them,
//! and the flags that qualify a state.

use vstd::prelude::*;

verus! {

/// Where a service is in its lifecycle. A service is in exactly one state at a time.
#[derive(Copy, Clone, Debug, PartialEq, Eq, Structural)]
pub enum State {
    /// Not running. The default, resting state: no process, no dependents waiting on it.
    Stopped,
    /// Process is running and considered ready to do its job.
    Started,
    /// `stop()` is currently executing, on its way from Started to Stopped.
    Stopping,
    /// `start()` is currently executing, on its way from Stopped (or Inactive) to Started.
    Starting,
    /// Process is alive but not yet ready to work (still warming up, or waiting on an
    /// external event to finish initialization).
    Inactive,
}

/// The transitions the lifecycle allows: launching, the outcomes of a start,
/// shutting down, the outcomes of a stop, and a process dying on its own.
pub open spec fn allowed(from: State, to: State) -> bool {
    match (from, to) {
        // start() called
        (State::Stopped, State::Starting) => true,
        (State::Inactive, State::Starting) => true,
        // start() resolves: fully up, alive but warming up, failed before coming up
        (State::Starting, State::Started) => true,
        (State::Starting, State::Inactive) => true,
        (State::Starting, State::Stopped) => true,
        // stop() called
        (State::Started, State::Stopping) => true,
        (State::Inactive, State::Stopping) => true,
        // stop() resolves: fully down, aborted while up, aborted while inactive
        (State::Stopping, State::Stopped) => true,
        (State::Stopping, State::Started) => true,
        (State::Stopping, State::Inactive) => true,
        // crash: the process died on its own, no stop() ever ran
        (State::Started, State::Stopped) => true,
        (State::Inactive, State::Stopped) => true,
        _ => false,
    }
}

/// The name a state is printed under.
pub open spec fn state_name(s: State) -> Seq<char> {
    match s {
        State::Stopped => "Stopped"@,
        State::Started => "Started"@,
        State::Stopping => "Stopping"@,
        State::Starting => "Starting"@,
        State::Inactive => "Inactive"@,
    }
}

/// The lifecycle, pair by pair: these twelve moves, and no other, are transitions.
pub proof fn lemma_transition_table(from: State, to: State)
    ensures
        allowed(from, to) <==> {
            ||| from == State::Stopped && to == State::Starting
            ||| from == State::Inactive && to == State::Starting
            ||| from == State::Starting && to == State::Started
            ||| from == State::Starting && to == State::Inactive
            ||| from == State::Starting && to == State::Stopped
            ||| from == State::Started && to == State::Stopping
            ||| from == State::Inactive && to == State::Stopping
            ||| from == State::Stopping && to == State::Stopped
            ||| from == State::Stopping && to == State::Started
            ||| from == State::Stopping && to == State::Inactive
            ||| from == State::Started && to == State::Stopped
            ||| from == State::Inactive && to == State::Stopped
        },
{
}

/// No state transitions to itself.
pub proof fn lemma_no_self_transition(s: State)
    ensures
        !allowed(s, s),
{
}

/// Only a resting service can be started: Starting is entered from Stopped or
/// Inactive and from nowhere else, so a running service goes through a stop first.
pub proof fn lemma_starting_only_from_rest(s: State)
    ensures
        allowed(s, State::Starting) <==> (s == State::Stopped || s == State::Inactive),
{
}

/// Every state but Stopped may fall to Stopped: a start that failed, a stop that
/// finished, or a process that died on its own.
pub proof fn lemma_stopped_from_anywhere(s: State)
    ensures
        s != State::Stopped ==> allowed(s, State::Stopped),
{
}

/// A refused transition, naming both ends.
#[derive(Copy, Clone, Debug, PartialEq, Eq, Structural)]
pub struct InvalidTransition {
    pub from: State,
    pub to: State,
}

impl State {
    /// Moves to `to` if the lifecycle allows it; otherwise names the refused pair.
    pub fn transition(self, to: State) -> (r: Result<State, InvalidTransition>)
        ensures
            allowed(self, to) ==> r == Ok::<State, InvalidTransition>(to),
            !allowed(self, to) ==> r == Err::<State, InvalidTransition>(
                InvalidTransition { from: self, to },
            ),
    {
        let valid = match (self, to) {
            (State::Stopped, State::Starting) | (State::Inactive, State::Starting) => true,
            (State::Starting, State::Started)
            | (State::Starting, State::Inactive)
            | (State::Starting, State::Stopped) => true,
            (State::Started, State::Stopping) | (State::Inactive, State::Stopping) => true,
            (State::Stopping, State::Stopped)
            | (State::Stopping, State::Started)
            | (State::Stopping, State::Inactive) => true,
            (State::Started, State::Stopped) | (State::Inactive, State::Stopped) => true,
            _ => false,
        };
        if valid {
            Ok(to)
        } else {
            Err(InvalidTransition { from: self, to })
        }
    }

    /// The name this state is printed under.
    pub fn name(&self) -> (r: &'static str)
        ensures
            r@ == state_name(*self),
    {
        match self {
            State::Stopped => "Stopped",
            State::Started => "Started",
            State::Stopping => "Stopping",
            State::Starting => "Starting",
            State::Inactive => "Inactive",
        }
    }
}

impl Default for State {
    fn default() -> (r: State)
        ensures
            r == State::Stopped,
    {
        State::Stopped
    }
}

impl InvalidTransition {
    /// The message that reports this refusal.
    pub fn to_string(&self) -> (r: String)
        ensures
            r@ == "invalid state transition: "@ + state_name(self.from) + " -> "@ + state_name(
                self.to,
            ),
    {
        let mut s = String::from_str("invalid state transition: ");
        s.append(self.from.name());
        s.append(" -> ");
        s.append(self.to.name());
        s
    }
}


/// One qualifier a service's status can carry besides its state.
#[derive(Copy, Clone, Debug, PartialEq, Eq, Structural)]
pub enum Flag {
    /// The last start/stop attempt failed, or a hard dependency failed to come up.
    Failed,
    /// Waiting for a service it depends on to become ready before starting itself.
    Scheduled,
    /// The current Starting/Stopping transition began from Inactive, not from Stopped.
    WasInactive,
    /// The service moved directly from Started/Inactive to Stopped: the process died
    /// on its own, no stop() was ever running.
    Crashed,
}

/// The bit a flag occupies in a set of flags.
pub open spec fn flag_bit(f: Flag) -> u8 {
    match f {
        Flag::Failed => 1,
        Flag::Scheduled => 2,
        Flag::WasInactive => 4,
        Flag::Crashed => 8,
    }
}

impl Flag {
    /// The bit this flag occupies in a set of flags.
    pub fn bit(self) -> (r: u8)
        ensures
            r == flag_bit(self),
    {
        match self {
            Flag::Failed => 1,
            Flag::Scheduled => 2,
            Flag::WasInactive => 4,
            Flag::Crashed => 8,
        }
    }
}

/// A set of [`Flag`]s, one bit each.
#[derive(Copy, Clone, Debug, PartialEq, Eq, Structural)]
pub struct Flags {
    bits: u8,
}

impl View for Flags {
    type V = Set<Flag>;

    closed spec fn view(&self) -> Set<Flag> {
        Set::new(|f: Flag| self.bits & flag_bit(f) != 0)
    }
}

/// Facts about the four flag bits that the set operations rest on.
proof fn lemma_flag_bits(b: u8)
    ensures
        b < 16 ==> (b == 0 <==> (b & 1 == 0 && b & 2 == 0 && b & 4 == 0 && b & 8 == 0)),
        b < 16 ==> (b | 1) < 16 && (b | 2) < 16 && (b | 4) < 16 && (b | 8) < 16,
        (b & !1u8) < 16 || b >= 16,
        (b & !2u8) < 16 || b >= 16,
        (b & !4u8) < 16 || b >= 16,
        (b & !8u8) < 16 || b >= 16,
{
    assert(b < 16 ==> (b == 0 <==> (b & 1 == 0 && b & 2 == 0 && b & 4 == 0 && b & 8 == 0)))
        by (bit_vector);
    assert(b < 16 ==> (b | 1) < 16 && (b | 2) < 16 && (b | 4) < 16 && (b | 8) < 16)
        by (bit_vector);
    assert((b & !1u8) < 16 || b >= 16) by (bit_vector);
    assert((b & !2u8) < 16 || b >= 16) by (bit_vector);
    assert((b & !4u8) < 16 || b >= 16) by (bit_vector);
    assert((b & !8u8) < 16 || b >= 16) by (bit_vector);
}

/// Setting the bit of one flag leaves the bits of the others as they were.
proof fn lemma_or_bit(b: u8, m: u8, k: u8)
    requires
        m == 1 || m == 2 || m == 4 || m == 8,
        k == 1 || k == 2 || k == 4 || k == 8,
    ensures
        ((b | m) & k != 0) == ((b & k != 0) || m == k),
{
    assert(((b | m) & k != 0) == ((b & k != 0) || m == k)) by (bit_vector)
        requires
            m == 1 || m == 2 || m == 4 || m == 8,
            k == 1 || k == 2 || k == 4 || k == 8,
    ;
}

/// Clearing the bit of one flag leaves the bits of the others as they were.
proof fn lemma_clear_bit(b: u8, m: u8, k: u8)
    requires
        m == 1 || m == 2 || m == 4 || m == 8,
        k == 1 || k == 2 || k == 4 || k == 8,
    ensures
        ((b & !m) & k != 0) == ((b & k != 0) && m != k),
{
    assert(((b & !m) & k != 0) == ((b & k != 0) && m != k)) by (bit_vector)
        requires
            m == 1 || m == 2 || m == 4 || m == 8,
            k == 1 || k == 2 || k == 4 || k == 8,
    ;
}

impl Flags {
    /// Marks a failed start or stop.
    pub const FAILED: Flag = Flag::Failed;

    /// Marks a start deferred until a dependency is ready.
    pub const SCHEDULED: Flag = Flag::Scheduled;

    /// Marks a transition that began from Inactive.
    pub const WAS_INACTIVE: Flag = Flag::WasInactive;

    /// Marks a process that died on its own.
    pub const CRASHED: Flag = Flag::Crashed;

    #[verifier::type_invariant]
    spec fn only_known_bits(self) -> bool {
        self.bits < 16
    }

    /// This set with `f` added.
    pub closed spec fn with(self, f: Flag) -> Flags {
        Flags { bits: self.bits | flag_bit(f) }
    }

    /// This set with `f` taken out.
    pub closed spec fn without(self, f: Flag) -> Flags {
        Flags { bits: self.bits & !flag_bit(f) }
    }

    /// Adding a flag adds it to the set and nothing else.
    pub proof fn lemma_with(self, f: Flag)
        ensures
            self.with(f)@ == self@.insert(f),
    {
        assert forall|g: Flag| self.with(f)@.contains(g) == self@.insert(f).contains(g) by {
            lemma_or_bit(self.bits, flag_bit(f), flag_bit(g));
        }
        assert(self.with(f)@ =~= self@.insert(f));
    }

    /// Taking a flag out removes it from the set and nothing else.
    pub proof fn lemma_without(self, f: Flag)
        ensures
            self.without(f)@ == self@.remove(f),
    {
        assert forall|g: Flag| self.without(f)@.contains(g) == self@.remove(f).contains(g) by {
            lemma_clear_bit(self.bits, flag_bit(f), flag_bit(g));
        }
        assert(self.without(f)@ =~= self@.remove(f));
    }

    /// The empty set.
    pub fn empty() -> (r: Flags)
        ensures
            r@ == Set::<Flag>::empty(),
    {
        let r = Flags { bits: 0 };
        assert forall|f: Flag| !r@.contains(f) by {
            assert(0u8 & flag_bit(f) == 0) by (bit_vector);
        }
        assert(r@ =~= Set::<Flag>::empty());
        r
    }

    /// Whether no flag is set.
    pub fn is_empty(&self) -> (r: bool)
        ensures
            r == (self@ == Set::<Flag>::empty()),
    {
        proof {
            use_type_invariant(self);
            lemma_flag_bits(self.bits);
            if self.bits != 0 {
                let f = if self.bits & 1 != 0 {
                    Flag::Failed
                } else if self.bits & 2 != 0 {
                    Flag::Scheduled
                } else if self.bits & 4 != 0 {
                    Flag::WasInactive
                } else {
                    Flag::Crashed
                };
                assert(self@.contains(f));
                assert(self@ != Set::<Flag>::empty());
            } else {
                assert forall|f: Flag| !self@.contains(f) by {
                    assert(0u8 & flag_bit(f) == 0) by (bit_vector);
                }
                assert(self@ =~= Set::<Flag>::empty());
            }
        }
        self.bits == 0
    }

    /// Whether `f` is set.
    pub fn contains(&self, f: Flag) -> (r: bool)
        ensures
            r == self@.contains(f),
    {
        self.bits & f.bit() != 0
    }

    /// Sets `f`, leaving the other flags as they were.
    pub fn insert(&mut self, f: Flag)
        ensures
            *final(self) == old(self).with(f),
            final(self)@ == old(self)@.insert(f),
    {
        proof {
            use_type_invariant(&*self);
            lemma_flag_bits(self.bits);
        }
        let ghost before = self@;
        let m = f.bit();
        self.bits = self.bits | m;
        assert forall|g: Flag| self@.contains(g) == before.insert(f).contains(g) by {
            lemma_or_bit(old(self).bits, m, flag_bit(g));
        }
        assert(self@ =~= before.insert(f));
    }

    /// Clears `f`, leaving the other flags as they were.
    pub fn remove(&mut self, f: Flag)
        ensures
            *final(self) == old(self).without(f),
            final(self)@ == old(self)@.remove(f),
    {
        proof {
            use_type_invariant(&*self);
            lemma_flag_bits(self.bits);
        }
        let ghost before = self@;
        let m = f.bit();
        self.bits = self.bits & !m;
        assert forall|g: Flag| self@.contains(g) == before.remove(f).contains(g) by {
            lemma_clear_bit(old(self).bits, m, flag_bit(g));
        }
        assert(self@ =~= before.remove(f));
    }
}

impl Default for Flags {
    fn default() -> (r: Flags)
        ensures
            r@ == Set::<Flag>::empty(),
    {
        Flags::empty()
    }
}

/// A service's state together with the flags that qualify it.
#[derive(Copy, Clone, Debug, PartialEq, Eq, Structural)]
pub struct Status {
    pub state: State,
    pub flags: Flags,
}

impl Default for Status {
    /// Stopped, with no flag set.
    fn default() -> (r: Status)
        ensures
            r.state == State::Stopped,
            r.flags@ == Set::<Flag>::empty(),
    {
        Status { state: State::Stopped, flags: Flags::empty() }
    }
}

/// Why a service was last started. A service has exactly one origin at a time.
#[derive(Copy, Clone, Debug, PartialEq, Eq, Structural)]
pub enum Origin {
    /// A member of the runlevel currently being brought up.
    Runlevel,
    /// Started in response to a hardware or device event, outside any runlevel.
    Hotplugged,
    /// Pulled in because another running or starting service needs it.
    Needed,
    /// Started directly by a user command.
    Manual,
}

} // verus!
