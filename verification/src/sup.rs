//! The supervisor's bookkeeping: which services it knows, how to run each, and
//! where each one stands. Running processes is left to the caller, which reports
//! back what it saw; every state change goes through the lifecycle state machine.

use vstd::prelude::*;

use crate::execspec::{ExecSpec, Kind};
use crate::service::{
    bytes_le, lemma_bytes_le_total, lemma_bytes_le_transitive, ServiceName,
};
use crate::state::{allowed, Flag, Flags, State, Status};
use crate::config::distinct_names;
use crate::unit::Unit;

verus! {

/// The names in a sequence are pairwise distinct.
pub open spec fn distinct(names: Seq<Seq<char>>) -> bool {
    forall|i: int, j: int|
        0 <= i < names.len() && 0 <= j < names.len() && i != j ==> #[trigger] names[i]
            != #[trigger] names[j]
}

/// Names in ascending order of their bytes: the order of `String`s.
pub open spec fn sorted_by_name(names: Seq<ServiceName>) -> bool {
    forall|i: int, j: int|
        0 <= i < j < names.len() ==> bytes_le(#[trigger] names[i].bytes(), #[trigger] names[j].bytes())
}

/// The text of each name, in order.
pub open spec fn name_views(names: Seq<ServiceName>) -> Seq<Seq<char>> {
    names.map_values(|n: ServiceName| n@)
}

/// Some entry of `names` has the text `n`.
spec fn known(names: Seq<ServiceName>, n: Seq<char>) -> bool {
    exists|i: int| 0 <= i < names.len() && names[i]@ == n
}

/// The position of an entry of `names` with the text `n`.
spec fn slot(names: Seq<ServiceName>, n: Seq<char>) -> int {
    choose|i: int| 0 <= i < names.len() && names[i]@ == n
}

/// With distinct names, the entry at `i` is the one found by its own text.
proof fn lemma_slot(names: Seq<ServiceName>, i: int)
    requires
        distinct(name_views(names)),
        0 <= i < names.len(),
    ensures
        known(names, names[i]@),
        slot(names, names[i]@) == i,
{
    let n = names[i]@;
    assert(known(names, n));
    let j = slot(names, n);
    if j != i {
        assert(name_views(names)[i] == n);
        assert(name_views(names)[j] == n);
    }
}

/// Inserting a name at the place where it fits keeps a sequence sorted.
proof fn lemma_insert_sorted(before: Seq<ServiceName>, p: int, x: ServiceName)
    requires
        sorted_by_name(before),
        0 <= p <= before.len(),
        p > 0 ==> bytes_le(before[p - 1].bytes(), x.bytes()),
        forall|q: int| p <= q < before.len() ==> bytes_le(x.bytes(), #[trigger] before[q].bytes()),
    ensures
        sorted_by_name(before.insert(p, x)),
{
    let after = before.insert(p, x);
    assert forall|a: int, c: int| 0 <= a < c < after.len() implies bytes_le(
        #[trigger] after[a].bytes(),
        #[trigger] after[c].bytes(),
    ) by {
        if c < p {
            assert(after[a] == before[a] && after[c] == before[c]);
        } else if c == p {
            assert(after[a] == before[a]);
            if a < p - 1 {
                assert(bytes_le(before[a].bytes(), before[p - 1].bytes()));
                lemma_bytes_le_transitive(before[a].bytes(), before[p - 1].bytes(), x.bytes());
            }
        } else if a == p {
            assert(after[c] == before[c - 1]);
        } else if a < p {
            assert(after[a] == before[a] && after[c] == before[c - 1]);
            assert(bytes_le(before[a].bytes(), before[c - 1].bytes()));
        } else {
            assert(after[a] == before[a - 1] && after[c] == before[c - 1]);
            assert(bytes_le(before[a - 1].bytes(), before[c - 1].bytes()));
        }
    }
}

/// `taken` holds exactly the names of the first `i` entries of `source`.
pub open spec fn taken_from(taken: Seq<ServiceName>, source: Seq<ServiceName>, i: int) -> bool {
    &&& forall|a: int|
        #![trigger taken[a]]
        0 <= a < taken.len() ==> exists|b: int| 0 <= b < i && taken[a]@ == #[trigger] source[b]@
    &&& forall|b: int|
        #![trigger source[b]]
        0 <= b < i ==> exists|a: int| 0 <= a < taken.len() && #[trigger] taken[a]@ == source[b]@
}

/// The next source name differs from every name taken before it.
proof fn lemma_fresh(before: Seq<ServiceName>, source: Seq<ServiceName>, i: int)
    requires
        distinct(name_views(source)),
        0 <= i < source.len(),
        taken_from(before, source, i),
    ensures
        forall|a: int| 0 <= a < before.len() ==> (#[trigger] before[a])@ != source[i]@,
{
    assert forall|a: int| 0 <= a < before.len() implies (#[trigger] before[a])@ != source[i]@ by {
        let b = choose|b: int| 0 <= b < i && before[a]@ == #[trigger] source[b]@;
        assert(name_views(source)[b] == source[b]@);
        assert(name_views(source)[i] == source[i]@);
    }
}

/// Inserting a name not yet present keeps the names distinct.
proof fn lemma_insert_distinct(before: Seq<ServiceName>, p: int, x: ServiceName)
    requires
        distinct(name_views(before)),
        0 <= p <= before.len(),
        forall|a: int| 0 <= a < before.len() ==> (#[trigger] before[a])@ != x@,
    ensures
        distinct(name_views(before.insert(p, x))),
{
    let after = before.insert(p, x);
    assert forall|a: int, c: int|
        0 <= a < after.len() && 0 <= c < after.len() && a != c implies #[trigger] name_views(after)[a]
        != #[trigger] name_views(after)[c] by {
        let ia = if a < p { a } else if a == p { -1 } else { a - 1 };
        let ic = if c < p { c } else if c == p { -1 } else { c - 1 };
        if ia >= 0 && ic >= 0 {
            assert(name_views(before)[ia] != name_views(before)[ic]);
        } else if ia >= 0 {
            assert(after[a] == before[ia]);
        } else if ic >= 0 {
            assert(after[c] == before[ic]);
        }
    }
}

/// Inserting the next source name keeps the sequence made of exactly the
/// source names seen so far.
proof fn lemma_insert_members(
    before: Seq<ServiceName>,
    p: int,
    x: ServiceName,
    source: Seq<ServiceName>,
    i: int,
)
    requires
        0 <= p <= before.len(),
        0 <= i < source.len(),
        x@ == source[i]@,
        taken_from(before, source, i),
    ensures
        taken_from(before.insert(p, x), source, i + 1),
{
    let after = before.insert(p, x);
    assert forall|a: int| #![trigger after[a]] 0 <= a < after.len() implies exists|b: int|
        0 <= b < i + 1 && after[a]@ == #[trigger] source[b]@ by {
        if a == p {
            assert(after[a]@ == source[i]@);
        } else {
            let k = if a < p { a } else { a - 1 };
            assert(after[a] == before[k]);
            let b = choose|b: int| 0 <= b < i && before[k]@ == #[trigger] source[b]@;
            assert(after[a]@ == source[b]@);
        }
    }
    assert forall|b: int| #![trigger source[b]] 0 <= b < i + 1 implies exists|a: int|
        0 <= a < after.len() && #[trigger] after[a]@ == source[b]@ by {
        if b == i {
            assert(after[p]@ == source[b]@);
        } else {
            let a = choose|a: int| 0 <= a < before.len() && #[trigger] before[a]@ == source[b]@;
            if a < p {
                assert(after[a] == before[a]);
                assert(after[a]@ == source[b]@);
            } else {
                assert(after[a + 1] == before[a]);
                assert(after[a + 1]@ == source[b]@);
            }
        }
    }
}

/// Where `x` goes in the sorted `names`: after every name that sorts before it
/// or equals it, scanning from the end.
fn insertion_point(names: &Vec<ServiceName>, x: &ServiceName) -> (p: usize)
    ensures
        p <= names@.len(),
        p > 0 ==> bytes_le(names@[p - 1].bytes(), x.bytes()),
        forall|q: int| p <= q < names@.len() ==> bytes_le(x.bytes(), #[trigger] names@[q].bytes()),
{
    let mut p: usize = names.len();
    while p > 0 && !names[p - 1].le(x)
        invariant
            p <= names@.len(),
            forall|q: int| p <= q < names@.len() ==> bytes_le(x.bytes(), #[trigger] names@[q].bytes()),
        decreases p,
    {
        proof {
            lemma_bytes_le_total(names@[p - 1].bytes(), x.bytes());
        }
        p = p - 1;
    }
    p
}

/// What to run to start a service.
#[derive(Debug)]
pub struct Launch {
    pub kind: Kind,
    pub program: String,
    pub args: Vec<String>,
}

/// A start asked for a service the supervisor does not know.
#[derive(Debug)]
pub struct UnknownService {
    pub name: ServiceName,
}

impl UnknownService {
    /// The message that reports it.
    pub fn to_string(&self) -> (r: String)
        ensures
            r@ == "unknown service "@ + self.name@,
    {
        let mut m = String::from_str("unknown service ");
        m.append(self.name.as_str());
        m
    }
}

/// Why a start did not bring a service up.
#[derive(Copy, Clone, Debug, PartialEq, Eq, Structural)]
pub enum StartFailure {
    /// The program could not be spawned.
    SpawnFailed,
    /// A oneshot ran to completion and reported failure.
    ExitedWithFailure,
    /// A simple service was gone before the readiness probe ended.
    ExitedImmediately,
    /// A simple service exited before its pid could be read.
    PidUnavailable,
    /// The outcome reported is for the other kind of service than the one
    /// named; nothing was changed.
    WrongKind,
}

/// What became of a oneshot's run.
#[derive(Copy, Clone, Debug, PartialEq, Eq, Structural)]
pub enum OneshotOutcome {
    /// The program could not be spawned.
    SpawnFailed,
    /// The program ran to completion; `success` is whether it exited with code 0.
    Exited { success: bool },
}

/// What the readiness probe saw of a simple service.
#[derive(Copy, Clone, Debug, PartialEq, Eq, Structural)]
pub enum ProbeOutcome {
    /// The program could not be spawned.
    SpawnFailed,
    /// The process was gone before the probe ended.
    ExitedImmediately,
    /// The process exited before its pid could be read.
    NoPid,
    /// The process outlived the probe and runs under `pid`.
    Running { pid: u32 },
}

/// `s` moved to `next`; the supervisor asks only for moves the lifecycle allows.
pub open spec fn requested(s: Status, next: State) -> Status {
    Status { state: next, flags: s.flags }
}

/// `s` with `f` set.
pub open spec fn flagged(s: Status, f: Flag) -> Status {
    Status { state: s.state, flags: s.flags.with(f) }
}

/// `s` with `f` cleared.
pub open spec fn unflagged(s: Status, f: Flag) -> Status {
    Status { state: s.state, flags: s.flags.without(f) }
}

/// A start begun: the previous failure is forgotten and the service is Starting.
pub open spec fn begun(s: Status) -> Status {
    requested(unflagged(s, Flag::Failed), State::Starting)
}

/// A start that came up: the service is Started.
pub open spec fn came_up(s: Status) -> Status {
    requested(s, State::Started)
}

/// A start that did not come up: back to Stopped, with the failure remembered.
pub open spec fn failed(s: Status) -> Status {
    flagged(requested(s, State::Stopped), Flag::Failed)
}

/// The process exited: the service is Stopped, and one that went there
/// directly from Started or Inactive, with no stop running, is marked as crashed.
pub open spec fn exited(s: Status) -> Status {
    if s.state == State::Started || s.state == State::Inactive {
        flagged(requested(s, State::Stopped), Flag::Crashed)
    } else {
        requested(s, State::Stopped)
    }
}

/// `after` is `before`'s state or a state the lifecycle allows `before` to move to.
pub open spec fn follows_lifecycle(before: Status, after: Status) -> bool {
    after.state == before.state || allowed(before.state, after.state)
}

/// The same services, each of which stayed in its state or took an allowed transition.
pub open spec fn lifecycle_step(before: Map<Seq<char>, Status>, after: Map<Seq<char>, Status>) -> bool {
    &&& after.dom() == before.dom()
    &&& forall|n: Seq<char>| #[trigger] before.dom().contains(n) ==> follows_lifecycle(before[n], after[n])
}

/// Every status change the supervisor makes is a transition the lifecycle
/// allows: a start from rest, the outcome of a start, an exit of a live service.
pub proof fn lemma_changes_follow_lifecycle(s: Status)
    ensures
        allowed(s.state, State::Starting) ==> allowed(s.state, begun(s).state),
        s.state == State::Starting ==> allowed(s.state, came_up(s).state) && allowed(
            s.state,
            failed(s).state,
        ),
        allowed(s.state, State::Stopped) ==> allowed(s.state, exited(s).state),
{
}

/// Leaving every status as it is is a lifecycle step.
proof fn lemma_step_refl(m: Map<Seq<char>, Status>)
    ensures
        lifecycle_step(m, m),
{
}

/// Replacing one service's status by a change that follows the lifecycle is a
/// lifecycle step of the whole map.
proof fn lemma_update_step(m: Map<Seq<char>, Status>, n: Seq<char>, f: spec_fn(Status) -> Status)
    requires
        m.dom().contains(n) ==> follows_lifecycle(m[n], f(m[n])),
    ensures
        lifecycle_step(m, update(m, n, f)),
{
    let u = update(m, n, f);
    assert(u.dom() =~= m.dom());
    assert forall|k: Seq<char>| #[trigger] m.dom().contains(k) implies follows_lifecycle(m[k], u[k]) by {}
}

/// A start that fails leaves the service Stopped with the failure remembered:
/// never Starting.
pub proof fn lemma_failed_start_ends_stopped(s: Status)
    ensures
        failed(s).state == State::Stopped,
        failed(s).flags@ == s.flags@.insert(Flag::Failed),
{
    s.flags.lemma_with(Flag::Failed);
}

/// A service at rest that is started and comes up ends Started, with no
/// failure left over from an earlier attempt.
pub proof fn lemma_successful_start_ends_started(s: Status)
    requires
        s.state == State::Stopped || s.state == State::Inactive,
    ensures
        allowed(s.state, begun(s).state),
        allowed(begun(s).state, came_up(begun(s)).state),
        came_up(begun(s)).state == State::Started,
        came_up(begun(s)).flags@ == s.flags@.remove(Flag::Failed),
{
    s.flags.lemma_without(Flag::Failed);
}

/// A process that exits leaves its service Stopped; the exit is a crash exactly
/// when the service was Started or Inactive, with no stop running.
pub proof fn lemma_exit_ends_stopped(s: Status)
    ensures
        exited(s).state == State::Stopped,
        s.state == State::Started || s.state == State::Inactive ==> exited(s).flags@
            == s.flags@.insert(Flag::Crashed),
        !(s.state == State::Started || s.state == State::Inactive) ==> exited(s).flags == s.flags,
{
    s.flags.lemma_with(Flag::Crashed);
}

/// A probe that sees the process running, under any pid at all, is a start that
/// came up; every other probe outcome is a failed start. A oneshot comes up
/// exactly when it exits cleanly.
pub proof fn lemma_start_outcomes(pid: u32, s: Status)
    ensures
        simple_result(ProbeOutcome::Running { pid }) == Ok::<(), StartFailure>(()),
        simple_result(ProbeOutcome::SpawnFailed) is Err,
        simple_result(ProbeOutcome::ExitedImmediately) is Err,
        simple_result(ProbeOutcome::NoPid) is Err,
        oneshot_result(OneshotOutcome::Exited { success: true }) == Ok::<(), StartFailure>(()),
        oneshot_result(OneshotOutcome::Exited { success: false }) is Err,
        oneshot_result(OneshotOutcome::SpawnFailed) is Err,
        came_up(s).state == State::Started,
        came_up(s).flags == s.flags,
{
}

/// `m` with the status of `n` replaced by `f` of it, if `n` is known.
pub open spec fn update(
    m: Map<Seq<char>, Status>,
    n: Seq<char>,
    f: spec_fn(Status) -> Status,
) -> Map<Seq<char>, Status> {
    if m.dom().contains(n) {
        m.insert(n, f(m[n]))
    } else {
        m
    }
}

/// What completing a oneshot reports for each outcome.
pub open spec fn oneshot_result(outcome: OneshotOutcome) -> Result<(), StartFailure> {
    match outcome {
        OneshotOutcome::SpawnFailed => Err(StartFailure::SpawnFailed),
        OneshotOutcome::Exited { success } => if success {
            Ok(())
        } else {
            Err(StartFailure::ExitedWithFailure)
        },
    }
}

/// What completing a simple service's start reports for each probe outcome.
pub open spec fn simple_result(outcome: ProbeOutcome) -> Result<(), StartFailure> {
    match outcome {
        ProbeOutcome::SpawnFailed => Err(StartFailure::SpawnFailed),
        ProbeOutcome::ExitedImmediately => Err(StartFailure::ExitedImmediately),
        ProbeOutcome::NoPid => Err(StartFailure::PidUnavailable),
        ProbeOutcome::Running { .. } => Ok(()),
    }
}

/// `n` is a known service of another kind than `k`.
pub open spec fn kind_mismatch(execs: Map<Seq<char>, ExecSpec>, n: Seq<char>, k: Kind) -> bool {
    execs.dom().contains(n) && execs[n].kind != k
}


/// The statuses and pids after the processes of `names` exited, one after
/// another in that order, each handled as [`Supervisor::on_exit`] does.
pub open spec fn after_exits(
    statuses: Map<Seq<char>, Status>,
    pids: Map<Seq<char>, u32>,
    names: Seq<Seq<char>>,
) -> (Map<Seq<char>, Status>, Map<Seq<char>, u32>)
    decreases names.len(),
{
    if names.len() == 0 {
        (statuses, pids)
    } else {
        after_exits(
            update(statuses, names[0], |s: Status| exited(s)),
            pids.remove(names[0]),
            names.drop_first(),
        )
    }
}

/// Handling one more exit after a sequence of exits is handling the longer
/// sequence: exits handled one by one, as each `on_exit` call does, add up to
/// `after_exits` of all of them in the order they came.
pub proof fn lemma_after_exits_push(
    statuses: Map<Seq<char>, Status>,
    pids: Map<Seq<char>, u32>,
    names: Seq<Seq<char>>,
    n: Seq<char>,
)
    ensures
        after_exits(statuses, pids, names.push(n)) == after_exits(
            after_exits(statuses, pids, names).0,
            after_exits(statuses, pids, names).1,
            seq![n],
        ),
    decreases names.len(),
{
    reveal_with_fuel(after_exits, 2);
    if names.len() == 0 {
        assert(names.push(n) =~= seq![n]);
    } else {
        let s1 = update(statuses, names[0], |s: Status| exited(s));
        let p1 = pids.remove(names[0]);
        assert(names.push(n).drop_first() =~= names.drop_first().push(n));
        assert(names.push(n)[0] == names[0]);
        lemma_after_exits_push(s1, p1, names.drop_first(), n);
    }
}

/// Exits handled in sequence: every known service whose process exited ends
/// Stopped with no pid, and the services that did not exit are left as they were.
pub proof fn lemma_exits_in_sequence(
    statuses: Map<Seq<char>, Status>,
    pids: Map<Seq<char>, u32>,
    names: Seq<Seq<char>>,
)
    ensures
        after_exits(statuses, pids, names).0.dom() == statuses.dom(),
        forall|n: Seq<char>|
            names.contains(n) && statuses.dom().contains(n) ==> (#[trigger] after_exits(
                statuses,
                pids,
                names,
            ).0[n]).state == State::Stopped,
        forall|n: Seq<char>|
            names.contains(n) ==> !(#[trigger] after_exits(statuses, pids, names).1.dom().contains(n)),
        forall|n: Seq<char>|
            !names.contains(n) && statuses.dom().contains(n) ==> #[trigger] after_exits(
                statuses,
                pids,
                names,
            ).0[n] == statuses[n],
        forall|n: Seq<char>|
            !names.contains(n) ==> (#[trigger] after_exits(statuses, pids, names).1.dom().contains(n)
                <==> pids.dom().contains(n)) && (pids.dom().contains(n) ==> after_exits(
                statuses,
                pids,
                names,
            ).1[n] == pids[n]),
    decreases names.len(),
{
    if names.len() > 0 {
        let n0 = names[0];
        let s1 = update(statuses, n0, |s: Status| exited(s));
        let p1 = pids.remove(n0);
        let rest = names.drop_first();
        lemma_exits_in_sequence(s1, p1, rest);
        let r = after_exits(statuses, pids, names);
        assert(r == after_exits(s1, p1, rest));
        assert(s1.dom() =~= statuses.dom());
        assert forall|n: Seq<char>| names.contains(n) && statuses.dom().contains(n) implies (
        #[trigger] r.0[n]).state == State::Stopped by {
            if rest.contains(n) {
            } else {
                assert(n == n0) by {
                    let k = choose|k: int| 0 <= k < names.len() && names[k] == n;
                    if k > 0 {
                        assert(rest[k - 1] == n);
                    }
                }
                lemma_exit_ends_stopped(statuses[n0]);
            }
        }
        assert forall|n: Seq<char>| names.contains(n) implies !(#[trigger] r.1.dom().contains(n)) by {
            if !rest.contains(n) {
                assert(n == n0) by {
                    let k = choose|k: int| 0 <= k < names.len() && names[k] == n;
                    if k > 0 {
                        assert(rest[k - 1] == n);
                    }
                }
            }
        }
        assert forall|n: Seq<char>| !names.contains(n) implies !rest.contains(n) && n != n0 by {
            if rest.contains(n) {
                let k = choose|k: int| 0 <= k < rest.len() && rest[k] == n;
                assert(names[k + 1] == n);
            }
            if n == n0 {
                assert(names[0] == n);
            }
        }
    }
}

/// Every service the supervisor knows, with how to run it, its status, and the
/// pid of its live process if it has one.
pub struct Supervisor {
    names: Vec<ServiceName>,
    execs: Vec<ExecSpec>,
    statuses: Vec<Status>,
    pids: Vec<Option<u32>>,
}

impl Supervisor {
    #[verifier::type_invariant]
    spec fn well_formed(self) -> bool {
        &&& self.execs@.len() == self.names@.len()
        &&& self.statuses@.len() == self.names@.len()
        &&& self.pids@.len() == self.names@.len()
        &&& distinct(name_views(self.names@))
        &&& forall|i: int|
            0 <= i < self.names@.len() && (#[trigger] self.pids@[i]) is Some ==> self.execs@[i].kind
                == Kind::Simple
    }

    /// The status of every known service, by name.
    pub closed spec fn statuses(self) -> Map<Seq<char>, Status> {
        Map::new(
            |n: Seq<char>| known(self.names@, n),
            |n: Seq<char>| self.statuses@[slot(self.names@, n)],
        )
    }

    /// The pid of every service with a live process, by name. Only simple
    /// services keep a process: a oneshot leaves nothing running.
    pub closed spec fn pids(self) -> Map<Seq<char>, u32> {
        Map::new(
            |n: Seq<char>|
                known(self.names@, n) && self.pids@[slot(self.names@, n)] is Some
                    && self.execs@[slot(self.names@, n)].kind == Kind::Simple,
            |n: Seq<char>| self.pids@[slot(self.names@, n)]->0,
        )
    }

    /// How to run every known service, by name.
    pub closed spec fn execs(self) -> Map<Seq<char>, ExecSpec> {
        Map::new(
            |n: Seq<char>| known(self.names@, n),
            |n: Seq<char>| self.execs@[slot(self.names@, n)],
        )
    }

    /// The supervisor knows how to run exactly the services it keeps a status
    /// for, and a live process belongs to one of them.
    pub proof fn lemma_known_services(self)
        ensures
            self.execs().dom() == self.statuses().dom(),
            self.pids().dom().subset_of(self.statuses().dom()),
    {
        assert(self.execs().dom() =~= self.statuses().dom());
    }

    /// Only simple services have a live process: a oneshot leaves nothing running.
    pub proof fn lemma_live_processes_are_simple(self)
        ensures
            forall|n: Seq<char>|
                #[trigger] self.pids().dom().contains(n) ==> self.execs().dom().contains(n)
                    && self.execs()[n].kind == Kind::Simple,
    {
    }

    /// The position of `name` among the known services.
    fn position(&self, name: &ServiceName) -> (r: Option<usize>)
        ensures
            r matches Some(i) ==> i < self.names@.len() && self.names@[i as int]@ == name@
                && self.statuses().dom().contains(name@),
            r is None ==> !self.statuses().dom().contains(name@),
    {
        let mut i: usize = 0;
        while i < self.names.len()
            invariant
                i <= self.names@.len(),
                forall|j: int| 0 <= j < i ==> self.names@[j]@ != name@,
            decreases self.names@.len() - i,
        {
            if self.names[i].same_as(name) {
                assert(known(self.names@, name@));
                return Some(i);
            }
            i = i + 1;
        }
        None
    }

    /// Replaces the status of the service at position `i`.
    fn put_status(&mut self, i: usize, status: Status)
        requires
            i < old(self).names@.len(),
        ensures
            final(self).names@ == old(self).names@,
            final(self).statuses() == old(self).statuses().insert(old(self).names@[i as int]@, status),
            final(self).pids() == old(self).pids(),
            final(self).execs() == old(self).execs(),
    {
        proof {
            use_type_invariant(&*self);
            lemma_slot(self.names@, i as int);
        }
        let ghost n = self.names@[i as int]@;
        let ghost before = *self;
        self.statuses[i] = status;
        proof {
            assert forall|m: Seq<char>| known(self.names@, m) && m != n implies slot(self.names@, m) != i by {}
            assert(self.statuses() =~= before.statuses().insert(n, status));
            assert(self.execs() =~= before.execs());
            assert(self.pids() =~= before.pids());
        }
    }

    /// Replaces the pid of the service at position `i`.
    fn put_pid(&mut self, i: usize, pid: Option<u32>)
        requires
            i < old(self).names@.len(),
            pid is Some ==> old(self).execs()[old(self).names@[i as int]@].kind == Kind::Simple,
        ensures
            final(self).names@ == old(self).names@,
            final(self).statuses() == old(self).statuses(),
            pid matches Some(p) ==> final(self).pids() == old(self).pids().insert(
                old(self).names@[i as int]@,
                p,
            ),
            pid is None ==> final(self).pids() == old(self).pids().remove(old(self).names@[i as int]@),
            final(self).execs() == old(self).execs(),
    {
        proof {
            use_type_invariant(&*self);
            lemma_slot(self.names@, i as int);
        }
        let ghost n = self.names@[i as int]@;
        let ghost before = *self;
        assert(pid is Some ==> self.execs@[i as int].kind == Kind::Simple);
        let mut taken = Supervisor {
            names: Vec::new(),
            execs: Vec::new(),
            statuses: Vec::new(),
            pids: Vec::new(),
        };
        std::mem::swap(self, &mut taken);
        let Supervisor { names, execs, statuses, mut pids } = taken;
        pids[i] = pid;
        assert forall|j: int| 0 <= j < names@.len() && (#[trigger] pids@[j]) is Some implies execs@[j].kind
            == Kind::Simple by {
            if j != i {
                assert(pids@[j] == before.pids@[j]);
            }
        }
        *self = Supervisor { names, execs, statuses, pids };
        proof {
            assert forall|m: Seq<char>| known(self.names@, m) && m != n implies slot(self.names@, m) != i by {}
            assert(self.statuses() =~= before.statuses());
            assert(self.execs() =~= before.execs());
            match pid {
                Some(p) => { assert(self.pids() =~= before.pids().insert(n, p)); },
                None => { assert(self.pids() =~= before.pids().remove(n)); },
            }
        }
    }

    /// The status of the service at position `i`.
    fn status_at(&self, i: usize) -> (r: Status)
        requires
            i < self.names@.len(),
        ensures
            r == self.statuses()[self.names@[i as int]@],
    {
        proof {
            use_type_invariant(self);
            lemma_slot(self.names@, i as int);
        }
        self.statuses[i]
    }

    /// The kind of the service at position `i`.
    fn kind_at(&self, i: usize) -> (r: Kind)
        requires
            i < self.names@.len(),
        ensures
            self.execs().dom().contains(self.names@[i as int]@),
            r == self.execs()[self.names@[i as int]@].kind,
    {
        proof {
            use_type_invariant(self);
            lemma_slot(self.names@, i as int);
        }
        self.execs[i].kind
    }

    /// The pid recorded for the service at position `i`.
    fn pid_at(&self, i: usize) -> (r: Option<u32>)
        requires
            i < self.names@.len(),
        ensures
            r is Some <==> self.pids().dom().contains(self.names@[i as int]@),
            r matches Some(p) ==> p == self.pids()[self.names@[i as int]@],
    {
        proof {
            use_type_invariant(self);
            lemma_slot(self.names@, i as int);
        }
        self.pids[i]
    }

    /// The only place that writes a state, so every change is checked by the
    /// lifecycle: the supervisor asks only for transitions it allows.
    fn set_at(&mut self, i: usize, next: State)
        requires
            i < old(self).names@.len(),
            allowed(old(self).statuses()[old(self).names@[i as int]@].state, next),
        ensures
            final(self).names@ == old(self).names@,
            final(self).statuses() == old(self).statuses().insert(
                old(self).names@[i as int]@,
                requested(old(self).statuses()[old(self).names@[i as int]@], next),
            ),
            final(self).pids() == old(self).pids(),
            final(self).execs() == old(self).execs(),
    {
        let mut status = self.status_at(i);
        if let Ok(state) = status.state.transition(next) {
            status.state = state;
        }
        self.put_status(i, status);
    }

    /// Sets (`on`) or clears `flag` on the service at position `i`, leaving its state.
    fn flag_at(&mut self, i: usize, flag: Flag, on: bool)
        requires
            i < old(self).names@.len(),
        ensures
            final(self).names@ == old(self).names@,
            final(self).statuses() == old(self).statuses().insert(
                old(self).names@[i as int]@,
                if on {
                    flagged(old(self).statuses()[old(self).names@[i as int]@], flag)
                } else {
                    unflagged(old(self).statuses()[old(self).names@[i as int]@], flag)
                },
            ),
            final(self).pids() == old(self).pids(),
            final(self).execs() == old(self).execs(),
    {
        let mut status = self.status_at(i);
        if on {
            status.flags.insert(flag);
        } else {
            status.flags.remove(flag);
        }
        self.put_status(i, status);
    }

    /// The status of `name`, if the supervisor knows it.
    pub fn status(&self, name: &ServiceName) -> (r: Option<Status>)
        ensures
            r == (if self.statuses().dom().contains(name@) {
                Some(self.statuses()[name@])
            } else {
                None
            }),
    {
        match self.position(name) {
            Some(i) => Some(self.status_at(i)),
            None => None,
        }
    }

    /// The pid of `name`'s live process, if it has one.
    pub fn pid(&self, name: &ServiceName) -> (r: Option<u32>)
        ensures
            r == (if self.pids().dom().contains(name@) {
                Some(self.pids()[name@])
            } else {
                None
            }),
    {
        proof {
            use_type_invariant(self);
        }
        match self.position(name) {
            Some(i) => self.pid_at(i),
            None => None,
        }
    }

    /// Moves `name` to `next`, a transition the lifecycle allows. Unknown names
    /// are ignored.
    fn set(&mut self, name: &ServiceName, next: State)
        requires
            old(self).statuses().dom().contains(name@) ==> allowed(
                old(self).statuses()[name@].state,
                next,
            ),
        ensures
            final(self).statuses() == update(old(self).statuses(), name@, |s: Status| requested(s, next)),
            final(self).pids() == old(self).pids(),
            final(self).execs() == old(self).execs(),
    {
        match self.position(name) {
            Some(i) => self.set_at(i, next),
            None => {},
        }
    }

    /// A start that never came up: back to Stopped, and remember why. The state
    /// alone cannot express failure, since Stopped is also the resting state.
    fn fail(&mut self, name: &ServiceName)
        requires
            old(self).statuses().dom().contains(name@) ==> allowed(
                old(self).statuses()[name@].state,
                State::Stopped,
            ),
        ensures
            final(self).statuses() == update(old(self).statuses(), name@, |s: Status| failed(s)),
            final(self).pids() == old(self).pids(),
            final(self).execs() == old(self).execs(),
    {
        match self.position(name) {
            Some(i) => {
                self.set_at(i, State::Stopped);
                self.flag_at(i, Flag::Failed, true);
            },
            None => {},
        }
    }

    /// A new attempt supersedes the result of the previous one.
    fn clear_failure(&mut self, name: &ServiceName)
        ensures
            final(self).statuses() == update(
                old(self).statuses(),
                name@,
                |s: Status| unflagged(s, Flag::Failed),
            ),
            final(self).pids() == old(self).pids(),
            final(self).execs() == old(self).execs(),
    {
        match self.position(name) {
            Some(i) => self.flag_at(i, Flag::Failed, false),
            None => {},
        }
    }

    /// The first half of starting `name`, a service at rest: a new attempt clears
    /// the previous failure and moves it to Starting; the command to run comes
    /// back. An unknown name changes nothing.
    pub fn begin_start(&mut self, name: &ServiceName) -> (r: Result<Launch, UnknownService>)
        requires
            old(self).statuses().dom().contains(name@) ==> allowed(
                old(self).statuses()[name@].state,
                State::Starting,
            ),
        ensures
            r is Ok <==> old(self).statuses().dom().contains(name@),
            r matches Err(e) ==> e.name@ == name@,
            final(self).statuses() == update(old(self).statuses(), name@, |s: Status| begun(s)),
            lifecycle_step(old(self).statuses(), final(self).statuses()),
            r matches Ok(launch) ==> {
                let exec = old(self).execs()[name@];
                &&& launch.kind == exec.kind
                &&& launch.program == exec.start@[0]
                &&& launch.args@ == exec.start@.subrange(1, exec.start@.len() as int)
            },
            final(self).pids() == old(self).pids(),
            final(self).execs() == old(self).execs(),
    {
        proof {
            use_type_invariant(&*self);
            if old(self).statuses().dom().contains(name@) {
                lemma_changes_follow_lifecycle(old(self).statuses()[name@]);
            }
            lemma_update_step(old(self).statuses(), name@, |s: Status| begun(s));
        }
        let i = match self.position(name) {
            Some(i) => i,
            None => {
                return Err(UnknownService { name: name.clone() });
            },
        };
        proof {
            lemma_slot(self.names@, i as int);
        }
        let exec = &self.execs[i];
        let kind = exec.kind;
        let (program, rest) = exec.start.split();
        let program = program.clone();
        let mut args: Vec<String> = Vec::new();
        let mut k: usize = 0;
        while k < rest.len()
            invariant
                k <= rest@.len(),
                args@ == rest@.subrange(0, k as int),
            decreases rest@.len() - k,
        {
            args.push(rest[k].clone());
            k = k + 1;
            assert(args@ =~= rest@.subrange(0, k as int));
        }
        assert(args@ =~= rest@);
        self.clear_failure(name);
        self.set(name, State::Starting);
        Ok(Launch { kind, program, args })
    }

    /// The second half of starting a oneshot: a clean exit brings it up with no
    /// process left alive; anything else is a failed start.
    pub fn complete_oneshot(&mut self, name: &ServiceName, outcome: OneshotOutcome) -> (r: Result<
        (),
        StartFailure,
    >)
        requires
            old(self).statuses().dom().contains(name@) ==> old(self).statuses()[name@].state
                == State::Starting,
        ensures
            kind_mismatch(old(self).execs(), name@, Kind::Oneshot) ==> r == Err::<(), StartFailure>(
                StartFailure::WrongKind,
            ) && final(self).statuses() == old(self).statuses(),
            !kind_mismatch(old(self).execs(), name@, Kind::Oneshot) ==> {
                &&& r == oneshot_result(outcome)
                &&& r is Ok ==> final(self).statuses() == update(
                    old(self).statuses(),
                    name@,
                    |s: Status| came_up(s),
                )
                &&& r is Err ==> final(self).statuses() == update(
                    old(self).statuses(),
                    name@,
                    |s: Status| failed(s),
                )
            },
            outcome == (OneshotOutcome::Exited { success: true }) ==> (old(
                self,
            ).statuses().dom().contains(name@) && !kind_mismatch(old(self).execs(), name@, Kind::Oneshot)
                ==> {
                &&& r is Ok
                &&& final(self).statuses()[name@].state == State::Started
                &&& final(self).statuses()[name@].flags == old(self).statuses()[name@].flags
            }),
            final(self).pids() == old(self).pids(),
            lifecycle_step(old(self).statuses(), final(self).statuses()),
            final(self).execs() == old(self).execs(),
    {
        proof {
            if old(self).statuses().dom().contains(name@) {
                lemma_changes_follow_lifecycle(old(self).statuses()[name@]);
            }
            lemma_update_step(old(self).statuses(), name@, |s: Status| came_up(s));
            lemma_update_step(old(self).statuses(), name@, |s: Status| failed(s));
            lemma_step_refl(old(self).statuses());
            self.lemma_known_services();
        }
        match self.position(name) {
            Some(i) => {
                if self.kind_at(i) != Kind::Oneshot {
                    return Err(StartFailure::WrongKind);
                }
            },
            None => {},
        }
        match outcome {
            OneshotOutcome::SpawnFailed => {
                self.fail(name);
                Err(StartFailure::SpawnFailed)
            },
            OneshotOutcome::Exited { success } => {
                if success {
                    self.set(name, State::Started);
                    Ok(())
                } else {
                    self.fail(name);
                    Err(StartFailure::ExitedWithFailure)
                }
            },
        }
    }

    /// The second half of starting a simple service: one that outlived the
    /// readiness probe is up and its pid is recorded; anything else is a failed start.
    pub fn complete_simple(&mut self, name: &ServiceName, outcome: ProbeOutcome) -> (r: Result<
        (),
        StartFailure,
    >)
        requires
            old(self).statuses().dom().contains(name@) ==> old(self).statuses()[name@].state
                == State::Starting,
        ensures
            kind_mismatch(old(self).execs(), name@, Kind::Simple) ==> r == Err::<(), StartFailure>(
                StartFailure::WrongKind,
            ) && final(self).statuses() == old(self).statuses() && final(self).pids() == old(
                self,
            ).pids(),
            !kind_mismatch(old(self).execs(), name@, Kind::Simple) ==> {
                &&& r == simple_result(outcome)
                &&& r is Ok ==> final(self).statuses() == update(
                    old(self).statuses(),
                    name@,
                    |s: Status| came_up(s),
                )
                &&& r is Err ==> final(self).statuses() == update(
                    old(self).statuses(),
                    name@,
                    |s: Status| failed(s),
                )
                &&& final(self).pids() == match outcome {
                    ProbeOutcome::Running { pid } => if old(self).statuses().dom().contains(name@) {
                        old(self).pids().insert(name@, pid)
                    } else {
                        old(self).pids()
                    },
                    _ => old(self).pids(),
                }
            },
            outcome matches ProbeOutcome::Running { pid } ==> (old(self).statuses().dom().contains(
                name@,
            ) && !kind_mismatch(old(self).execs(), name@, Kind::Simple) ==> {
                &&& r is Ok
                &&& final(self).statuses()[name@].state == State::Started
                &&& final(self).statuses()[name@].flags == old(self).statuses()[name@].flags
                &&& final(self).pids().dom().contains(name@)
                &&& final(self).pids()[name@] == pid
            }),
            lifecycle_step(old(self).statuses(), final(self).statuses()),
            final(self).execs() == old(self).execs(),
    {
        proof {
            if old(self).statuses().dom().contains(name@) {
                lemma_changes_follow_lifecycle(old(self).statuses()[name@]);
            }
            lemma_update_step(old(self).statuses(), name@, |s: Status| came_up(s));
            lemma_update_step(old(self).statuses(), name@, |s: Status| failed(s));
            lemma_step_refl(old(self).statuses());
            self.lemma_known_services();
        }
        match self.position(name) {
            Some(i) => {
                if self.kind_at(i) != Kind::Simple {
                    return Err(StartFailure::WrongKind);
                }
            },
            None => {},
        }
        match outcome {
            ProbeOutcome::SpawnFailed => {
                self.fail(name);
                Err(StartFailure::SpawnFailed)
            },
            ProbeOutcome::ExitedImmediately => {
                self.fail(name);
                Err(StartFailure::ExitedImmediately)
            },
            ProbeOutcome::NoPid => {
                self.fail(name);
                Err(StartFailure::PidUnavailable)
            },
            ProbeOutcome::Running { pid } => {
                match self.position(name) {
                    Some(i) => {
                        self.put_pid(i, Some(pid));
                        self.set_at(i, State::Started);
                    },
                    None => {},
                }
                Ok(())
            },
        }
    }

    /// A service's process exited. Its pid is forgotten and it is Stopped; one
    /// that went there directly from Started or Inactive, with no stop running,
    /// crashed, which Stopped alone cannot say.
    pub fn on_exit(&mut self, name: &ServiceName)
        requires
            old(self).statuses().dom().contains(name@) ==> allowed(
                old(self).statuses()[name@].state,
                State::Stopped,
            ),
        ensures
            final(self).statuses() == update(old(self).statuses(), name@, |s: Status| exited(s)),
            final(self).pids() == old(self).pids().remove(name@),
            (final(self).statuses(), final(self).pids()) == after_exits(
                old(self).statuses(),
                old(self).pids(),
                seq![name@],
            ),
            lifecycle_step(old(self).statuses(), final(self).statuses()),
            final(self).execs() == old(self).execs(),
    {
        proof {
            if old(self).statuses().dom().contains(name@) {
                lemma_changes_follow_lifecycle(old(self).statuses()[name@]);
            }
            lemma_update_step(old(self).statuses(), name@, |s: Status| exited(s));
            reveal_with_fuel(after_exits, 2);
            assert(seq![name@].drop_first() =~= Seq::<Seq<char>>::empty());
        }
        match self.position(name) {
            Some(i) => {
                self.put_pid(i, None);
                let crashed = match self.status_at(i).state {
                    State::Started | State::Inactive => true,
                    _ => false,
                };
                self.set_at(i, State::Stopped);
                if crashed {
                    self.flag_at(i, Flag::Crashed, true);
                }
            },
            None => {
                assert(old(self).pids().remove(name@) =~= old(self).pids());
            },
        }
    }

    /// A supervisor for the given services, each Stopped with no flag and no process.
    pub fn new(execs: Vec<(ServiceName, ExecSpec)>) -> (r: Supervisor)
        requires
            distinct(execs@.map_values(|p: (ServiceName, ExecSpec)| p.0@)),
        ensures
            forall|n: Seq<char>|
                r.statuses().dom().contains(n) <==> exists|i: int|
                    0 <= i < execs@.len() && #[trigger] execs@[i].0@ == n,
            forall|i: int|
                0 <= i < execs@.len() ==> {
                    &&& (#[trigger] r.statuses()[execs@[i].0@]).state == State::Stopped
                    &&& r.statuses()[execs@[i].0@].flags@ == Set::<Flag>::empty()
                    &&& r.execs()[execs@[i].0@] == execs@[i].1
                },
            r.execs().dom() == r.statuses().dom(),
            r.pids() == Map::<Seq<char>, u32>::empty(),
    {
        let ghost input = execs@;
        let ghost len = input.len();
        let mut execs = execs;
        let mut names: Vec<ServiceName> = Vec::new();
        let mut specs: Vec<ExecSpec> = Vec::new();
        let mut statuses: Vec<Status> = Vec::new();
        let mut pids: Vec<Option<u32>> = Vec::new();
        while execs.len() > 0
            invariant
                len == input.len(),
                distinct(input.map_values(|p: (ServiceName, ExecSpec)| p.0@)),
                execs@ == input.subrange(0, execs@.len() as int),
                names@.len() + execs@.len() == len,
                specs@.len() == names@.len(),
                statuses@.len() == names@.len(),
                pids@.len() == names@.len(),
                forall|j: int|
                    0 <= j < names@.len() ==> {
                        &&& #[trigger] names@[j] == input[len - 1 - j].0
                        &&& specs@[j] == input[len - 1 - j].1
                        &&& statuses@[j].state == State::Stopped
                        &&& statuses@[j].flags@ == Set::<Flag>::empty()
                        &&& pids@[j] is None
                    },
            decreases execs@.len(),
        {
            let ghost k = execs@.len();
            let ghost (names0, specs0, statuses0, pids0) = (names@, specs@, statuses@, pids@);
            let (name, exec) = execs.pop().unwrap();
            assert(input[k - 1] == (name, exec));
            names.push(name);
            specs.push(exec);
            statuses.push(Status { state: State::Stopped, flags: Flags::empty() });
            pids.push(None);
            assert(execs@ =~= input.subrange(0, execs@.len() as int));
            assert(names@[len - k] == input[len - 1 - (len - k)].0);
            assert(specs@[len - k] == input[len - 1 - (len - k)].1);
            assert forall|j: int| 0 <= j < names0.len() implies names@[j] == names0[j] && specs@[j]
                == specs0[j] && statuses@[j] == statuses0[j] && pids@[j] == pids0[j] by {}
        }
        proof {
            let iv = input.map_values(|p: (ServiceName, ExecSpec)| p.0@);
            assert forall|a: int, b: int|
                0 <= a < names@.len() && 0 <= b < names@.len() && a != b implies #[trigger] name_views(
                names@,
            )[a] != #[trigger] name_views(names@)[b] by {
                assert(iv[len - 1 - a] == names@[a]@);
                assert(iv[len - 1 - b] == names@[b]@);
            }
        }
        assert forall|j: int| 0 <= j < names@.len() implies (#[trigger] pids@[j]) is None by {
            assert(names@[j] == input[len - 1 - j].0);
        }
        let r = Supervisor { names, execs: specs, statuses, pids };
        proof {
            assert forall|n: Seq<char>|
                r.statuses().dom().contains(n) <==> exists|i: int|
                    0 <= i < input.len() && #[trigger] input[i].0@ == n by {
                if r.statuses().dom().contains(n) {
                    let j = slot(r.names@, n);
                    assert(input[len - 1 - j].0@ == n);
                }
                if exists|i: int| 0 <= i < input.len() && #[trigger] input[i].0@ == n {
                    let i = choose|i: int| 0 <= i < input.len() && #[trigger] input[i].0@ == n;
                    assert(r.names@[len - 1 - i]@ == n);
                }
            }
            assert forall|i: int| 0 <= i < input.len() implies {
                &&& (#[trigger] r.statuses()[input[i].0@]).state == State::Stopped
                &&& r.statuses()[input[i].0@].flags@ == Set::<Flag>::empty()
                &&& r.execs()[input[i].0@] == input[i].1
            } by {
                lemma_slot(r.names@, len - 1 - i);
            }
            assert(r.execs().dom() =~= r.statuses().dom());
            assert forall|n: Seq<char>| !r.pids().dom().contains(n) by {
                if known(r.names@, n) {
                    let j = slot(r.names@, n);
                    assert(r.pids@[j] is None);
                }
            }
            assert(r.pids() =~= Map::<Seq<char>, u32>::empty());
        }
        r
    }

    /// A supervisor for every unit: the graph half of each unit (dependencies,
    /// provided names, runlevels) is dropped, since nothing consumes it yet.
    pub fn from_units(units: Vec<Unit>) -> (r: Supervisor)
        requires
            distinct_names(units@),
        ensures
            forall|n: Seq<char>|
                r.statuses().dom().contains(n) <==> exists|i: int|
                    0 <= i < units@.len() && #[trigger] units@[i].name() == n,
            forall|i: int|
                0 <= i < units@.len() ==> {
                    &&& (#[trigger] r.statuses()[units@[i].name()]).state == State::Stopped
                    &&& r.statuses()[units@[i].name()].flags@ == Set::<Flag>::empty()
                    &&& r.execs()[units@[i].name()] == units@[i].exec_spec
                },
            r.execs().dom() == r.statuses().dom(),
            r.pids() == Map::<Seq<char>, u32>::empty(),
    {
        let ghost input = units@;
        let ghost len = input.len();
        let mut units = units;
        let mut pairs: Vec<(ServiceName, ExecSpec)> = Vec::new();
        while units.len() > 0
            invariant
                len == input.len(),
                units@ == input.subrange(0, units@.len() as int),
                pairs@.len() + units@.len() == len,
                forall|j: int|
                    0 <= j < pairs@.len() ==> #[trigger] pairs@[j] == (
                        input[len - 1 - j].service.name,
                        input[len - 1 - j].exec_spec,
                    ),
            decreases units@.len(),
        {
            let ghost k = units@.len();
            let ghost pairs0 = pairs@;
            let unit = units.pop().unwrap();
            assert(input[k - 1] == unit);
            let Unit { service, exec_spec } = unit;
            pairs.push((service.name, exec_spec));
            assert(units@ =~= input.subrange(0, units@.len() as int));
            assert forall|j: int| 0 <= j < pairs0.len() implies pairs@[j] == pairs0[j] by {}
        }
        let ghost pv = pairs@.map_values(|p: (ServiceName, ExecSpec)| p.0@);
        proof {
            assert forall|a: int, b: int|
                0 <= a < pv.len() && 0 <= b < pv.len() && a != b implies #[trigger] pv[a]
                != #[trigger] pv[b] by {
                assert(pairs@[a] == (input[len - 1 - a].service.name, input[len - 1 - a].exec_spec));
                assert(pairs@[b] == (input[len - 1 - b].service.name, input[len - 1 - b].exec_spec));
                assert(input[len - 1 - a].name() != input[len - 1 - b].name());
            }
        }
        let ghost ps = pairs@;
        let r = Supervisor::new(pairs);
        proof {
            assert forall|n: Seq<char>|
                r.statuses().dom().contains(n) <==> exists|i: int|
                    0 <= i < input.len() && #[trigger] input[i].name() == n by {
                if r.statuses().dom().contains(n) {
                    let j = choose|j: int| 0 <= j < ps.len() && #[trigger] ps[j].0@ == n;
                    assert(ps[j] == (input[len - 1 - j].service.name, input[len - 1 - j].exec_spec));
                    assert(input[len - 1 - j].name() == n);
                }
                if exists|i: int| 0 <= i < input.len() && #[trigger] input[i].name() == n {
                    let i = choose|i: int| 0 <= i < input.len() && #[trigger] input[i].name() == n;
                    assert(ps[len - 1 - i] == (input[i].service.name, input[i].exec_spec));
                    assert(ps[len - 1 - i].0@ == n);
                }
            }
            assert forall|i: int| 0 <= i < input.len() implies {
                &&& (#[trigger] r.statuses()[input[i].name()]).state == State::Stopped
                &&& r.statuses()[input[i].name()].flags@ == Set::<Flag>::empty()
                &&& r.execs()[input[i].name()] == input[i].exec_spec
            } by {
                assert(ps[len - 1 - i] == (input[i].service.name, input[i].exec_spec));
                assert(r.statuses()[ps[len - 1 - i].0@].state == State::Stopped);
            }
        }
        r
    }

    /// Every known service, once each, in ascending order of name: the order in
    /// which starting everything goes, until a dependency graph provides one.
    pub fn start_order(&self) -> (r: Vec<ServiceName>)
        ensures
            distinct(name_views(r@)),
            sorted_by_name(r@),
            forall|a: int| 0 <= a < r@.len() ==> self.statuses().dom().contains(#[trigger] r@[a]@),
            forall|n: Seq<char>|
                self.statuses().dom().contains(n) ==> exists|a: int|
                    0 <= a < r@.len() && #[trigger] r@[a]@ == n,
    {
        proof {
            use_type_invariant(self);
        }
        let mut out: Vec<ServiceName> = Vec::new();
        let mut i: usize = 0;
        while i < self.names.len()
            invariant
                i <= self.names@.len(),
                distinct(name_views(self.names@)),
                out@.len() == i,
                distinct(name_views(out@)),
                sorted_by_name(out@),
                taken_from(out@, self.names@, i as int),
            decreases self.names@.len() - i,
        {
            let x = self.names[i].clone();
            let p = insertion_point(&out, &x);
            let ghost before = out@;
            proof {
                assert(before == out@);
                lemma_fresh(before, self.names@, i as int);
            }
            out.insert(p, x);
            proof {
                lemma_insert_sorted(before, p as int, x);
                lemma_insert_distinct(before, p as int, x);
                lemma_insert_members(before, p as int, x, self.names@, i as int);
            }
            i = i + 1;
        }
        proof {
            assert forall|a: int| 0 <= a < out@.len() implies self.statuses().dom().contains(#[trigger] out@[a]@) by {
                let b = choose|b: int| 0 <= b < i && out@[a]@ == #[trigger] self.names@[b]@;
                assert(known(self.names@, out@[a]@));
            }
            assert forall|n: Seq<char>| self.statuses().dom().contains(n) implies exists|a: int|
                0 <= a < out@.len() && #[trigger] out@[a]@ == n by {
                let b = slot(self.names@, n);
                assert(self.names@[b]@ == n);
                let a = choose|a: int| 0 <= a < out@.len() && #[trigger] out@[a]@ == self.names@[b]@;
                assert(out@[a]@ == n);
            }
        }
        out
    }
}

} // verus!
