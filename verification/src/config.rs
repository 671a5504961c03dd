//! Gathering parsed units into a set in which no two units share a name.

use vstd::prelude::*;

use crate::service::ServiceName;
use crate::unit::Unit;
use vstd::utf8::encode_utf8;

verus! {

/// The bytes of `.service`.
pub open spec fn service_suffix() -> Seq<u8> {
    seq![0x2eu8, 0x73u8, 0x65u8, 0x72u8, 0x76u8, 0x69u8, 0x63u8, 0x65u8]
}

/// A file name whose extension is `service`: it ends in `.service`, and something
/// comes before that dot (a name that is only `.service` has no extension).
pub open spec fn is_service_file_name(name: Seq<u8>) -> bool {
    name.len() > 8 && name.subrange(name.len() - 8, name.len() as int) == service_suffix()
}

/// Unit files are recognised by name alone, at any length: a file name is a unit
/// file exactly when it is a non-empty stem followed by the bytes of `.service`.
pub proof fn lemma_service_file_rule(name: Seq<u8>)
    ensures
        is_service_file_name(name) <==> exists|stem: Seq<u8>|
            stem.len() >= 1 && name == stem + seq![46u8, 115u8, 101u8, 114u8, 118u8, 105u8, 99u8, 101u8],
{
    let suffix = seq![46u8, 115u8, 101u8, 114u8, 118u8, 105u8, 99u8, 101u8];
    assert(suffix =~= service_suffix());
    if is_service_file_name(name) {
        let stem = name.subrange(0, name.len() - 8);
        assert(name =~= stem + suffix);
    }
    if exists|stem: Seq<u8>| stem.len() >= 1 && name == stem + suffix {
        let stem = choose|stem: Seq<u8>| stem.len() >= 1 && name == stem + suffix;
        assert(name.subrange(name.len() - 8, name.len() as int) =~= suffix);
    }
}

/// Every non-empty stem followed by `.service` names a unit file.
pub proof fn lemma_stem_with_suffix_is_service_file(stem: Seq<u8>)
    requires
        stem.len() >= 1,
    ensures
        is_service_file_name(stem + seq![46u8, 115u8, 101u8, 114u8, 118u8, 105u8, 99u8, 101u8]),
{
    lemma_service_file_rule(stem + seq![46u8, 115u8, 101u8, 114u8, 118u8, 105u8, 99u8, 101u8]);
}

/// Whether a directory entry with this file name is a unit file.
pub fn is_service_file(file_name: &str) -> (r: bool)
    ensures
        r == is_service_file_name(encode_utf8(file_name@)),
{
    let b = file_name.as_bytes();
    let n = b.len();
    if n <= 8 {
        return false;
    }
    let r = b[n - 8] == 0x2e && b[n - 7] == 0x73 && b[n - 6] == 0x65 && b[n - 5] == 0x72 && b[n
        - 4] == 0x76 && b[n - 3] == 0x69 && b[n - 2] == 0x63 && b[n - 1] == 0x65;
    proof {
        let tail = b@.subrange(n - 8, n as int);
        if r {
            assert(tail =~= service_suffix());
        } else {
            if tail == service_suffix() {
                assert(tail[0] == b@[n - 8]);
                assert(tail[1] == b@[n - 7]);
                assert(tail[2] == b@[n - 6]);
                assert(tail[3] == b@[n - 5]);
                assert(tail[4] == b@[n - 4]);
                assert(tail[5] == b@[n - 3]);
                assert(tail[6] == b@[n - 2]);
                assert(tail[7] == b@[n - 1]);
            }
        }
    }
    r
}

/// Two files that declare the same service name.
#[derive(Debug)]
pub struct DuplicateName {
    pub name: ServiceName,
    /// The file that declared the name first.
    pub first: String,
    /// The file that declared it again.
    pub second: String,
}

impl DuplicateName {
    /// The message that reports the clash, naming both files.
    pub fn to_string(&self) -> (r: String)
        ensures
            r@ == "duplicate service name `"@ + self.name@ + "`: "@ + self.first@ + " and "@
                + self.second@,
    {
        let mut m = String::from_str("duplicate service name `");
        m.append(self.name.as_str());
        m.append("`: ");
        m.append(self.first.as_str());
        m.append(" and ");
        m.append(self.second.as_str());
        m
    }
}

/// The names in a sequence of units are pairwise distinct.
pub open spec fn distinct_names(units: Seq<Unit>) -> bool {
    forall|i: int, j: int|
        0 <= i < units.len() && 0 <= j < units.len() && i != j ==> #[trigger] units[i].name()
            != #[trigger] units[j].name()
}

/// Units gathered in the order they were read, each with the file it came from.
pub struct UnitSet {
    units: Vec<Unit>,
    paths: Vec<String>,
}

impl UnitSet {
    #[verifier::type_invariant]
    spec fn well_formed(self) -> bool {
        &&& self.units@.len() == self.paths@.len()
        &&& distinct_names(self.units@)
    }

    /// The units gathered so far, in order.
    pub closed spec fn units(self) -> Seq<Unit> {
        self.units@
    }

    /// The file each unit came from, in the same order.
    pub closed spec fn paths(self) -> Seq<Seq<char>> {
        self.paths@.map_values(|p: String| p@)
    }

    /// An empty set.
    pub fn new() -> (r: UnitSet)
        ensures
            r.units() == Seq::<Unit>::empty(),
            r.paths() == Seq::<Seq<char>>::empty(),
    {
        let r = UnitSet { units: Vec::new(), paths: Vec::new() };
        assert(r.paths() =~= Seq::<Seq<char>>::empty());
        r
    }

    /// Gathered units never share a name, and each has the file it came from: a
    /// proof that holds a set learns it here.
    pub fn check_well_formed(&self)
        ensures
            distinct_names(self.units()),
            self.units().len() == self.paths().len(),
    {
        proof {
            use_type_invariant(self);
        }
    }

    /// The position of the unit named `name`, if one was gathered.
    fn position(&self, name: &ServiceName) -> (r: Option<usize>)
        ensures
            r matches Some(i) ==> i < self.units@.len() && self.units@[i as int].name() == name@,
            r is None ==> forall|i: int|
                0 <= i < self.units@.len() ==> self.units@[i].name() != name@,
    {
        let mut i: usize = 0;
        while i < self.units.len()
            invariant
                i <= self.units@.len(),
                forall|j: int| 0 <= j < i ==> self.units@[j].name() != name@,
            decreases self.units@.len() - i,
        {
            if self.units[i].service.name.same_as(name) {
                return Some(i);
            }
            i = i + 1;
        }
        None
    }

    /// Adds the unit read from `path`, unless a unit of the same name is already
    /// there: then the set is left as it was and the clash names both files.
    pub fn insert(&mut self, path: String, unit: Unit) -> (r: Result<(), DuplicateName>)
        ensures
            (exists|i: int| 0 <= i < old(self).units().len() && old(self).units()[i].name() == unit.name())
                <==> r is Err,
            final(self).units().len() == final(self).paths().len(),
            r is Ok ==> final(self).units() == old(self).units().push(unit) && final(self).paths()
                == old(self).paths().push(path@),
            r matches Err(e) ==> {
                &&& final(self).units() == old(self).units()
                &&& final(self).paths() == old(self).paths()
                &&& e.name@ == unit.name()
                &&& e.second@ == path@
                &&& exists|i: int|
                    0 <= i < old(self).units().len() && old(self).units()[i].name() == unit.name()
                        && old(self).paths()[i] == e.first@
            },
    {
        proof {
            use_type_invariant(&*self);
        }
        match self.position(&unit.service.name) {
            Some(i) => {
                let first = self.paths[i].clone();
                assert(self.paths()[i as int] == first@);
                assert(self.units()[i as int].name() == unit.name());
                Err(DuplicateName { name: unit.service.name, first, second: path })
            },
            None => {
                let ghost old_units = self.units@;
                let ghost old_paths = self.paths();
                let ghost p = path@;
                let ghost n = unit.name();
                let mut taken = UnitSet::new();
                std::mem::swap(self, &mut taken);
                let UnitSet { mut units, mut paths } = taken;
                units.push(unit);
                paths.push(path);
                assert(paths@.map_values(|q: String| q@) =~= old_paths.push(p));
                assert(distinct_names(units@)) by {
                    assert forall|i: int, j: int|
                        0 <= i < units@.len() && 0 <= j < units@.len() && i != j
                        implies #[trigger] units@[i].name() != #[trigger] units@[j].name() by {
                        if i < old_units.len() && j < old_units.len() {
                            assert(units@[i] == old_units[i]);
                            assert(units@[j] == old_units[j]);
                        }
                    }
                }
                *self = UnitSet { units, paths };
                Ok(())
            },
        }
    }

    /// The gathered units, in the order they were added.
    pub fn into_units(self) -> (r: Vec<Unit>)
        ensures
            r@ == self.units(),
            distinct_names(r@),
    {
        proof {
            use_type_invariant(&self);
        }
        self.units
    }
}

} // verus!
