//! How a service is run: the kind of process and the commands that start,
//! stop and reload it.

use vstd::prelude::*;

verus! {

/// How the process behind a service behaves.
#[derive(Copy, Clone, Debug, PartialEq, Eq, Structural)]
pub enum Kind {
    /// Runs to completion; exit code 0 means success.
    Oneshot,
    /// Stays in the foreground as our child.
    Simple,
}

impl Default for Kind {
    fn default() -> (r: Kind)
        ensures
            r == Kind::Simple,
    {
        Kind::Simple
    }
}

/// A program path is absolute when it starts at the root.
pub open spec fn is_absolute_path(p: Seq<char>) -> bool {
    p.len() > 0 && p[0] == '/'
}

/// Whether `p` starts at the root.
pub fn path_is_absolute(p: &str) -> (r: bool)
    ensures
        r == is_absolute_path(p@),
{
    if p.is_empty() {
        false
    } else {
        p.get_char(0) == '/'
    }
}

/// A command as an argv vector: `argv[0]` is the program, the rest are its arguments.
///
/// Never empty, and the program is an absolute path: resolving through `PATH` is
/// unreliable early in boot, where the environment may be empty.
#[derive(Debug)]
pub struct Argv(Vec<String>);

/// Why a vector of strings is not a command.
#[derive(Debug)]
pub enum ArgvError {
    /// The vector is empty.
    Empty,
    /// The program (carried here) is not an absolute path.
    NotAbsolute(String),
}

/// The outcome of turning a vector of strings into a command.
pub open spec fn argv_outcome(v: Seq<String>) -> Result<Seq<String>, ArgvError> {
    if v.len() == 0 {
        Err(ArgvError::Empty)
    } else if !is_absolute_path(v[0]@) {
        Err(ArgvError::NotAbsolute(v[0]))
    } else {
        Ok(v)
    }
}

/// What makes a command, spelled out: a vector of words is accepted, whole, exactly
/// when it has a first word and that word begins with `/`; an empty vector is
/// refused as empty, and otherwise the first word is refused as not absolute.
pub proof fn lemma_command_rule(v: Seq<String>)
    ensures
        v.len() >= 1 && v[0]@.len() >= 1 && v[0]@[0] == '/' ==> argv_outcome(v) == Ok::<
            Seq<String>,
            ArgvError,
        >(v),
        v.len() == 0 ==> argv_outcome(v) == Err::<Seq<String>, ArgvError>(ArgvError::Empty),
        v.len() >= 1 && !(v[0]@.len() >= 1 && v[0]@[0] == '/') ==> argv_outcome(v) == Err::<
            Seq<String>,
            ArgvError,
        >(ArgvError::NotAbsolute(v[0])),
{
}

impl View for Argv {
    type V = Seq<String>;

    closed spec fn view(&self) -> Seq<String> {
        self.0@
    }
}

impl Argv {
    #[verifier::type_invariant]
    spec fn well_formed(self) -> bool {
        self.0@.len() > 0 && is_absolute_path(self.0@[0]@)
    }

    /// Every command is non-empty and names an absolute program: a proof that
    /// holds a command learns it here.
    pub fn check_well_formed(&self)
        ensures
            self@.len() >= 1,
            is_absolute_path(self@[0]@),
    {
        proof {
            use_type_invariant(self);
        }
    }

    /// Accepts `argv` when it is non-empty and its program is an absolute path.
    pub fn try_from(argv: Vec<String>) -> (r: Result<Argv, ArgvError>)
        ensures
            match (r, argv_outcome(argv@)) {
                (Ok(a), Ok(v)) => a@ == v,
                (Err(e), Err(f)) => e == f,
                _ => false,
            },
            argv@.len() >= 1 && argv@[0]@.len() >= 1 && argv@[0]@[0] == '/' ==> (r matches Ok(a)
                && a@ == argv@),
    {
        if argv.len() == 0 {
            return Err(ArgvError::Empty);
        }
        if !path_is_absolute(argv[0].as_str()) {
            return Err(ArgvError::NotAbsolute(argv[0].clone()));
        }
        Ok(Argv(argv))
    }

    /// Program and its arguments. Infallible: the vector cannot be empty.
    pub fn split(&self) -> (r: (&String, &[String]))
        ensures
            *r.0 == self@[0],
            r.1@ == self@.subrange(1, self@.len() as int),
            is_absolute_path(r.0@),
    {
        proof {
            use_type_invariant(self);
        }
        let (first, rest) = self.0.as_slice().split_at(1);
        (&first[0], rest)
    }
}

impl Clone for Argv {
    fn clone(&self) -> (r: Argv)
        ensures
            r@ == self@,
    {
        proof {
            use_type_invariant(self);
        }
        let words = self.0.clone();
        assert forall|i: int| 0 <= i < words@.len() implies words@[i] == self.0@[i] by {
            assert(cloned::<String>(self.0[i], words[i]));
        }
        assert(words@ =~= self.0@);
        Argv(words)
    }
}

impl ArgvError {
    /// The message that reports this refusal.
    pub fn to_string(&self) -> (r: String)
        ensures
            r@ == match self {
                ArgvError::Empty => "command is empty"@,
                ArgvError::NotAbsolute(p) => "program path must be absolute: "@ + p@,
            },
    {
        match self {
            ArgvError::Empty => String::from_str("command is empty"),
            ArgvError::NotAbsolute(p) => {
                let mut m = String::from_str("program path must be absolute: ");
                m.append(p.as_str());
                m
            },
        }
    }
}

/// How to run a service.
#[derive(Clone, Debug)]
pub struct ExecSpec {
    pub kind: Kind,
    pub start: Argv,
    pub stop: Option<Argv>,
    pub reload: Option<Argv>,
    pub stop_timeout: Option<std::time::Duration>,
    pub kill_timeout: Option<std::time::Duration>,
}

} // verus!
