//! A unit file's contents: the service it declares and how to run it.

use vstd::prelude::*;

use crate::execspec::ExecSpec;
use crate::service::Service;

verus! {

/// One parsed `.service` file.
#[derive(Debug)]
pub struct Unit {
    pub service: Service,
    pub exec_spec: ExecSpec,
}

impl Unit {
    /// The name of the service this unit declares.
    pub open spec fn name(self) -> Seq<char> {
        self.service.name@
    }
}

} // verus!
