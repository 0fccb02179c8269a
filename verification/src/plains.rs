//! Plains of existence.

use crate::domains::Domain;
use vstd::prelude::*;

verus! {

/// A plain of existence: a name, whether it was created, and a drawn domain.
#[derive(Debug)]
pub struct Plain {
    name: String,
    domain: Domain,
    created: bool,
}

impl Plain {
    pub closed spec fn name_of(&self) -> Seq<char> {
        self.name@
    }

    pub closed spec fn domain_of(&self) -> Domain {
        self.domain
    }

    pub closed spec fn is_created(&self) -> bool {
        self.created
    }

    /// A plain with the given name and flag, and a freshly drawn domain.
    pub fn new(name: String, created: bool) -> (p: Plain)
        ensures
            p.name_of() == name@,
            p.is_created() == created,
            p.domain_of().is_generated(),
            p.domain_of().ranks_set(),
    {
        Plain { name, created, domain: Domain::gen_domain() }
    }
}

} // verus!
