//! The final semantic aggregate handed to later passes.

use vstd::prelude::*;
use crate::namespace::{Declaration, ModuleRef, Namespace};

verus! {

/// A complete semantic program: the module registry, the namespace arena,
/// and the declaration arena. Constructed once at the end of the semantic
/// passes; it has no further lifecycle.
pub struct Program {
    pub modules: Vec<(String, ModuleRef)>,
    pub namespaces: Vec<Namespace>,
    pub declarations: Vec<Declaration>,
}

impl Program {
    pub fn new(
        modules: Vec<(String, ModuleRef)>,
        namespaces: Vec<Namespace>,
        declarations: Vec<Declaration>,
    ) -> (r: Program)
        ensures
            r.modules == modules,
            r.namespaces == namespaces,
            r.declarations == declarations,
    {
        Program { modules, namespaces, declarations }
    }
}

} // verus!
