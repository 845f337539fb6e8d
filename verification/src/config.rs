use vstd::prelude::*;

verus! {

/// A desk remembered between runs: its advertised name and its address.
#[derive(Debug, Clone)]
pub struct DeskTarget {
    pub name: String,
    pub address: String,
}

/// The saved settings: the remembered desk, if any.
#[derive(Debug, Clone)]
pub struct Config {
    pub desk: Option<DeskTarget>,
}

impl Default for Config {
    /// No desk remembered.
    fn default() -> (c: Config)
        ensures
            c.desk is None,
    {
        Config { desk: None }
    }
}

} // verus!
