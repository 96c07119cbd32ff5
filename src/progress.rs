use vstd::prelude::*;

verus! {

/// An operator port.
#[derive(Copy, Clone, PartialEq, Eq, Structural, PartialOrd, Ord, Hash, Debug)]
pub enum Port {
    /// An operator input.
    Target(usize),
    /// An operator output.
    Source(usize),
}

/// A dataflow location: a scope-local operator and one of its ports.
#[derive(Copy, Clone, PartialEq, Eq, Structural, PartialOrd, Ord, Hash, Debug)]
pub struct Location {
    pub node: usize,
    pub port: Port,
}

/// Names a source of a data stream: a child output, or (index zero) an input from the
/// parent.
#[derive(Copy, Clone, PartialEq, Eq, Structural, PartialOrd, Ord, Debug)]
pub struct Source {
    pub index: usize,
    pub port: usize,
}

/// Names a target of a data stream: a child input, or (index zero) an output to the
/// parent.
#[derive(Copy, Clone, PartialEq, Eq, Structural, PartialOrd, Ord, Debug)]
pub struct Target {
    pub index: usize,
    pub port: usize,
}

impl Location {
    /// A target location (operator input or scope output).
    pub fn new_target(node: usize, port: usize) -> (r: Location)
        ensures
            r == (Location { node, port: Port::Target(port) }),
    {
        Location { node, port: Port::Target(port) }
    }

    /// A source location (operator output or scope input).
    pub fn new_source(node: usize, port: usize) -> (r: Location)
        ensures
            r == (Location { node, port: Port::Source(port) }),
    {
        Location { node, port: Port::Source(port) }
    }

    pub fn is_target(&self) -> (r: bool)
        ensures
            r == self.port is Target,
    {
        match self.port {
            Port::Target(_) => true,
            Port::Source(_) => false,
        }
    }

    pub fn is_source(&self) -> (r: bool)
        ensures
            r == self.port is Source,
    {
        match self.port {
            Port::Source(_) => true,
            Port::Target(_) => false,
        }
    }
}

impl From<Target> for Location {
    fn from(target: Target) -> (r: Location) {
        Location { node: target.index, port: Port::Target(target.port) }
    }
}

impl vstd::std_specs::convert::FromSpecImpl<Target> for Location {
    open spec fn obeys_from_spec() -> bool {
        true
    }

    open spec fn from_spec(target: Target) -> Location {
        Location { node: target.index, port: Port::Target(target.port) }
    }
}

impl From<Source> for Location {
    fn from(source: Source) -> (r: Location) {
        Location { node: source.index, port: Port::Source(source.port) }
    }
}

impl vstd::std_specs::convert::FromSpecImpl<Source> for Location {
    open spec fn obeys_from_spec() -> bool {
        true
    }

    open spec fn from_spec(source: Source) -> Location {
        Location { node: source.index, port: Port::Source(source.port) }
    }
}

} // verus!
