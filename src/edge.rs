use vstd::prelude::*;
use crate::prelude::PunterId;

verus! {

/// Index of a site after the sites have been renumbered densely from 0.
pub type Node = usize;

/// Position of an edge in the game's edge list.
pub type EdgeIndex = usize;

/// Ownership of one river.
#[derive(Debug, Clone, Copy, PartialEq, Eq, Structural)]
pub enum Claimed {
    NotYet,
    Claimed(PunterId),
    /// Claimed by the first punter, then optioned by the second.
    Optioned(PunterId, PunterId),
}

/// The state after punter `me` claims (or, with `is_option`, options) an
/// edge in state `c`; `None` when the rules refuse the action.
pub open spec fn claim_outcome(c: Claimed, me: PunterId, is_option: bool) -> Option<Claimed> {
    match c {
        Claimed::NotYet => Some(Claimed::Claimed(me)),
        Claimed::Claimed(p) => if is_option && p != me {
            Some(Claimed::Optioned(p, me))
        } else {
            None
        },
        Claimed::Optioned(_, _) => None,
    }
}

/// Punter `p` owns an edge in state `c`, alone or with another punter.
pub open spec fn owned_by(c: Claimed, p: PunterId) -> bool {
    match c {
        Claimed::NotYet => false,
        Claimed::Claimed(p0) => p0 == p,
        Claimed::Optioned(p0, p1) => p0 == p || p1 == p,
    }
}

impl Claimed {
    pub fn is_empty(&self) -> (r: bool)
        ensures
            r == (*self == Claimed::NotYet),
    {
        match *self {
            Claimed::NotYet => true,
            Claimed::Claimed(_) => false,
            Claimed::Optioned(_, _) => false,
        }
    }

    /// Applies a claim (or an option) by `me`; a refused action leaves the
    /// state as it was.
    pub fn claim(&mut self, me: PunterId, is_option: bool) -> (r: Result<(), ()>)
        ensures
            r is Ok <==> claim_outcome(*old(self), me, is_option) is Some,
            r is Ok ==> *final(self) == claim_outcome(*old(self), me, is_option).unwrap(),
            r is Err ==> *final(self) == *old(self),
    {
        match *self {
            Claimed::NotYet => {
                *self = Claimed::Claimed(me);
                Ok(())
            },
            Claimed::Claimed(p) => {
                if is_option {
                    if p == me {
                        Err(())
                    } else {
                        *self = Claimed::Optioned(p, me);
                        Ok(())
                    }
                } else {
                    Err(())
                }
            },
            Claimed::Optioned(_, _) => Err(()),
        }
    }

    /// Whether punter `p` owns the edge.
    pub fn is_owned_by(&self, p: PunterId) -> (r: bool)
        ensures
            r == owned_by(*self, p),
    {
        match *self {
            Claimed::NotYet => false,
            Claimed::Claimed(p0) => p0 == p,
            Claimed::Optioned(p0, p1) => p0 == p || p1 == p,
        }
    }
}

/// A river between two nodes, stored with `source < target`.
#[derive(Debug, Clone, Copy, PartialEq, Eq, Structural)]
pub struct Edge {
    pub source: Node,
    pub target: Node,
    pub claimed: Claimed,
}

impl Edge {
    pub fn is_empty(&self) -> (r: bool)
        ensures
            r == (self.claimed == Claimed::NotYet),
    {
        self.claimed.is_empty()
    }

    /// Claims (or options) the edge for `me`; a refused action is discarded.
    pub fn claim(&mut self, me: PunterId, is_option: bool)
        ensures
            final(self).source == old(self).source,
            final(self).target == old(self).target,
            final(self).claimed == match claim_outcome(old(self).claimed, me, is_option) {
                Some(c) => c,
                None => old(self).claimed,
            },
    {
        let _ = self.claimed.claim(me, is_option);
    }
}

/// A claim of the edge between two nodes, in canonical orientation.
#[derive(Debug, Clone, Copy, PartialEq, Eq, Structural)]
pub struct EdgeClaim {
    pub punter: PunterId,
    pub source: Node,
    pub target: Node,
}

impl EdgeClaim {
    pub fn new(punter: PunterId, source: Node, target: Node) -> (r: EdgeClaim)
        ensures
            r.punter == punter,
            r.source == if source <= target { source } else { target },
            r.target == if source <= target { target } else { source },
    {
        if source <= target {
            EdgeClaim { punter, source, target }
        } else {
            EdgeClaim { punter, source: target, target: source }
        }
    }
}

/// An entry of a node's adjacency list: the node at the other end and the
/// edge that leads there.
#[derive(Debug, Clone, Copy, PartialEq, Eq, Structural)]
pub struct AdjEdge {
    pub target: Node,
    pub edge_index: EdgeIndex,
}

} // verus!
