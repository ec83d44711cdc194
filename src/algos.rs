use vstd::prelude::*;
use crate::grid::Coord;

verus! {

/// What a search shows after a step: the frontier and the finished cells while it
/// runs, the path and the finished cells once a target is reached, or that no
/// target can be reached.
pub enum AlgoStatus {
    InProgress((Vec<Coord>, Vec<Coord>)),
    Found(Vec<Coord>, Vec<Coord>),
    NoPath,
}

impl AlgoStatus {
    pub open spec fn is_terminal(&self) -> bool {
        !(self is InProgress)
    }
}

/// A search that runs one step at a time and shows its state between steps.
pub trait Algorithm {
    /// The invariant of the search.
    spec fn valid(&self) -> bool;

    /// The status that the search shows.
    spec fn current(&self) -> AlgoStatus;

    /// The number of cells waiting on the frontier.
    spec fn frontier_len(&self) -> nat;

    /// The number of finished cells.
    spec fn finished_len(&self) -> nat;

    /// One step of work: a running search finishes one more cell, or, with an empty
    /// frontier, ends with `NoPath`. Once the search has ended, nothing changes.
    fn tick(&mut self)
        requires
            old(self).valid(),
        ensures
            final(self).valid(),
            old(self).current().is_terminal() ==> final(self).current() == old(self).current(),
            !old(self).current().is_terminal() ==> (old(self).frontier_len() == 0 && final(self).current() is NoPath
                && final(self).finished_len() == old(self).finished_len()) || (old(self).frontier_len() > 0
                && final(self).finished_len() == old(self).finished_len() + 1),
    ;

    /// The status after the last step.
    fn get_data(&self) -> (r: &AlgoStatus)
        requires
            self.valid(),
        ensures
            *r == self.current(),
    ;
}

/// The search strategies that the library offers, in a fixed order.
#[derive(Debug, Clone, Copy, PartialEq, Eq, Structural)]
pub enum Algo {
    AStar,
    Dijkstra,
}

/// The position of each strategy in the fixed order.
pub open spec fn algo_index(a: Algo) -> nat {
    match a {
        Algo::AStar => 0,
        Algo::Dijkstra => 1,
    }
}

pub open spec fn algo_name(a: Algo) -> Seq<char> {
    match a {
        Algo::AStar => seq!['A', '*'],
        Algo::Dijkstra => seq!['D', 'i', 'j', 'k', 's', 't', 'r', 'a'],
    }
}

impl Algo {
    /// The display name of the strategy.
    pub fn name(&self) -> (r: String)
        ensures
            r@ == algo_name(*self),
    {
        match self {
            Algo::AStar => {
                let r = String::from_str("A*");
                proof {
                    reveal_strlit("A*");
                }
                r
            },
            Algo::Dijkstra => {
                let r = String::from_str("Dijkstra");
                proof {
                    reveal_strlit("Dijkstra");
                }
                r
            },
        }
    }

    /// The number of strategies.
    pub fn len() -> (r: usize)
        ensures
            r == 2,
            forall|a: Algo| algo_index(a) < r,
    {
        2
    }

    /// The strategy at position `idx` of the fixed order.
    pub fn from_index(idx: usize) -> (r: Algo)
        requires
            idx < 2,
        ensures
            algo_index(r) == idx,
    {
        if idx == 0 {
            Algo::AStar
        } else {
            Algo::Dijkstra
        }
    }

    /// Whether the strategy takes a heuristic.
    pub fn supported_heuristics(&self) -> (r: bool)
        ensures
            r == (*self == Algo::AStar),
    {
        match self {
            Algo::AStar => true,
            Algo::Dijkstra => false,
        }
    }
}

} // verus!
