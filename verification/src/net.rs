//! The search for a free port.
use vstd::prelude::*;
use vstd::string::*;
use crate::text::{decimal, decimal_text, say3, say4};

verus! {

/// How an attempt to listen on a port ended.
#[derive(Debug)]
pub enum Bind<L, E> {
    Bound(L),
    /// The address is in use.
    InUse,
    Failed(E),
}

/// Where the search stands.
#[derive(Clone, Copy, PartialEq, Eq, Structural, Debug)]
pub enum PortSearch {
    /// A port is tried next.
    Try(u16),
    /// Every port of the range is in use.
    Exhausted,
}

/// The outcome of a search.
#[derive(Debug)]
pub enum PortFound<L, E> {
    Listening(L),
    Failed(E),
    Next(PortSearch),
}

/// Where a search starts.
pub open spec fn first_port(start: u16, max: u16) -> PortSearch {
    if start <= max {
        PortSearch::Try(start)
    } else {
        PortSearch::Exhausted
    }
}

/// Where a search stands after a port in use.
pub open spec fn next_port(port: u16, max: u16) -> PortSearch {
    if port < max {
        PortSearch::Try((port + 1) as u16)
    } else {
        PortSearch::Exhausted
    }
}

/// Where a search stands when the first `n` ports of the range were in use.
pub open spec fn port_after(start: u16, max: u16, n: nat) -> PortSearch
    decreases n,
{
    if n == 0 {
        first_port(start, max)
    } else {
        match port_after(start, max, (n - 1) as nat) {
            PortSearch::Try(p) => next_port(p, max),
            PortSearch::Exhausted => PortSearch::Exhausted,
        }
    }
}

/// A search tries the ports of the range from the first to the last, each once, and
/// is exhausted exactly when all of them were in use.
pub proof fn lemma_port_after(start: u16, max: u16, n: nat)
    ensures
        port_after(start, max, n) == if start + n <= max {
            PortSearch::Try((start + n) as u16)
        } else {
            PortSearch::Exhausted
        },
    decreases n,
{
    if n > 0 {
        lemma_port_after(start, max, (n - 1) as nat);
    }
}

impl PortSearch {
    /// A search for a port from `start` up to `max`.
    pub fn begin(start: u16, max: u16) -> (r: Self)
        ensures
            r == first_port(start, max),
    {
        if start <= max {
            PortSearch::Try(start)
        } else {
            PortSearch::Exhausted
        }
    }

    /// The address that is tried for a port.
    pub fn address(host: &str, port: u16) -> (r: String)
        ensures
            r@ == host@ + ":"@ + decimal(port as nat),
    {
        say3(host, ":", decimal_text(port as u64).as_str())
    }

    /// What follows from how an attempt on a port ended: the first port that could
    /// be bound ends the search, as does any fault other than an address in use.
    pub fn judge<L, E>(port: u16, max: u16, outcome: Bind<L, E>) -> (r: PortFound<L, E>)
        ensures
            r == match outcome {
                Bind::Bound(l) => PortFound::Listening(l),
                Bind::Failed(e) => PortFound::Failed(e),
                Bind::InUse => PortFound::<L, E>::Next(next_port(port, max)),
            },
    {
        match outcome {
            Bind::Bound(l) => PortFound::Listening(l),
            Bind::Failed(e) => PortFound::Failed(e),
            Bind::InUse => PortFound::Next(
                if port < max {
                    PortSearch::Try(port + 1)
                } else {
                    PortSearch::Exhausted
                },
            ),
        }
    }
}

/// The message of an exhausted search.
pub fn no_port_text(start: u16, max: u16) -> (r: String)
    ensures
        r@ == "No available port in range "@ + decimal(start as nat) + "-"@ + decimal(max as nat),
{
    say4(
        "No available port in range ",
        decimal_text(start as u64).as_str(),
        "-",
        decimal_text(max as u64).as_str(),
    )
}

} // verus!
