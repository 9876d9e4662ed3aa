use vstd::prelude::*;

verus! {

pub const WRITE: usize = 1;
pub const READ: usize = 2;
pub const SIGNAL: usize = 4;

/// What a router can do besides claiming streams: write, read (and unread),
/// and take signals about runs.
#[derive(Debug, Clone, Copy, PartialEq, Eq, Structural)]
pub struct RouterSupport {
    pub bits: usize,
}

impl RouterSupport {
    pub fn from_bits(bits: usize) -> (r: RouterSupport)
        ensures
            r.bits == bits,
    {
        RouterSupport { bits }
    }

    pub open spec fn has(&self, flag: usize) -> bool {
        self.bits & flag == flag
    }

    /// Whether every capability of `flag` is supported.
    pub fn contains(&self, flag: usize) -> (r: bool)
        ensures
            r == self.has(flag),
    {
        self.bits & flag == flag
    }
}

/// The engine callbacks installed for a router.
#[derive(Debug, Clone, Copy, PartialEq, Eq, Structural)]
pub struct RouterSlots {
    pub query: bool,
    pub write: bool,
    pub read: bool,
    pub unread: bool,
    pub exit: bool,
}

/// The callbacks to install for a router: the query and exit callbacks always,
/// the write callback only for a writing router, and the read and unread
/// callbacks only for a reading one. The engine calls no callback that is not
/// installed, so a router that does not read is never asked to read or unread.
pub fn router_slots(supports: RouterSupport) -> (r: RouterSlots)
    ensures
        r.query && r.exit,
        r.write == supports.has(WRITE),
        r.read == supports.has(READ),
        r.unread == supports.has(READ),
{
    RouterSlots {
        query: true,
        write: supports.contains(WRITE),
        read: supports.contains(READ),
        unread: supports.contains(READ),
        exit: true,
    }
}

/// What a read or unread callback hands the engine: the character code, or
/// -1 for none.
pub fn character_or_none(c: Option<i32>) -> (r: i32)
    ensures
        r as int == (match c {
            Some(x) => x as int,
            None => -1int,
        }),
{
    match c {
        Some(x) => x,
        None => -1,
    }
}

/// A notice to the routers about a run of the rules, with its limit on the
/// number of rules to fire, if any.
#[derive(Debug, Clone, Copy, PartialEq, Eq, Structural)]
pub enum CLIPSSignal {
    RunStarted { limit: Option<usize> },
    RunFinished { limit: Option<usize> },
}

/// The routers, by position, that are sent a signal: those that take signals,
/// in order.
pub fn signal_recipients(supports: &Vec<RouterSupport>) -> (r: Vec<usize>)
    ensures
        r@ == Seq::new(supports@.len(), |i: int| i).filter(|i: int| supports@[i].has(SIGNAL)).map_values(|i: int| i as usize),
        forall|k: int| 0 <= k < r@.len() ==> r@[k] < supports@.len() && supports@[r@[k] as int].has(SIGNAL),
        forall|i: int| 0 <= i < supports@.len() && supports@[i].has(SIGNAL) ==> r@.contains(i as usize),
        r@.no_duplicates(),
{
    let ghost idx = Seq::new(supports@.len(), |i: int| i);
    let mut r: Vec<usize> = Vec::new();
    let mut i: usize = 0;
    while i < supports.len()
        invariant
            0 <= i <= supports@.len(),
            idx == Seq::new(supports@.len(), |i: int| i),
            r@ == idx.take(i as int).filter(|i: int| supports@[i].has(SIGNAL)).map_values(|i: int| i as usize),
            forall|k: int| 0 <= k < r@.len() ==> r@[k] < i && supports@[r@[k] as int].has(SIGNAL),
            forall|a: int, b: int| 0 <= a < b < r@.len() ==> r@[a] < r@[b],
            forall|j: int| 0 <= j < i && supports@[j].has(SIGNAL) ==> r@.contains(j as usize),
        decreases supports@.len() - i,
    {
        let ghost before = r@;
        proof {
            assert(idx.take(i + 1) =~= idx.take(i as int).push(i as int));
            reveal(Seq::filter);
            assert(idx.take(i + 1).drop_last() =~= idx.take(i as int));
        }
        if supports[i].contains(SIGNAL) {
            r.push(i);
            proof {
                assert(r@ =~= idx.take(i + 1).filter(|i: int| supports@[i].has(SIGNAL)).map_values(|i: int| i as usize));
                assert forall|j: int| 0 <= j < i + 1 && supports@[j].has(SIGNAL) implies r@.contains(j as usize) by {
                    if j < i {
                        let k = choose|k: int| 0 <= k < before.len() && before[k] == j as usize;
                        assert(r@[k] == j as usize);
                    } else {
                        assert(r@[r@.len() - 1] == j as usize);
                    }
                }
            }
        } else {
            proof {
                assert(r@ =~= idx.take(i + 1).filter(|i: int| supports@[i].has(SIGNAL)).map_values(|i: int| i as usize));
            }
        }
        i = i + 1;
    }
    assert(idx.take(i as int) =~= idx);
    assert forall|a: int, b: int| 0 <= a < r@.len() && 0 <= b < r@.len() && a != b implies r@[a] != r@[b] by {
        if a < b {
            assert(r@[a] < r@[b]);
        } else {
            assert(r@[b] < r@[a]);
        }
    }
    r
}

} // verus!
