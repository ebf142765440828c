//! The harts of the machine and the process each one runs. The table of
//! harts is handed in by the caller; the id of the running hart comes from
//! its `tp` register.
use vstd::prelude::*;
use crate::process::Pid;

verus! {

#[derive(Clone, Copy, Debug, PartialEq, Eq, Structural)]
pub struct Cpu {
    pub hartid: u64,
    pub pid: Option<Pid>,
}

/// Index of the first hart of `harts` with id `hartid` (meaningful where
/// there is one).
pub open spec fn first_hart(harts: Seq<Cpu>, hartid: u64) -> int {
    choose|i: int|
        0 <= i < harts.len() && harts[i].hartid == hartid && forall|j: int|
            0 <= j < i ==> #[trigger] harts[j].hartid != hartid
}

/// Registers the hart `hartid`, running no process yet.
pub fn init_hart(harts: &mut Vec<Cpu>, hartid: u64)
    ensures
        final(harts)@ == old(harts)@.push(Cpu { hartid, pid: None }),
{
    harts.push(Cpu { hartid, pid: None });
}

/// The entry of the hart `hartid`: the first one registered with that id.
pub fn current_hart(harts: &Vec<Cpu>, hartid: u64) -> (r: Cpu)
    requires
        exists|i: int| 0 <= i < harts@.len() && harts@[i].hartid == hartid,
    ensures
        0 <= first_hart(harts@, hartid) < harts@.len(),
        r == harts@[first_hart(harts@, hartid)],
        r.hartid == hartid,
{
    let mut i: usize = 0;
    while i < harts.len()
        invariant
            i <= harts@.len(),
            forall|j: int| 0 <= j < i ==> harts@[j].hartid != hartid,
            exists|k: int| 0 <= k < harts@.len() && harts@[k].hartid == hartid,
        decreases harts@.len() - i,
    {
        if harts[i].hartid == hartid {
            proof {
                let c = first_hart(harts@, hartid);
                assert(0 <= i < harts@.len() && harts@[i as int].hartid == hartid && forall|j: int|
                    0 <= j < i ==> #[trigger] harts@[j].hartid != hartid);
                assert(0 <= c < harts@.len() && harts@[c].hartid == hartid);
                if c < i {
                    assert(harts@[c].hartid != hartid);
                } else if c > i {
                    assert(harts@[i as int].hartid != hartid);
                }
            }
            return harts[i];
        }
        i = i + 1;
    }
    proof {
        let k = choose|k: int| 0 <= k < harts@.len() && harts@[k].hartid == hartid;
        assert(harts@[k].hartid != hartid);
    }
    harts[0]
}

/// The entry of the hart `hartid`, where one is registered: the first one
/// with that id.
pub fn find_hart(harts: &Vec<Cpu>, hartid: u64) -> (r: Option<Cpu>)
    ensures
        r is Some <==> exists|i: int| 0 <= i < harts@.len() && harts@[i].hartid == hartid,
        r matches Some(c) ==> 0 <= first_hart(harts@, hartid) < harts@.len() && c == harts@[first_hart(
            harts@,
            hartid,
        )],
{
    let mut i: usize = 0;
    while i < harts.len()
        invariant
            i <= harts@.len(),
            forall|j: int| 0 <= j < i ==> harts@[j].hartid != hartid,
        decreases harts@.len() - i,
    {
        if harts[i].hartid == hartid {
            return Some(current_hart(harts, hartid));
        }
        i = i + 1;
    }
    None
}

/// Records that every entry of the hart `hartid` runs the process `pid`.
pub fn current_hart_set_pid(harts: &mut Vec<Cpu>, hartid: u64, pid: Pid)
    ensures
        final(harts)@.len() == old(harts)@.len(),
        forall|i: int|
            0 <= i < old(harts)@.len() ==> #[trigger] final(harts)@[i] == if old(harts)@[i].hartid == hartid {
                Cpu { hartid, pid: Some(pid) }
            } else {
                old(harts)@[i]
            },
{
    let mut i: usize = 0;
    while i < harts.len()
        invariant
            i <= harts@.len(),
            harts@.len() == old(harts)@.len(),
            forall|j: int|
                0 <= j < i ==> #[trigger] harts@[j] == if old(harts)@[j].hartid == hartid {
                    Cpu { hartid, pid: Some(pid) }
                } else {
                    old(harts)@[j]
                },
            forall|j: int| i <= j < harts@.len() ==> #[trigger] harts@[j] == old(harts)@[j],
        decreases harts@.len() - i,
    {
        if harts[i].hartid == hartid {
            harts.set(i, Cpu { hartid, pid: Some(pid) });
        }
        i = i + 1;
    }
}

/// After a hart is told to run a process, it reports that process.
pub proof fn law_set_pid_then_current(harts: Seq<Cpu>, hartid: u64, pid: Pid, after: Seq<Cpu>, i: int)
    requires
        after.len() == harts.len(),
        forall|k: int|
            0 <= k < harts.len() ==> #[trigger] after[k] == if harts[k].hartid == hartid {
                Cpu { hartid, pid: Some(pid) }
            } else {
                harts[k]
            },
        0 <= i < after.len(),
        after[i].hartid == hartid,
    ensures
        after[i].pid == Some(pid),
{
    if harts[i].hartid != hartid {
        assert(after[i] == harts[i]);
    }
}

} // verus!
