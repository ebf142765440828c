//! What an address space gives back of what was written into it.
use vstd::prelude::*;
use crate::mm::phys_mem::PhysMem;
use crate::mm::kalloc::Kallocator;
use crate::mm::pgtbl::Pgtbl;
use crate::mm::memory_space::{fill_inv, phys_of, src_byte};

verus! {

/// The bytes that `map_area_data_each_byte` wrote into an area read back
/// through the same translation: a run of bytes of the area inside one page,
/// as `copy_virtual_address` reads it, is the run of the data written there.
pub proof fn law_read_back_area(
    pt: Pgtbl,
    mem0: PhysMem,
    alloc0: Kallocator,
    mem: PhysMem,
    alloc: Kallocator,
    s: u64,
    e: u64,
    fl: u64,
    data: Seq<u8>,
    src: u64,
    len: int,
)
    requires
        fill_inv(pt, mem0, alloc0, mem, alloc, s, e, e, fl, data, false),
        s <= src,
        0 <= len,
        src + len <= e,
        len > 0 ==> src / 4096 == (src + len - 1) / 4096,
    ensures
        forall|k: int|
            0 <= k < len ==> #[trigger] mem.byte(phys_of(mem, pt.root.0 as int, src) + k) == data[src - s + k],
{
    let root = pt.root.0 as int;
    assert forall|k: int| 0 <= k < len implies #[trigger] mem.byte(phys_of(mem, root, src) + k) == data[src - s
        + k] by {
        let b = (src + k) as u64;
        assert(b / 4096 == src / 4096 && b % 4096 == src % 4096 + k) by (nonlinear_arith)
            requires
                b == src + k,
                0 <= k < len,
                src / 4096 == (src + len - 1) / 4096,
        ;
        assert(s <= b < e);
        assert(mem.byte(phys_of(mem, root, b)) == src_byte(data, false, b - s));
    }
}

} // verus!
