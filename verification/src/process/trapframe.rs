//! The frame in which a trap saves the user registers, with access to the
//! registers by their ABI names.
use vstd::prelude::*;
use vstd::string::*;
use crate::mm::address::PhysPageNum;
use crate::mm::phys_mem::PhysMem;
use crate::mm::memory_space::MemorySpace;
use crate::trap::context::{user_mode_sstatus, set_spp_user};

verus! {

/// The slot that a register name selects: 0 to 31 for the general registers
/// (`fp` and `s0` name the same one), 32 for `sepc`, 33 for `sstatus`, 34 for
/// `satp`, and -1 for any other name.
pub open spec fn register_slot(name: Seq<char>) -> int {
    if name == "zero"@ {
        0
    } else if name == "ra"@ {
        1
    } else if name == "sp"@ {
        2
    } else if name == "gp"@ {
        3
    } else if name == "tp"@ {
        4
    } else if name == "t0"@ {
        5
    } else if name == "t1"@ {
        6
    } else if name == "t2"@ {
        7
    } else if name == "fp"@ {
        8
    } else if name == "s0"@ {
        8
    } else if name == "s1"@ {
        9
    } else if name == "a0"@ {
        10
    } else if name == "a1"@ {
        11
    } else if name == "a2"@ {
        12
    } else if name == "a3"@ {
        13
    } else if name == "a4"@ {
        14
    } else if name == "a5"@ {
        15
    } else if name == "a6"@ {
        16
    } else if name == "a7"@ {
        17
    } else if name == "s2"@ {
        18
    } else if name == "s3"@ {
        19
    } else if name == "s4"@ {
        20
    } else if name == "s5"@ {
        21
    } else if name == "s6"@ {
        22
    } else if name == "s7"@ {
        23
    } else if name == "s8"@ {
        24
    } else if name == "s9"@ {
        25
    } else if name == "s10"@ {
        26
    } else if name == "s11"@ {
        27
    } else if name == "t3"@ {
        28
    } else if name == "t4"@ {
        29
    } else if name == "t5"@ {
        30
    } else if name == "t6"@ {
        31
    } else if name == "sepc"@ {
        32
    } else if name == "sstatus"@ {
        33
    } else if name == "satp"@ {
        34
    } else {
        -1
    }
}

/// The two strings hold the same characters.
fn str_eq(a: &str, b: &str) -> (r: bool)
    ensures
        r == (a@ == b@),
{
    let n = a.unicode_len();
    if n != b.unicode_len() {
        return false;
    }
    let mut i: usize = 0;
    while i < n
        invariant
            n == a@.len(),
            n == b@.len(),
            i <= n,
            forall|k: int| 0 <= k < i ==> a@[k] == b@[k],
        decreases n - i,
    {
        if a.get_char(i) != b.get_char(i) {
            return false;
        }
        i = i + 1;
    }
    assert(a@ =~= b@);
    true
}

/// The slot of a register name, `None` for an unknown name.
pub fn register_index(name: &str) -> (r: Option<usize>)
    ensures
        r matches Some(k) ==> k == register_slot(name@) && k < 35,
        r is None <==> register_slot(name@) == -1,
{
        if str_eq(name, "zero") {
            Some(0)
        } else if str_eq(name, "ra") {
            Some(1)
        } else if str_eq(name, "sp") {
            Some(2)
        } else if str_eq(name, "gp") {
            Some(3)
        } else if str_eq(name, "tp") {
            Some(4)
        } else if str_eq(name, "t0") {
            Some(5)
        } else if str_eq(name, "t1") {
            Some(6)
        } else if str_eq(name, "t2") {
            Some(7)
        } else if str_eq(name, "fp") {
            Some(8)
        } else if str_eq(name, "s0") {
            Some(8)
        } else if str_eq(name, "s1") {
            Some(9)
        } else if str_eq(name, "a0") {
            Some(10)
        } else if str_eq(name, "a1") {
            Some(11)
        } else if str_eq(name, "a2") {
            Some(12)
        } else if str_eq(name, "a3") {
            Some(13)
        } else if str_eq(name, "a4") {
            Some(14)
        } else if str_eq(name, "a5") {
            Some(15)
        } else if str_eq(name, "a6") {
            Some(16)
        } else if str_eq(name, "a7") {
            Some(17)
        } else if str_eq(name, "s2") {
            Some(18)
        } else if str_eq(name, "s3") {
            Some(19)
        } else if str_eq(name, "s4") {
            Some(20)
        } else if str_eq(name, "s5") {
            Some(21)
        } else if str_eq(name, "s6") {
            Some(22)
        } else if str_eq(name, "s7") {
            Some(23)
        } else if str_eq(name, "s8") {
            Some(24)
        } else if str_eq(name, "s9") {
            Some(25)
        } else if str_eq(name, "s10") {
            Some(26)
        } else if str_eq(name, "s11") {
            Some(27)
        } else if str_eq(name, "t3") {
            Some(28)
        } else if str_eq(name, "t4") {
            Some(29)
        } else if str_eq(name, "t5") {
            Some(30)
        } else if str_eq(name, "t6") {
            Some(31)
        } else if str_eq(name, "sepc") {
            Some(32)
        } else if str_eq(name, "sstatus") {
            Some(33)
        } else if str_eq(name, "satp") {
            Some(34)
        } else {
            None
        }
}

#[derive(Clone, Copy, Debug, PartialEq, Eq)]
pub struct TrapFrame {
    pub general_reg: [u64; 32],
    // Privileged registers
    pub sstatus: u64,
    pub sepc: u64,
    pub satp: u64,
    pub kernel_satp: u64,
    pub kernel_sp: u64,
    pub trap_handler: u64,
}

/// Number of 64-bit words of a trap frame in memory, in the order of its
/// fields: the 32 general registers, sstatus, sepc, satp, kernel satp,
/// kernel stack pointer, trap handler.
pub const TRAPFRAME_WORDS: usize = 38;

/// Bit 63 of satp selects the Sv39 scheme.
pub open spec fn sv39_satp(root: u64) -> u64 {
    root | 0x8000_0000_0000_0000u64
}

impl TrapFrame {
    /// The value of a slot (see `register_slot`).
    pub open spec fn slot_value(self, k: int) -> u64 {
        if 0 <= k < 32 {
            self.general_reg@[k]
        } else if k == 32 {
            self.sepc
        } else if k == 33 {
            self.sstatus
        } else {
            self.satp
        }
    }

    /// The two frames agree on every slot but `k`, and on the kernel fields.
    pub open spec fn same_except(self, other: Self, k: int) -> bool {
        &&& forall|j: int| 0 <= j < 35 && j != k ==> #[trigger] self.slot_value(j) == other.slot_value(j)
        &&& self.kernel_satp == other.kernel_satp
        &&& self.kernel_sp == other.kernel_sp
        &&& self.trap_handler == other.trap_handler
    }

    /// Word `i` of the frame as it lies in memory.
    pub open spec fn word(self, i: int) -> u64 {
        if 0 <= i < 32 {
            self.general_reg@[i]
        } else if i == 32 {
            self.sstatus
        } else if i == 33 {
            self.sepc
        } else if i == 34 {
            self.satp
        } else if i == 35 {
            self.kernel_satp
        } else if i == 36 {
            self.kernel_sp
        } else {
            self.trap_handler
        }
    }

    /// Frame `p` of `mem` holds this trap frame.
    pub open spec fn stored_in(self, mem: PhysMem, p: int) -> bool {
        forall|i: int| 0 <= i < TRAPFRAME_WORDS ==> #[trigger] mem.word(p, i) == self.word(i)
    }

    /// Word `i` of the frame as it lies in memory.
    pub fn word_at(&self, i: usize) -> (r: u64)
        requires
            i < TRAPFRAME_WORDS,
        ensures
            r == self.word(i as int),
    {
        if i < 32 {
            self.general_reg[i]
        } else if i == 32 {
            self.sstatus
        } else if i == 33 {
            self.sepc
        } else if i == 34 {
            self.satp
        } else if i == 35 {
            self.kernel_satp
        } else if i == 36 {
            self.kernel_sp
        } else {
            self.trap_handler
        }
    }

    /// Writes the frame into the first words of frame `page`.
    pub fn store(&self, mem: &mut PhysMem, page: PhysPageNum)
        requires
            old(mem).wf(),
            old(mem).has_page(page.0 as int),
        ensures
            final(mem).wf(),
            self.stored_in(*final(mem), page.0 as int),
            forall|i: int|
                TRAPFRAME_WORDS <= i < 512 ==> #[trigger] final(mem).word(page.0 as int, i) == old(mem).word(
                    page.0 as int,
                    i,
                ),
            old(mem).same_outside(*final(mem), set![page.0 as int]),
    {
        let mut i: usize = 0;
        while i < TRAPFRAME_WORDS
            invariant
                mem.wf(),
                mem.has_page(page.0 as int),
                i <= TRAPFRAME_WORDS,
                forall|j: int| 0 <= j < i ==> #[trigger] mem.word(page.0 as int, j) == self.word(j),
                forall|j: int|
                    i <= j < 512 ==> #[trigger] mem.word(page.0 as int, j) == old(mem).word(page.0 as int, j),
                old(mem).same_outside(*mem, set![page.0 as int]),
            decreases TRAPFRAME_WORDS - i,
        {
            mem.write_page_word(page, i as u64, self.word_at(i));
            i = i + 1;
        }
    }

    /// Reads the trap frame that the first words of frame `page` hold.
    pub fn load(mem: &PhysMem, page: PhysPageNum) -> (r: Self)
        requires
            mem.wf(),
            mem.has_page(page.0 as int),
        ensures
            r.stored_in(*mem, page.0 as int),
    {
        let mut general_reg: [u64; 32] = [0; 32];
        let mut i: usize = 0;
        while i < 32
            invariant
                mem.wf(),
                mem.has_page(page.0 as int),
                i <= 32,
                forall|j: int| 0 <= j < i ==> #[trigger] general_reg@[j] == mem.word(page.0 as int, j),
            decreases 32 - i,
        {
            general_reg[i] = mem.read_page_word(page, i as u64);
            i = i + 1;
        }
        TrapFrame {
            general_reg,
            sstatus: mem.read_page_word(page, 32),
            sepc: mem.read_page_word(page, 33),
            satp: mem.read_page_word(page, 34),
            kernel_satp: mem.read_page_word(page, 35),
            kernel_sp: mem.read_page_word(page, 36),
            trap_handler: mem.read_page_word(page, 37),
        }
    }

    /// Prepares the frame to enter the user program of `memory_space`: stack
    /// pointer at the top of the user stack, the address space and entry
    /// point of `memory_space`, user mode on return (from the current value
    /// `sstatus` of the status register), and the trap handler.
    pub fn from_memory_space(&mut self, memory_space: MemorySpace, sstatus: u64, trap_handler: u64)
        ensures
            final(self).general_reg@ == old(self).general_reg@.update(2, 1024),
            final(self).satp == sv39_satp(memory_space.page_table.root.0),
            final(self).sepc == memory_space.entry,
            final(self).sstatus == user_mode_sstatus(sstatus),
            final(self).trap_handler == trap_handler,
            final(self).kernel_satp == old(self).kernel_satp,
            final(self).kernel_sp == old(self).kernel_sp,
    {
        self.general_reg[2] = memory_space.get_stack();
        self.satp = memory_space.page_table.root.0 | 0x8000000000000000;
        self.sepc = memory_space.entry();
        self.sstatus = set_spp_user(sstatus);
        self.trap_handler = trap_handler;
    }

    /// A zeroed frame whose trap handler is `trap_handler`.
    pub fn default(trap_handler: u64) -> (r: Self)
        ensures
            forall|k: int| 0 <= k < 32 ==> r.general_reg@[k] == 0,
            r.sstatus == 0,
            r.sepc == 0,
            r.satp == 0,
            r.kernel_satp == 0,
            r.kernel_sp == 0,
            r.trap_handler == trap_handler,
    {
        Self {
            general_reg: [0; 32],
            sstatus: 0,
            sepc: 0,
            satp: 0,
            // Set by the process control block
            kernel_satp: 0,
            kernel_sp: 0,
            trap_handler,
        }
    }

    /// The register that `name` names.
    pub fn index(&self, name: &str) -> (r: u64)
        requires
            register_slot(name@) >= 0,
        ensures
            r == self.slot_value(register_slot(name@)),
    {
        match register_index(name) {
            Some(k) => {
                if k < 32 {
                    self.general_reg[k]
                } else if k == 32 {
                    self.sepc
                } else if k == 33 {
                    self.sstatus
                } else {
                    self.satp
                }
            },
            None => 0,
        }
    }

    /// Replaces the register that `name` names.
    pub fn index_mut(&mut self, name: &str, value: u64)
        requires
            register_slot(name@) >= 0,
        ensures
            final(self).slot_value(register_slot(name@)) == value,
            old(self).same_except(*final(self), register_slot(name@)),
    {
        match register_index(name) {
            Some(k) => {
                if k < 32 {
                    self.general_reg[k] = value;
                } else if k == 32 {
                    self.sepc = value;
                } else if k == 33 {
                    self.sstatus = value;
                } else {
                    self.satp = value;
                }
            },
            None => {},
        }
    }
}

/// A frame of memory holds one trap frame: what `load` reads back from a
/// frame is the trap frame that `store` wrote there.
pub proof fn law_load_after_store(a: TrapFrame, b: TrapFrame, mem: PhysMem, p: int)
    requires
        a.stored_in(mem, p),
        b.stored_in(mem, p),
    ensures
        a == b,
{
    assert forall|i: int| 0 <= i < 32 implies a.general_reg@[i] == b.general_reg@[i] by {
        assert(mem.word(p, i) == a.word(i));
        assert(mem.word(p, i) == b.word(i));
    }
    assert(a.general_reg@ =~= b.general_reg@);
    assert(a.general_reg =~= b.general_reg);
    assert(mem.word(p, 32) == a.word(32) && mem.word(p, 32) == b.word(32));
    assert(mem.word(p, 33) == a.word(33) && mem.word(p, 33) == b.word(33));
    assert(mem.word(p, 34) == a.word(34) && mem.word(p, 34) == b.word(34));
    assert(mem.word(p, 35) == a.word(35) && mem.word(p, 35) == b.word(35));
    assert(mem.word(p, 36) == a.word(36) && mem.word(p, 36) == b.word(36));
    assert(mem.word(p, 37) == a.word(37) && mem.word(p, 37) == b.word(37));
}

/// The RISC-V ABI names of the general registers select registers 0 to 31
/// in order (`zero`, `ra`, `sp`, `gp`, `tp`, `t0`-`t2`, `s0`/`fp`, `s1`,
/// `a0`-`a7`, `s2`-`s11`, `t3`-`t6`), and `sepc`, `sstatus` and `satp`
/// select the three registers after them.
pub proof fn law_abi_register_numbers()
    ensures
        register_slot("zero"@) == 0,
        register_slot("ra"@) == 1,
        register_slot("sp"@) == 2,
        register_slot("gp"@) == 3,
        register_slot("tp"@) == 4,
        register_slot("t0"@) == 5,
        register_slot("t1"@) == 6,
        register_slot("t2"@) == 7,
        register_slot("s0"@) == 8,
        register_slot("s1"@) == 9,
        register_slot("a0"@) == 10,
        register_slot("a1"@) == 11,
        register_slot("a2"@) == 12,
        register_slot("a3"@) == 13,
        register_slot("a4"@) == 14,
        register_slot("a5"@) == 15,
        register_slot("a6"@) == 16,
        register_slot("a7"@) == 17,
        register_slot("s2"@) == 18,
        register_slot("s3"@) == 19,
        register_slot("s4"@) == 20,
        register_slot("s5"@) == 21,
        register_slot("s6"@) == 22,
        register_slot("s7"@) == 23,
        register_slot("s8"@) == 24,
        register_slot("s9"@) == 25,
        register_slot("s10"@) == 26,
        register_slot("s11"@) == 27,
        register_slot("t3"@) == 28,
        register_slot("t4"@) == 29,
        register_slot("t5"@) == 30,
        register_slot("t6"@) == 31,
        register_slot("fp"@) == 8,
        register_slot("sepc"@) == 32,
        register_slot("sstatus"@) == 33,
        register_slot("satp"@) == 34,
{
    reveal_strlit("zero");
    assert("zero"@.len() == 4 && "zero"@[0] == 'z' && "zero"@[1] == 'e' && "zero"@[2] == 'r' && "zero"@[3] == 'o');
    reveal_strlit("ra");
    assert("ra"@.len() == 2 && "ra"@[0] == 'r' && "ra"@[1] == 'a');
    reveal_strlit("sp");
    assert("sp"@.len() == 2 && "sp"@[0] == 's' && "sp"@[1] == 'p');
    reveal_strlit("gp");
    assert("gp"@.len() == 2 && "gp"@[0] == 'g' && "gp"@[1] == 'p');
    reveal_strlit("tp");
    assert("tp"@.len() == 2 && "tp"@[0] == 't' && "tp"@[1] == 'p');
    reveal_strlit("t0");
    assert("t0"@.len() == 2 && "t0"@[0] == 't' && "t0"@[1] == '0');
    reveal_strlit("t1");
    assert("t1"@.len() == 2 && "t1"@[0] == 't' && "t1"@[1] == '1');
    reveal_strlit("t2");
    assert("t2"@.len() == 2 && "t2"@[0] == 't' && "t2"@[1] == '2');
    reveal_strlit("s0");
    assert("s0"@.len() == 2 && "s0"@[0] == 's' && "s0"@[1] == '0');
    reveal_strlit("s1");
    assert("s1"@.len() == 2 && "s1"@[0] == 's' && "s1"@[1] == '1');
    reveal_strlit("a0");
    assert("a0"@.len() == 2 && "a0"@[0] == 'a' && "a0"@[1] == '0');
    reveal_strlit("a1");
    assert("a1"@.len() == 2 && "a1"@[0] == 'a' && "a1"@[1] == '1');
    reveal_strlit("a2");
    assert("a2"@.len() == 2 && "a2"@[0] == 'a' && "a2"@[1] == '2');
    reveal_strlit("a3");
    assert("a3"@.len() == 2 && "a3"@[0] == 'a' && "a3"@[1] == '3');
    reveal_strlit("a4");
    assert("a4"@.len() == 2 && "a4"@[0] == 'a' && "a4"@[1] == '4');
    reveal_strlit("a5");
    assert("a5"@.len() == 2 && "a5"@[0] == 'a' && "a5"@[1] == '5');
    reveal_strlit("a6");
    assert("a6"@.len() == 2 && "a6"@[0] == 'a' && "a6"@[1] == '6');
    reveal_strlit("a7");
    assert("a7"@.len() == 2 && "a7"@[0] == 'a' && "a7"@[1] == '7');
    reveal_strlit("s2");
    assert("s2"@.len() == 2 && "s2"@[0] == 's' && "s2"@[1] == '2');
    reveal_strlit("s3");
    assert("s3"@.len() == 2 && "s3"@[0] == 's' && "s3"@[1] == '3');
    reveal_strlit("s4");
    assert("s4"@.len() == 2 && "s4"@[0] == 's' && "s4"@[1] == '4');
    reveal_strlit("s5");
    assert("s5"@.len() == 2 && "s5"@[0] == 's' && "s5"@[1] == '5');
    reveal_strlit("s6");
    assert("s6"@.len() == 2 && "s6"@[0] == 's' && "s6"@[1] == '6');
    reveal_strlit("s7");
    assert("s7"@.len() == 2 && "s7"@[0] == 's' && "s7"@[1] == '7');
    reveal_strlit("s8");
    assert("s8"@.len() == 2 && "s8"@[0] == 's' && "s8"@[1] == '8');
    reveal_strlit("s9");
    assert("s9"@.len() == 2 && "s9"@[0] == 's' && "s9"@[1] == '9');
    reveal_strlit("s10");
    assert("s10"@.len() == 3 && "s10"@[0] == 's' && "s10"@[1] == '1' && "s10"@[2] == '0');
    reveal_strlit("s11");
    assert("s11"@.len() == 3 && "s11"@[0] == 's' && "s11"@[1] == '1' && "s11"@[2] == '1');
    reveal_strlit("t3");
    assert("t3"@.len() == 2 && "t3"@[0] == 't' && "t3"@[1] == '3');
    reveal_strlit("t4");
    assert("t4"@.len() == 2 && "t4"@[0] == 't' && "t4"@[1] == '4');
    reveal_strlit("t5");
    assert("t5"@.len() == 2 && "t5"@[0] == 't' && "t5"@[1] == '5');
    reveal_strlit("t6");
    assert("t6"@.len() == 2 && "t6"@[0] == 't' && "t6"@[1] == '6');
    reveal_strlit("fp");
    assert("fp"@.len() == 2 && "fp"@[0] == 'f' && "fp"@[1] == 'p');
    reveal_strlit("sepc");
    assert("sepc"@.len() == 4 && "sepc"@[0] == 's' && "sepc"@[1] == 'e' && "sepc"@[2] == 'p' && "sepc"@[3] == 'c');
    reveal_strlit("sstatus");
    assert("sstatus"@.len() == 7 && "sstatus"@[0] == 's' && "sstatus"@[1] == 's' && "sstatus"@[2] == 't' && "sstatus"@[3] == 'a' && "sstatus"@[4] == 't' && "sstatus"@[5] == 'u' && "sstatus"@[6] == 's');
    reveal_strlit("satp");
    assert("satp"@.len() == 4 && "satp"@[0] == 's' && "satp"@[1] == 'a' && "satp"@[2] == 't' && "satp"@[3] == 'p');
}

/// `fp` and `s0` are two names of general register 8.
pub proof fn law_fp_is_s0()
    ensures
        register_slot("fp"@) == 8,
        register_slot("s0"@) == 8,
{
    reveal_strlit("zero");
    reveal_strlit("ra");
    reveal_strlit("sp");
    reveal_strlit("gp");
    reveal_strlit("tp");
    reveal_strlit("t0");
    reveal_strlit("t1");
    reveal_strlit("t2");
    reveal_strlit("fp");
    reveal_strlit("s0");
    assert("fp"@.len() == 2 && "fp"@[0] == 'f');
    assert("s0"@.len() == 2 && "s0"@[0] == 's');
    assert("fp"@ != "zero"@ && "s0"@ != "zero"@);
    assert("fp"@ != "ra"@ && "s0"@ != "ra"@);
    assert("fp"@ != "sp"@ && "s0"@[1] != "sp"@[1]);
    assert("fp"@ != "gp"@ && "s0"@ != "gp"@);
    assert("fp"@ != "tp"@ && "s0"@[1] != "tp"@[1]);
    assert("fp"@ != "t0"@ && "s0"@ != "t0"@);
    assert("fp"@ != "t1"@ && "s0"@ != "t1"@);
    assert("fp"@ != "t2"@ && "s0"@ != "t2"@);
    assert("s0"@ != "fp"@);
}

/// Writing a register by name and reading it back by name gives the value
/// written; reading any other register gives what it held before.
pub proof fn law_read_after_write(before: TrapFrame, after: TrapFrame, name: Seq<char>, value: u64, other: Seq<char>)
    requires
        register_slot(name) >= 0,
        register_slot(other) >= 0,
        after.slot_value(register_slot(name)) == value,
        before.same_except(after, register_slot(name)),
    ensures
        after.slot_value(register_slot(name)) == value,
        register_slot(other) != register_slot(name) ==> after.slot_value(register_slot(other))
            == before.slot_value(register_slot(other)),
{
    lemma_slot_bound(other);
}

/// Every slot that a name selects is one of the 35 registers.
proof fn lemma_slot_bound(name: Seq<char>)
    ensures
        -1 <= register_slot(name) < 35,
{
}

} // verus!
