//! The stacks of the kernel and of the applications, and the table of the
//! applications linked into the kernel image.
use vstd::prelude::*;
use crate::config::{APP_NUM, USER_STACK_SIZE};
use crate::mm::address::PhysAddr;
use crate::mm::phys_mem::PhysMem;
use crate::trap::context::{TrapContext, CONTEXT_WORDS};

verus! {

/// Address at which applications are loaded.
pub const APP_BASE_ADDR: u64 = 0x80300000;

/// A kernel stack, known by the address `base` of its lowest byte.
pub struct KernelStack {
    pub base: u64,
}

impl KernelStack {
    /// The initial stack pointer: just above the stack.
    pub fn get_sp(&self) -> (r: u64)
        requires
            self.base + USER_STACK_SIZE <= u64::MAX,
        ensures
            r == self.base + USER_STACK_SIZE,
    {
        self.base + USER_STACK_SIZE
    }

    /// Puts `cx` on top of the stack, just below the initial stack pointer,
    /// and returns the address it starts at.
    pub fn push_context(&self, mem: &mut PhysMem, cx: TrapContext) -> (r: PhysAddr)
        requires
            old(mem).wf(),
            self.base % 8 == 0,
            self.base + USER_STACK_SIZE <= u64::MAX,
            forall|i: int|
                0 <= i < CONTEXT_WORDS ==> #[trigger] old(mem).has_addr(self.base + USER_STACK_SIZE - 8 * CONTEXT_WORDS + 8 * i),
        ensures
            r.0 == self.base + USER_STACK_SIZE - 8 * CONTEXT_WORDS,
            final(mem).wf(),
            forall|i: int| 0 <= i < CONTEXT_WORDS ==> #[trigger] final(mem).word_at(r.0 + 8 * i) == cx.word(i),
            forall|p: int, j: int|
                0 <= j < 512 && !(r.0 <= p * 4096 + 8 * j < r.0 + 8 * CONTEXT_WORDS) ==> #[trigger] final(mem).word(p, j)
                    == old(mem).word(p, j),
    {
        let cx_ptr = self.get_sp() - 8 * CONTEXT_WORDS as u64;
        let mut i: usize = 0;
        while i < CONTEXT_WORDS
            invariant
                mem.wf(),
                cx_ptr == self.base + USER_STACK_SIZE - 8 * CONTEXT_WORDS,
                self.base % 8 == 0,
                i <= CONTEXT_WORDS,
                forall|j: int| 0 <= j < CONTEXT_WORDS ==> #[trigger] mem.has_addr(cx_ptr + 8 * j),
                forall|j: int| 0 <= j < i ==> #[trigger] mem.word_at(cx_ptr + 8 * j) == cx.word(j),
                forall|p: int, j: int|
                    0 <= j < 512 && !(cx_ptr <= p * 4096 + 8 * j < cx_ptr + 8 * i) ==> #[trigger] mem.word(p, j)
                        == old(mem).word(p, j),
            decreases CONTEXT_WORDS - i,
        {
            let ghost m = *mem;
            assert(mem.has_addr(cx_ptr + 8 * i));
            proof {
                mem.lemma_page_range((cx_ptr + 8 * i) / 4096);
            }
            let addr = PhysAddr(cx_ptr + 8 * i as u64);
            mem.write_word(addr, cx.word_at(i));
            proof {
                assert forall|j: int| 0 <= j < CONTEXT_WORDS implies #[trigger] mem.has_addr(cx_ptr + 8 * j) by {
                    assert(m.has_addr(cx_ptr + 8 * j));
                }
                assert forall|p: int, j: int|
                    0 <= j < 512 && !(cx_ptr <= p * 4096 + 8 * j < cx_ptr + 8 * (i + 1)) implies #[trigger] mem.word(p, j)
                        == old(mem).word(p, j) by {
                    let b = addr.0 as int;
                    assert((p, j) != (b / 4096, (b % 4096) / 8)) by {
                        if p == b / 4096 && j == (b % 4096) / 8 {
                            assert(p * 4096 + 8 * j == b) by (nonlinear_arith)
                                requires
                                    p == b / 4096,
                                    j == (b % 4096) / 8,
                                    b % 8 == 0,
                                    b >= 0,
                            ;
                        }
                    }
                    assert(mem.word(p, j) == m.word(p, j));
                }
                assert forall|j: int| 0 <= j < i implies #[trigger] mem.word_at(cx_ptr + 8 * j) == cx.word(j) by {
                    let a = cx_ptr + 8 * j;
                    let b = addr.0 as int;
                    assert(a / 4096 != b / 4096 || (a % 4096) / 8 != (b % 4096) / 8) by (nonlinear_arith)
                        requires
                            a % 8 == 0,
                            b % 8 == 0,
                            0 <= a < b,
                    ;
                    assert(mem.word_at(a) == m.word_at(a));
                }
            }
            i = i + 1;
        }
        PhysAddr(cx_ptr)
    }
}

/// A user stack, known by the address `base` of its lowest byte.
pub struct UserStack {
    pub base: u64,
}

impl UserStack {
    /// The initial stack pointer: just above the stack.
    pub fn get_sp(&self) -> (r: u64)
        requires
            self.base + USER_STACK_SIZE <= u64::MAX,
        ensures
            r == self.base + USER_STACK_SIZE,
    {
        self.base + USER_STACK_SIZE
    }
}

pub struct AppManagerInner {
    pub num_app: usize,
    pub current_app: usize,
    /// First and one-past-last address of each application's image.
    pub app_start: [(u64, u64); APP_NUM],
}

pub struct AppManager {
    pub inner: AppManagerInner,
}

impl AppManagerInner {
    /// Start address of the image of application `app_id`; `None` past the
    /// last id.
    pub fn app_start_addr(&self, app_id: usize) -> (r: Option<u64>)
        requires
            app_id != APP_NUM,
        ensures
            app_id < APP_NUM ==> r == Some(self.app_start@[app_id as int].0),
            app_id > APP_NUM ==> r is None,
    {
        if app_id <= APP_NUM {
            Some(self.app_start[app_id].0)
        } else {
            None
        }
    }

    /// End address of the image of the current application, for any id up
    /// to the number of applications; `None` past that.
    pub fn app_end_addr(&self, app_id: usize) -> (r: Option<u64>)
        requires
            app_id <= APP_NUM ==> self.current_app < APP_NUM,
        ensures
            app_id <= APP_NUM ==> r == Some(self.app_start@[self.current_app as int].1),
            app_id > APP_NUM ==> r is None,
    {
        if app_id <= APP_NUM {
            Some(self.app_start[self.current_app].1)
        } else {
            None
        }
    }

    /// Copies the image of application `app_id` to `APP_BASE_ADDR`.
    pub fn load_app(&self, mem: &mut PhysMem, app_id: usize)
        requires
            old(mem).wf(),
            app_id < APP_NUM,
            self.app_start@[app_id as int].0 <= self.app_start@[app_id as int].1,
            APP_BASE_ADDR + (self.app_start@[app_id as int].1 - self.app_start@[app_id as int].0) <= u64::MAX,
            ({
                let (s, e) = self.app_start@[app_id as int];
                e <= APP_BASE_ADDR || APP_BASE_ADDR + (e - s) <= s
            }),
            forall|k: int|
                0 <= k < self.app_start@[app_id as int].1 - self.app_start@[app_id as int].0 ==> #[trigger] old(mem).has_addr(self.app_start@[app_id as int].0 + k),
            forall|k: int|
                0 <= k < self.app_start@[app_id as int].1 - self.app_start@[app_id as int].0 ==> #[trigger] old(mem).has_addr(APP_BASE_ADDR + k),
        ensures
            final(mem).wf(),
            forall|k: int|
                0 <= k < self.app_start@[app_id as int].1 - self.app_start@[app_id as int].0 ==> #[trigger] final(mem).byte(APP_BASE_ADDR + k) == old(mem).byte(self.app_start@[app_id as int].0 + k),
            forall|a: int|
                !(APP_BASE_ADDR <= a < APP_BASE_ADDR + (self.app_start@[app_id as int].1
                    - self.app_start@[app_id as int].0)) ==> #[trigger] final(mem).byte(a) == old(mem).byte(a),
    {
        let app = self.app_start[app_id];
        let len = app.1 - app.0;
        let mut k: u64 = 0;
        while k < len
            invariant
                mem.wf(),
                app == self.app_start@[app_id as int],
                len == app.1 - app.0,
                APP_BASE_ADDR + len <= u64::MAX,
                app.1 <= APP_BASE_ADDR || APP_BASE_ADDR + len <= app.0,
                k <= len,
                forall|j: int| 0 <= j < len ==> #[trigger] mem.has_addr(app.0 + j),
                forall|j: int| 0 <= j < len ==> #[trigger] mem.has_addr(APP_BASE_ADDR + j),
                forall|j: int| 0 <= j < k ==> #[trigger] mem.byte(APP_BASE_ADDR + j) == old(mem).byte(app.0 + j),
                forall|a: int| !(APP_BASE_ADDR <= a < APP_BASE_ADDR + k) ==> #[trigger] mem.byte(a) == old(mem).byte(a),
            decreases len - k,
        {
            let ghost m = *mem;
            assert(mem.has_addr(app.0 + k) && mem.has_addr(APP_BASE_ADDR + k));
            proof {
                mem.lemma_page_range((app.0 + k) / 4096);
                mem.lemma_page_range((APP_BASE_ADDR + k) / 4096);
            }
            let b = mem.read_byte(PhysAddr(app.0 + k));
            mem.write_byte(PhysAddr(APP_BASE_ADDR + k), b);
            proof {
                assert forall|j: int| 0 <= j < len implies #[trigger] mem.has_addr(app.0 + j) by {
                    assert(m.has_addr(app.0 + j));
                }
                assert forall|j: int| 0 <= j < len implies #[trigger] mem.has_addr(APP_BASE_ADDR + j) by {
                    assert(m.has_addr(APP_BASE_ADDR + j));
                }
                assert(m.byte(app.0 + k) == old(mem).byte(app.0 + k));
            }
            k = k + 1;
        }
    }

    /// Zeroes the memory from the start of application `app_id` to the end
    /// of the current application.
    pub fn clear_app(&self, mem: &mut PhysMem, app_id: usize)
        requires
            old(mem).wf(),
            app_id < APP_NUM,
            self.current_app < APP_NUM,
            self.app_start@[app_id as int].0 <= self.app_start@[self.current_app as int].1,
            forall|a: int|
                self.app_start@[app_id as int].0 <= a < self.app_start@[self.current_app as int].1 ==> #[trigger] old(mem).has_addr(a),
        ensures
            final(mem).wf(),
            forall|a: int|
                self.app_start@[app_id as int].0 <= a < self.app_start@[self.current_app as int].1 ==> #[trigger] final(mem).byte(a) == 0,
            forall|a: int|
                !(self.app_start@[app_id as int].0 <= a < self.app_start@[self.current_app as int].1) ==> #[trigger] final(mem).byte(a) == old(mem).byte(a),
    {
        let start = self.app_start_addr(app_id).unwrap();
        let end = self.app_end_addr(app_id).unwrap();
        let mut a = start;
        while a < end
            invariant
                mem.wf(),
                start <= a <= end,
                start == self.app_start@[app_id as int].0,
                end == self.app_start@[self.current_app as int].1,
                forall|x: int| start <= x < end ==> #[trigger] mem.has_addr(x),
                forall|x: int| start <= x < a ==> #[trigger] mem.byte(x) == 0,
                forall|x: int| !(start <= x < a) ==> #[trigger] mem.byte(x) == old(mem).byte(x),
            decreases end - a,
        {
            let ghost m = *mem;
            assert(mem.has_addr(a as int));
            proof {
                mem.lemma_page_range((a / 4096) as int);
            }
            mem.write_byte(PhysAddr(a), 0);
            proof {
                assert forall|x: int| start <= x < end implies #[trigger] mem.has_addr(x) by {
                    assert(m.has_addr(x));
                }
            }
            a = a + 1;
        }
    }
}

} // verus!
