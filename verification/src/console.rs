//! Console output: text goes out one character per call.
use vstd::prelude::*;
use crate::sbi::{SbiCall, PUT_CHAR, put_char, is_call};

verus! {

/// The calls that print `s`: one character each, in order.
pub fn print(s: &str) -> (r: Vec<SbiCall>)
    ensures
        r@.len() == s@.len(),
        forall|i: int| 0 <= i < s@.len() ==> #[trigger] is_call(r@[i], PUT_CHAR, s@[i] as u64, 0, 0),
{
    let n = s.unicode_len();
    let mut out: Vec<SbiCall> = Vec::new();
    let mut i: usize = 0;
    while i < n
        invariant
            n == s@.len(),
            i <= n,
            out@.len() == i,
            forall|k: int| 0 <= k < i ==> #[trigger] is_call(out@[k], PUT_CHAR, s@[k] as u64, 0, 0),
        decreases n - i,
    {
        let c = s.get_char(i);
        out.push(put_char(c));
        i = i + 1;
    }
    out
}

} // verus!
