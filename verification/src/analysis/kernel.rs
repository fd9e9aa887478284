//! Reading what the kernel replacer prints.

use vstd::prelude::*;
use crate::analysis::si::{group_i64, read_i64};
use crate::pattern::{find_all, pattern_matches, Groups};

verus! {

/// A kernel that can be rewritten: its line and its type.
pub const KERNEL_PATTERN: &'static str = "Kernel rewritable at line (\\d+) with type (\\d+)";

/// A kernel that can be rewritten.
#[derive(Clone, Copy, Debug, Default, PartialEq, Eq, Structural)]
pub struct KernelMatch {
    pub line: i64,
    pub kind: i64,
}

/// Communication between the compile and intern phases.
#[derive(Debug, PartialEq, Eq)]
pub struct Match {
    pub file: String,
    pub data: Vec<KernelMatch>,
}

/// The kernel that the capture groups of one match of [`KERNEL_PATTERN`]
/// stand for, where both hold a number.
pub open spec fn kernel_of(groups: Seq<Option<Seq<char>>>) -> Option<KernelMatch> {
    if group_i64(groups, 1) is Some && group_i64(groups, 2) is Some {
        Some(KernelMatch { line: group_i64(groups, 1).unwrap(), kind: group_i64(groups, 2).unwrap() })
    } else {
        None
    }
}

/// The kernels of a sequence of matches, in order.
pub open spec fn kernels_of(found: Seq<Seq<Option<Seq<char>>>>) -> Seq<KernelMatch>
    decreases found.len(),
{
    if found.len() == 0 {
        Seq::empty()
    } else {
        match kernel_of(found.last()) {
            Some(kernel) => kernels_of(found.drop_last()).push(kernel),
            None => kernels_of(found.drop_last()),
        }
    }
}

/// The kernels of the matches `found` of [`KERNEL_PATTERN`].
pub fn kernels(found: &Vec<Groups>) -> (out: Vec<KernelMatch>)
    ensures
        out@ == kernels_of(found.deep_view()),
{
    let mut out: Vec<KernelMatch> = Vec::new();
    let n = found.len();
    let ghost fv = found.deep_view();
    let mut i: usize = 0;
    assert(fv.take(0) == Seq::<Seq<Option<Seq<char>>>>::empty());
    while i < n
        invariant
            n == found.len(),
            i <= n,
            fv == found.deep_view(),
            out@ == kernels_of(fv.take(i as int)),
        decreases n - i,
    {
        proof {
            assert(fv.take(i + 1).drop_last() == fv.take(i as int));
            assert(fv.take(i + 1).last() == found[i as int].deep_view());
        }
        match (read_i64(&found[i], 1), read_i64(&found[i], 2)) {
            (Some(line), Some(kind)) => {
                out.push(KernelMatch { line, kind });
            },
            _ => {},
        }
        i += 1;
    }
    assert(fv.take(n as int) == fv);
    out
}

/// The kernels in what the compiler printed.
pub open spec fn kernels_in(input: Seq<char>) -> Seq<KernelMatch> {
    match pattern_matches(KERNEL_PATTERN@, input) {
        Some(found) => kernels_of(found),
        None => Seq::empty(),
    }
}

/// Parse the kernels that can be rewritten from `input`.
pub fn parse_output(input: &str) -> (out: Vec<KernelMatch>)
    ensures
        out@ == kernels_in(input@),
{
    match find_all(KERNEL_PATTERN, input) {
        Some(found) => kernels(&found),
        None => Vec::new(),
    }
}

} // verus!
