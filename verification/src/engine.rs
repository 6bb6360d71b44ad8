//! Decisions of the engine front end that do not depend on the engine itself:
//! status codes of engine calls, where the engine files are taken from, and
//! which of them a setup copies.

use vstd::prelude::*;

use crate::error::OcrError;

verus! {

/// Turn the status code of an engine call into a result: zero is success,
/// anything else the failure of `operation` with that code.
pub fn check(code: i64, operation: &'static str) -> (r: Result<(), OcrError>)
    ensures
        code == 0 ==> r is Ok,
        code != 0 ==> r == Err::<(), OcrError>(OcrError::DllCall { operation, code }),
{
    if code == 0 {
        Ok(())
    } else {
        Err(OcrError::DllCall { operation, code })
    }
}

/// Where to take the engine from, given the candidate directories in search
/// order.
#[derive(Debug, Clone, Copy, PartialEq, Eq)]
pub enum EngineDirPlan {
    /// Use the candidate at this position: it already holds the engine.
    Use(usize),
    /// No candidate holds the engine: set it up in the candidate at this
    /// position (the last one), or in the default directory when there is
    /// no candidate.
    SetUp(Option<usize>),
}

/// Pick the engine directory: the first candidate that holds the engine;
/// failing that, set the engine up in the last candidate (or the default
/// directory when there are no candidates). `ready[i]` tells whether
/// candidate `i` holds the engine files.
pub fn plan_engine_dir(ready: &Vec<bool>) -> (p: EngineDirPlan)
    ensures
        match p {
            EngineDirPlan::Use(i) => i < ready@.len() && ready@[i as int] && forall|j: int|
                0 <= j < i ==> !#[trigger] ready@[j],
            EngineDirPlan::SetUp(t) => (forall|j: int| 0 <= j < ready@.len() ==> !#[trigger] ready@[j])
                && t == (if ready@.len() == 0 {
                None
            } else {
                Some((ready@.len() - 1) as usize)
            }),
        },
{
    let n = ready.len();
    let mut i: usize = 0;
    while i < n
        invariant
            n == ready@.len(),
            i <= n,
            forall|j: int| 0 <= j < i ==> !#[trigger] ready@[j],
        decreases n - i,
    {
        if ready[i] {
            return EngineDirPlan::Use(i);
        }
        i = i + 1;
    }
    if n == 0 {
        EngineDirPlan::SetUp(None)
    } else {
        EngineDirPlan::SetUp(Some(n - 1))
    }
}

/// Positions, in order, among the first `n` engine files of those a setup
/// copies: all of them when `force` is set, otherwise those not present.
pub open spec fn copy_list(force: bool, present: Seq<bool>, n: int) -> Seq<usize>
    decreases n,
{
    if n <= 0 {
        Seq::empty()
    } else if force || !present[n - 1] {
        copy_list(force, present, n - 1).push((n - 1) as usize)
    } else {
        copy_list(force, present, n - 1)
    }
}

/// Positions of the engine files a setup copies: every file when `force` is
/// set, otherwise only those not yet present (`present[i]` tells whether
/// file `i` already exists in the target).
pub fn files_to_copy(force: bool, present: &Vec<bool>) -> (r: Vec<usize>)
    ensures
        r@ == copy_list(force, present@, present@.len() as int),
        forall|k: int| 0 <= k < r@.len() ==> force || !present@[#[trigger] r@[k] as int],
        forall|i: int|
            0 <= i < present@.len() && (force || !present@[i]) ==> exists|k: int|
                0 <= k < r@.len() && #[trigger] r@[k] == i,
        forall|k: int| 0 <= k < r@.len() ==> (#[trigger] r@[k]) < present@.len(),
        forall|a: int, b: int| 0 <= a < b < r@.len() ==> r@[a] < r@[b],
{
    let n = present.len();
    proof {
        lemma_copy_list_exact(force, present@, n as int);
    }
    let mut out: Vec<usize> = Vec::new();
    let mut i: usize = 0;
    while i < n
        invariant
            n == present@.len(),
            i <= n,
            out@ == copy_list(force, present@, i as int),
        decreases n - i,
    {
        if force || !present[i] {
            out.push(i);
        }
        i = i + 1;
    }
    proof {
        assert forall|j: int| 0 <= j < present@.len() && (force || !present@[j]) implies exists|k: int|
            0 <= k < out@.len() && #[trigger] out@[k] == j by {
            lemma_needed_is_listed(force, present@, n as int, j);
        }
    }
    out
}

proof fn lemma_copy_list_ordered(force: bool, present: Seq<bool>, n: int)
    requires
        0 <= n <= present.len() <= usize::MAX,
    ensures
        forall|k: int| 0 <= k < copy_list(force, present, n).len() ==> (#[trigger] copy_list(force, present, n)[k]) < n,
        forall|a: int, b: int|
            0 <= a < b < copy_list(force, present, n).len() ==> copy_list(force, present, n)[a] < copy_list(
                force,
                present,
                n,
            )[b],
    decreases n,
{
    if n > 0 {
        lemma_copy_list_ordered(force, present, n - 1);
        let prev = copy_list(force, present, n - 1);
        let cur = copy_list(force, present, n);
        assert forall|k: int| 0 <= k < prev.len() implies #[trigger] cur[k] == prev[k] by {}
        assert forall|a: int, b: int| 0 <= a < b < cur.len() implies cur[a] < cur[b] by {
            assert(cur[a] == prev[a]);
            if b < prev.len() {
                assert(cur[b] == prev[b]);
            } else {
                assert(prev[a] < n - 1);
            }
        }
    }
}

proof fn lemma_needed_is_listed(force: bool, present: Seq<bool>, n: int, i: int)
    requires
        0 <= i < n <= present.len() <= usize::MAX,
        force || !present[i],
    ensures
        exists|k: int| 0 <= k < copy_list(force, present, n).len() && #[trigger] copy_list(force, present, n)[k] == i,
    decreases n,
{
    let prev = copy_list(force, present, n - 1);
    let cur = copy_list(force, present, n);
    if i == n - 1 {
        assert(cur[prev.len() as int] == i);
    } else {
        lemma_needed_is_listed(force, present, n - 1, i);
        let k = choose|k: int| 0 <= k < prev.len() && #[trigger] prev[k] == i;
        assert(cur[k] == prev[k]);
    }
}

proof fn lemma_listed_is_needed(force: bool, present: Seq<bool>, n: int, k: int)
    requires
        0 <= n <= present.len() <= usize::MAX,
        0 <= k < copy_list(force, present, n).len(),
    ensures
        0 <= copy_list(force, present, n)[k] < n,
        force || !present[copy_list(force, present, n)[k] as int],
    decreases n,
{
    let prev = copy_list(force, present, n - 1);
    let cur = copy_list(force, present, n);
    if k < prev.len() {
        lemma_listed_is_needed(force, present, n - 1, k);
        assert(cur[k] == prev[k]);
    } else {
        assert(cur[k] == (n - 1) as usize);
    }
}

/// A setup copies exactly the files it must: with `force` every file, and
/// otherwise each file that is not yet present, first run included; each
/// file at most once, in order.
pub proof fn lemma_copy_list_exact(force: bool, present: Seq<bool>, n: int)
    requires
        0 <= n <= present.len() <= usize::MAX,
    ensures
        forall|k: int| 0 <= k < copy_list(force, present, n).len() ==> force || !present[#[trigger] copy_list(force, present, n)[k] as int],
        forall|i: int|
            0 <= i < n && (force || !present[i]) ==> exists|k: int|
                0 <= k < copy_list(force, present, n).len() && #[trigger] copy_list(force, present, n)[k] == i,
        forall|k: int| 0 <= k < copy_list(force, present, n).len() ==> (#[trigger] copy_list(force, present, n)[k]) < n,
        forall|a: int, b: int|
            0 <= a < b < copy_list(force, present, n).len() ==> copy_list(force, present, n)[a] < copy_list(
                force,
                present,
                n,
            )[b],
{
    lemma_copy_list_ordered(force, present, n);
    let r = copy_list(force, present, n);
    assert forall|k: int| 0 <= k < r.len() implies force || !present[#[trigger] r[k] as int] by {
        lemma_listed_is_needed(force, present, n, k);
    }
    assert forall|i: int| 0 <= i < n && (force || !present[i]) implies exists|k: int|
        0 <= k < r.len() && #[trigger] r[k] == i by {
        lemma_needed_is_listed(force, present, n, i);
    }
}

} // verus!
