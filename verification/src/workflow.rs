//! Orchestrator decisions: which phases an `init` run performs for a
//! given repository state, which staged files block a commit, and how
//! the bootstrap loop judges its decryption attempts.  All pure: the
//! caller performs the file, process and prompt work and feeds the
//! outcomes back in.

use vstd::prelude::*;

use crate::bytes::{ends_with, views_of, lemma_filter_step, lemma_filter_member};
use crate::classify::{is_env_name, EenvState};
use crate::paths::{file_name, spec_dec_output, suffix_enc, suffix_example};

verus! {

/// The phases an `init` run performs.
#[derive(Clone, Copy, Debug, PartialEq, Eq, Structural)]
pub struct InitPlan {
    /// Decrypt the artifacts with the configured key.
    pub run_decrypt: bool,
    /// Ask the operator for a key and bootstrap the config from the
    /// artifacts.
    pub run_bootstrap: bool,
    /// Run the plaintext phase: skeletons, ignore file, config, encrypt.
    pub process_env: bool,
    /// Generate skeleton files (only when none exist yet).
    pub make_skeletons: bool,
}

/// Decide the phases of an `init` run from the repository state alone.
pub fn init_plan(state: &EenvState) -> (r: InitPlan)
    ensures
        r.run_decrypt == (state.enc && state.eenvjson),
        r.run_bootstrap == (state.enc && !state.eenvjson),
        r.process_env == state.env,
        r.make_skeletons == (state.env && !state.example),
{
    InitPlan {
        run_decrypt: state.enc && state.eenvjson,
        run_bootstrap: state.enc && !state.eenvjson,
        process_env: state.env,
        make_skeletons: state.env && !state.example,
    }
}

/// A staged path blocks the commit: its file name starts with the
/// environment-file prefix and carries neither the skeleton nor the
/// artifact suffix.
pub open spec fn spec_is_offender(p: Seq<u8>) -> bool {
    is_env_name(file_name(p)) && !ends_with(file_name(p), suffix_example()) && !ends_with(
        file_name(p),
        suffix_enc(),
    )
}

/// The staged paths that block a commit, in order.  The commit may
/// proceed exactly when none is found.
pub fn staged_offenders(staged: &Vec<Vec<u8>>) -> (r: Vec<Vec<u8>>)
    ensures
        views_of(r@) == views_of(staged@).filter(|p: Seq<u8>| spec_is_offender(p)),
        (r@.len() == 0) == (forall|k: int|
            0 <= k < staged@.len() ==> !spec_is_offender(#[trigger] views_of(staged@)[k])),
{
    let ghost sv = views_of(staged@);
    let ghost pred = |p: Seq<u8>| spec_is_offender(p);
    proof {
        assert(sv.take(0).filter(pred) =~= Seq::<Seq<u8>>::empty());
    }
    let n = staged.len();
    let mut r: Vec<Vec<u8>> = Vec::new();
    let mut i: usize = 0;
    while i < n
        invariant
            n == staged@.len(),
            sv == views_of(staged@),
            pred == (|p: Seq<u8>| spec_is_offender(p)),
            0 <= i <= n,
            views_of(r@) == sv.take(i as int).filter(pred),
        decreases n - i,
    {
        let p = staged[i].clone();
        let ghost pv = p@;
        assert(pv == sv[i as int]);
        let name = crate::paths::file_name_of(p.as_slice());
        let ex = crate::paths::suffix_example_bytes();
        let en = crate::paths::suffix_enc_bytes();
        let offender = crate::classify::is_env_file_name(name.as_slice())
            && !crate::bytes::has_suffix(name.as_slice(), ex.as_slice())
            && !crate::bytes::has_suffix(name.as_slice(), en.as_slice());
        assert(offender == spec_is_offender(pv));
        let ghost old_r = views_of(r@);
        proof {
            let tplus = sv.take(i + 1);
            assert(tplus.drop_last() =~= sv.take(i as int));
            assert(tplus.last() == pv);
            lemma_filter_step(tplus, pred);
        }
        if offender {
            r.push(p);
            assert(views_of(r@) =~= old_r.push(pv));
        }
        i += 1;
    }
    proof {
        assert(sv.take(n as int) =~= sv);
        lemma_filter_member(sv, pred);
        if views_of(r@).len() > 0 {
            assert(views_of(r@).contains(views_of(r@)[0]));
            assert(sv.contains(views_of(r@)[0]) && spec_is_offender(views_of(r@)[0]));
            let j = choose|j: int| 0 <= j < sv.len() && sv[j] == views_of(r@)[0];
            assert(spec_is_offender(sv[j]));
        }
        if forall|k: int| 0 <= k < sv.len() ==> !spec_is_offender(#[trigger] sv[k]) {
        } else {
            let k = choose|k: int| 0 <= k < sv.len() && !(!spec_is_offender(#[trigger] sv[k]));
            assert(sv.contains(sv[k]));
            assert(views_of(r@).contains(sv[k]));
        }
    }
    r
}

/// Where a decryption attempt writes, under the never-clobber policy:
/// nowhere when the plaintext target already exists, else to the
/// artifact path with its `.enc` suffix stripped.
pub fn decrypt_target(enc_path: &[u8], target_exists: bool) -> (r: Option<Vec<u8>>)
    ensures
        (r is Some) == !target_exists,
        r matches Some(d) ==> d@ == spec_dec_output(enc_path@),
{
    if target_exists {
        Option::None
    } else {
        Option::Some(crate::paths::dec_output_path(enc_path))
    }
}

/// The first artifact a candidate key decrypted, if any: the bootstrap
/// loop stops there and accepts the key; when every attempt failed the
/// bootstrap fails and nothing is persisted.
pub fn first_success(outcomes: &Vec<bool>) -> (r: Option<usize>)
    ensures
        r matches Some(i) ==> i < outcomes@.len() && outcomes@[i as int] && (forall|k: int|
            0 <= k < i ==> !outcomes@[k]),
        r is None ==> forall|k: int| 0 <= k < outcomes@.len() ==> !outcomes@[k],
{
    let n = outcomes.len();
    let mut i: usize = 0;
    while i < n
        invariant
            n == outcomes@.len(),
            0 <= i <= n,
            forall|k: int| 0 <= k < i ==> !outcomes@[k],
        decreases n - i,
    {
        if outcomes[i] {
            return Option::Some(i);
        }
        i += 1;
    }
    Option::None
}

/// Pick the repository root: the first candidate directory that holds
/// the version-control marker, walking outward; the fallback when none
/// does.  The caller lists the start directory and its ancestors in
/// order and reports which of them hold the marker.
pub fn find_repo_root(candidates: &Vec<Vec<u8>>, has_marker: &Vec<bool>, fallback: &[u8]) -> (r:
    Vec<u8>)
    requires
        candidates@.len() == has_marker@.len(),
    ensures
        (exists|i: int| 0 <= i < has_marker@.len() && has_marker@[i]) ==> (exists|i: int|
            0 <= i < has_marker@.len() && has_marker@[i] && r@ == #[trigger] candidates@[i]@
                && (forall|k: int| 0 <= k < i ==> !has_marker@[k])),
        (forall|i: int| 0 <= i < has_marker@.len() ==> !has_marker@[i]) ==> r@ == fallback@,
{
    match first_success(has_marker) {
        Option::Some(i) => {
            let r = candidates[i].clone();
            assert(r@ == candidates@[i as int]@);
            r
        },
        Option::None => vstd::slice::slice_to_vec(fallback),
    }
}

} // verus!
