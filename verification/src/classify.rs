//! Classification of discovered environment files into the three
//! categories — plaintext, skeleton and encrypted artifact — and the
//! boolean repository state derived from them.

use vstd::prelude::*;

use crate::bytes::{
    ends_with, starts_with, has_suffix, has_prefix, sort_dedup, strictly_increasing, views_of, lex_le,
};
use crate::paths::{env_prefix, env_prefix_bytes, suffix_enc, suffix_enc_bytes, suffix_example,
    suffix_example_bytes};

verus! {

/// A path names a skeleton (example) file.
pub open spec fn is_skeleton_path(p: Seq<u8>) -> bool {
    ends_with(p, suffix_example())
}

/// A path names an encrypted artifact.  The skeleton suffix wins when a
/// name somehow carried both.
pub open spec fn is_encrypted_path(p: Seq<u8>) -> bool {
    !is_skeleton_path(p) && ends_with(p, suffix_enc())
}

/// A path names a plaintext environment file.
pub open spec fn is_plaintext_path(p: Seq<u8>) -> bool {
    !ends_with(p, suffix_example()) && !ends_with(p, suffix_enc())
}

/// Classification partition: every path falls in exactly one of the three
/// categories.
pub proof fn lemma_classification_partition(p: Seq<u8>)
    ensures
        is_plaintext_path(p) || is_skeleton_path(p) || is_encrypted_path(p),
        is_plaintext_path(p) ==> !is_skeleton_path(p) && !is_encrypted_path(p),
        is_skeleton_path(p) ==> !is_encrypted_path(p) && !is_plaintext_path(p),
        is_encrypted_path(p) ==> !is_plaintext_path(p) && !is_skeleton_path(p),
{
}

/// Classification goes by the file name: a suffix that holds no path
/// separator ends the path exactly when it ends the path's file name,
/// so the three category tests agree with tests on the name alone.
pub proof fn lemma_classify_by_name(p: Seq<u8>)
    ensures
        is_skeleton_path(p) == ends_with(crate::paths::file_name(p), suffix_example()),
        is_encrypted_path(p) == (!ends_with(crate::paths::file_name(p), suffix_example())
            && ends_with(crate::paths::file_name(p), suffix_enc())),
        is_plaintext_path(p) == (!ends_with(crate::paths::file_name(p), suffix_example())
            && !ends_with(crate::paths::file_name(p), suffix_enc())),
{
    assert(forall|k: int| 0 <= k < suffix_example().len() ==> suffix_example()[k] != 47);
    assert(forall|k: int| 0 <= k < suffix_enc().len() ==> suffix_enc()[k] != 47);
    crate::paths::lemma_suffix_on_name(p, suffix_example());
    crate::paths::lemma_suffix_on_name(p, suffix_enc());
}

/// A file name belongs to the tool: it starts with the `.env` prefix.
pub open spec fn is_env_name(name: Seq<u8>) -> bool {
    starts_with(name, env_prefix())
}

/// Whether a file name starts with the environment-file prefix.
pub fn is_env_file_name(name: &[u8]) -> (r: bool)
    ensures
        r == is_env_name(name@),
{
    let pre = env_prefix_bytes();
    has_prefix(name, pre.as_slice())
}

/// Whether a path names a skeleton file.
pub fn path_is_skeleton(p: &[u8]) -> (r: bool)
    ensures
        r == is_skeleton_path(p@),
{
    let suf = suffix_example_bytes();
    has_suffix(p, suf.as_slice())
}

/// Whether a path names an encrypted artifact.
pub fn path_is_encrypted(p: &[u8]) -> (r: bool)
    ensures
        r == is_encrypted_path(p@),
{
    let ex = suffix_example_bytes();
    let en = suffix_enc_bytes();
    !has_suffix(p, ex.as_slice()) && has_suffix(p, en.as_slice())
}

/// Whether a path names a plaintext environment file.
pub fn path_is_plaintext(p: &[u8]) -> (r: bool)
    ensures
        r == is_plaintext_path(p@),
{
    let ex = suffix_example_bytes();
    let en = suffix_enc_bytes();
    !has_suffix(p, ex.as_slice()) && !has_suffix(p, en.as_slice())
}

/// Split discovered paths into plaintext, skeleton and encrypted
/// categories.  Each output is sorted and deduplicated, and holds exactly
/// the input paths of its category; a strictly increasing sequence with a
/// fixed element set is unique, so the outputs are pinned down.
pub fn split_env_files(files: &Vec<Vec<u8>>) -> (r: (Vec<Vec<u8>>, Vec<Vec<u8>>, Vec<Vec<u8>>))
    ensures
        strictly_increasing(views_of(r.0@)),
        strictly_increasing(views_of(r.1@)),
        strictly_increasing(views_of(r.2@)),
        forall|e: Seq<u8>|
            #![trigger views_of(r.0@).contains(e)]
            #![trigger views_of(files@).contains(e), is_plaintext_path(e)]
            views_of(r.0@).contains(e) <==> views_of(files@).contains(e) && is_plaintext_path(e),
        forall|e: Seq<u8>|
            #![trigger views_of(r.1@).contains(e)]
            #![trigger views_of(files@).contains(e), is_skeleton_path(e)]
            views_of(r.1@).contains(e) <==> views_of(files@).contains(e) && is_skeleton_path(e),
        forall|e: Seq<u8>|
            #![trigger views_of(r.2@).contains(e)]
            #![trigger views_of(files@).contains(e), is_encrypted_path(e)]
            views_of(r.2@).contains(e) <==> views_of(files@).contains(e) && is_encrypted_path(e),
{
    let sorted = sort_dedup(files);
    let ghost sv = views_of(sorted@);
    let ghost fv = views_of(files@);
    let ghost pred_p = |e: Seq<u8>| is_plaintext_path(e);
    let ghost pred_s = |e: Seq<u8>| is_skeleton_path(e);
    let ghost pred_e = |e: Seq<u8>| is_encrypted_path(e);
    proof {
        assert(forall|e: Seq<u8>| #![auto] sv.contains(e) == sv.to_set().contains(e));
        assert(forall|e: Seq<u8>| #![auto] fv.contains(e) == fv.to_set().contains(e));
        assert(sv.take(0).filter(pred_p) =~= Seq::<Seq<u8>>::empty());
        assert(sv.take(0).filter(pred_s) =~= Seq::<Seq<u8>>::empty());
        assert(sv.take(0).filter(pred_e) =~= Seq::<Seq<u8>>::empty());
    }
    let n = sorted.len();
    let mut plain: Vec<Vec<u8>> = Vec::new();
    let mut examples: Vec<Vec<u8>> = Vec::new();
    let mut encs: Vec<Vec<u8>> = Vec::new();
    let mut idx: usize = 0;
    while idx < n
        invariant
            n == sorted@.len(),
            0 <= idx <= n,
            sv == views_of(sorted@),
            strictly_increasing(sv),
            forall|e: Seq<u8>| #![auto] sv.contains(e) == fv.contains(e),
            pred_p == (|e: Seq<u8>| is_plaintext_path(e)),
            pred_s == (|e: Seq<u8>| is_skeleton_path(e)),
            pred_e == (|e: Seq<u8>| is_encrypted_path(e)),
            strictly_increasing(views_of(plain@)),
            strictly_increasing(views_of(examples@)),
            strictly_increasing(views_of(encs@)),
            idx == 0 ==> views_of(plain@).len() == 0 && views_of(examples@).len() == 0
                && views_of(encs@).len() == 0,
            idx > 0 ==> forall|k: int|
                0 <= k < views_of(plain@).len() ==> lex_le(
                    #[trigger] views_of(plain@)[k],
                    sv[idx - 1],
                ),
            idx > 0 ==> forall|k: int|
                0 <= k < views_of(examples@).len() ==> lex_le(
                    #[trigger] views_of(examples@)[k],
                    sv[idx - 1],
                ),
            idx > 0 ==> forall|k: int|
                0 <= k < views_of(encs@).len() ==> lex_le(
                    #[trigger] views_of(encs@)[k],
                    sv[idx - 1],
                ),
            views_of(plain@) == sv.take(idx as int).filter(pred_p),
            views_of(examples@) == sv.take(idx as int).filter(pred_s),
            views_of(encs@) == sv.take(idx as int).filter(pred_e),
        decreases n - idx,
    {
        let p = sorted[idx].clone();
        let ghost pv = p@;
        assert(pv == sv[idx as int]);
        let ghost old_real = views_of(plain@);
        let ghost old_examples = views_of(examples@);
        let ghost old_encs = views_of(encs@);
        proof {
            let tplus = sv.take(idx + 1);
            assert(tplus.len() == idx + 1);
            assert(tplus.drop_last() =~= sv.take(idx as int));
            assert(tplus.last() == pv);
            crate::bytes::lemma_filter_step(tplus, pred_p);
            crate::bytes::lemma_filter_step(tplus, pred_s);
            crate::bytes::lemma_filter_step(tplus, pred_e);
        }
        if path_is_skeleton(p.as_slice()) {
            examples.push(p);
            proof {
                assert(views_of(examples@) =~= old_examples.push(pv));
                crate::bytes::lemma_order_step(old_examples, views_of(examples@), sv, idx as int, pv);
                crate::bytes::lemma_order_step(old_real, views_of(plain@), sv, idx as int, pv);
                crate::bytes::lemma_order_step(old_encs, views_of(encs@), sv, idx as int, pv);
            }
        } else if path_is_encrypted(p.as_slice()) {
            encs.push(p);
            proof {
                assert(views_of(encs@) =~= old_encs.push(pv));
                crate::bytes::lemma_order_step(old_encs, views_of(encs@), sv, idx as int, pv);
                crate::bytes::lemma_order_step(old_real, views_of(plain@), sv, idx as int, pv);
                crate::bytes::lemma_order_step(old_examples, views_of(examples@), sv, idx as int, pv);
            }
        } else {
            plain.push(p);
            proof {
                assert(views_of(plain@) =~= old_real.push(pv));
                crate::bytes::lemma_order_step(old_real, views_of(plain@), sv, idx as int, pv);
                crate::bytes::lemma_order_step(old_examples, views_of(examples@), sv, idx as int, pv);
                crate::bytes::lemma_order_step(old_encs, views_of(encs@), sv, idx as int, pv);
            }
        }
        idx += 1;
    }
    proof {
        assert(sv.take(n as int) =~= sv);
        crate::bytes::lemma_filter_member(sv, pred_p);
        crate::bytes::lemma_filter_member(sv, pred_s);
        crate::bytes::lemma_filter_member(sv, pred_e);
    }
    (plain, examples, encs)
}

/// The boolean summary of a repository: which categories exist and
/// whether the config file is valid.
#[derive(Clone, Copy, Debug, PartialEq, Eq, Structural)]
pub struct EenvState {
    /// Some encrypted artifact exists.
    pub enc: bool,
    /// Some skeleton file exists.
    pub example: bool,
    /// Some plaintext environment file exists.
    pub env: bool,
    /// The config file exists and is valid.
    pub eenvjson: bool,
}

/// Derive the repository state from the classified files and the config
/// validity.  Pure: no side effects, no disk access.
pub fn compute_eenv_state(
    plain: &Vec<Vec<u8>>,
    examples: &Vec<Vec<u8>>,
    encs: &Vec<Vec<u8>>,
    config_valid: bool,
) -> (r: EenvState)
    ensures
        r.enc == (encs@.len() > 0),
        r.example == (examples@.len() > 0),
        r.env == (plain@.len() > 0),
        r.eenvjson == config_valid,
{
    EenvState {
        enc: encs.len() > 0,
        example: examples.len() > 0,
        env: plain.len() > 0,
        eenvjson: config_valid,
    }
}

} // verus!
