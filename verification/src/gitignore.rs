//! Ignore-file reconciliation: banned allow-patterns are removed, a
//! deny-pattern for every discovered plaintext environment file and for
//! the config file is appended when missing, and the result is reported
//! as a pure edit for the caller to persist.

use vstd::prelude::*;

use crate::bytes::{
    bytes_eq, contains_byte, find_first, first_idx, lemma_filter_member, lemma_filter_step,
    lemma_first_idx, lemma_order_step, lex_le, sort_dedup, starts_with, strictly_increasing,
    trim, trim_of, views_of,
};
use crate::classify::is_plaintext_path;
use crate::lines::{join_lines, render, spec_lines, split_lines, NL};
use crate::paths::{config_name, config_name_bytes, env_prefix, spec_join, suffix_enc,
    suffix_example, SEP};

verus! {

/// `#`, which opens a trailing comment on an ignore line.
pub const HASH: u8 = 35;

/// `*`, the wildcard byte of the banned vocabulary.
pub const STAR: u8 = 42;

/// `\`, the escape byte of ignore patterns.
pub const BSL: u8 = 92;

/// ` `, the one byte that patterns escape.
pub const SPACE: u8 = 32;

/// The ignore file's name: `.gitignore` in ASCII bytes.
pub open spec fn gitignore_name() -> Seq<u8> {
    seq![46u8, 103u8, 105u8, 116u8, 105u8, 103u8, 110u8, 111u8, 114u8, 101u8]
}

/// The `.gitignore` name as a vector.
pub fn gitignore_name_bytes() -> (r: Vec<u8>)
    ensures
        r@ == gitignore_name(),
{
    let mut r: Vec<u8> = Vec::new();
    r.push(46);
    r.push(103);
    r.push(105);
    r.push(116);
    r.push(105);
    r.push(103);
    r.push(110);
    r.push(111);
    r.push(114);
    r.push(101);
    assert(r@ =~= gitignore_name());
    r
}

/// The comment line the tool writes above the patterns it appends:
/// `# added by eenv` in ASCII bytes.
pub open spec fn header_line() -> Seq<u8> {
    seq![
        35u8, 32u8, 97u8, 100u8, 100u8, 101u8, 100u8, 32u8, 98u8, 121u8, 32u8, 101u8,
        101u8, 110u8, 118u8,
    ]
}

/// The appended-block header as a vector.
pub fn header_line_bytes() -> (r: Vec<u8>)
    ensures
        r@ == header_line(),
{
    let mut r: Vec<u8> = Vec::new();
    r.push(35);
    r.push(32);
    r.push(97);
    r.push(100);
    r.push(100);
    r.push(101);
    r.push(100);
    r.push(32);
    r.push(98);
    r.push(121);
    r.push(32);
    r.push(101);
    r.push(101);
    r.push(110);
    r.push(118);
    assert(r@ =~= header_line());
    r
}

/// The core of an ignore line: everything before the first `#`, trimmed.
pub open spec fn spec_pattern_core(l: Seq<u8>) -> Seq<u8> {
    trim(l.take(first_idx(l, HASH) as int))
}

/// Compute the core of an ignore line.
pub fn pattern_core(l: &[u8]) -> (r: Vec<u8>)
    ensures
        r@ == spec_pattern_core(l@),
{
    proof {
        lemma_first_idx(l@, HASH);
    }
    let i = find_first(l, HASH);
    let head = vstd::slice::slice_subrange(l, 0, i);
    assert(head@ =~= l@.take(first_idx(l@, HASH) as int));
    trim_of(head)
}

/// The banned vocabulary: exact cores that would wrongly ignore skeleton
/// files or encrypted artifacts.
pub open spec fn spec_banned_core(c: Seq<u8>) -> bool {
    ||| c == env_prefix() + suffix_example()
    ||| c == env_prefix() + seq![STAR] + suffix_example()
    ||| c == env_prefix() + seq![46u8, STAR] + suffix_example()
    ||| c == seq![STAR] + env_prefix() + suffix_example()
    ||| c == env_prefix() + suffix_enc()
    ||| c == env_prefix() + seq![STAR] + suffix_enc()
    ||| c == env_prefix() + seq![46u8, STAR] + suffix_enc()
    ||| c == seq![STAR] + env_prefix() + suffix_enc()
}

/// One banned form: a base name with an optional infix before the suffix
/// or the wildcard in front.
fn banned_candidate(lead_star: bool, infix_dot_star: bool, infix_star: bool, example: bool) -> (r:
    Vec<u8>)
    ensures
        r@ == (if lead_star {
            seq![STAR]
        } else {
            Seq::<u8>::empty()
        }) + env_prefix() + (if infix_dot_star {
            seq![46u8, STAR]
        } else if infix_star {
            seq![STAR]
        } else {
            Seq::<u8>::empty()
        }) + (if example {
            suffix_example()
        } else {
            suffix_enc()
        }),
{
    let mut r: Vec<u8> = Vec::new();
    if lead_star {
        r.push(STAR);
    }
    let mut pre = crate::paths::env_prefix_bytes();
    r.append(&mut pre);
    if infix_dot_star {
        r.push(46);
        r.push(STAR);
    } else if infix_star {
        r.push(STAR);
    }
    let mut suf = if example {
        crate::paths::suffix_example_bytes()
    } else {
        crate::paths::suffix_enc_bytes()
    };
    r.append(&mut suf);
    assert(r@ =~= (if lead_star {
        seq![STAR]
    } else {
        Seq::<u8>::empty()
    }) + env_prefix() + (if infix_dot_star {
        seq![46u8, STAR]
    } else if infix_star {
        seq![STAR]
    } else {
        Seq::<u8>::empty()
    }) + (if example {
        suffix_example()
    } else {
        suffix_enc()
    }));
    r
}

/// Whether a core belongs to the banned vocabulary.
pub fn is_banned_core(c: &[u8]) -> (r: bool)
    ensures
        r == spec_banned_core(c@),
{
    let mut hit = false;
    let b1 = banned_candidate(false, false, false, true);
    assert(b1@ =~= env_prefix() + suffix_example());
    hit = hit || bytes_eq(c, b1.as_slice());
    let b2 = banned_candidate(false, false, true, true);
    assert(b2@ =~= env_prefix() + seq![STAR] + suffix_example());
    hit = hit || bytes_eq(c, b2.as_slice());
    let b3 = banned_candidate(false, true, false, true);
    assert(b3@ =~= env_prefix() + seq![46u8, STAR] + suffix_example());
    hit = hit || bytes_eq(c, b3.as_slice());
    let b4 = banned_candidate(true, false, false, true);
    assert(b4@ =~= seq![STAR] + env_prefix() + suffix_example());
    hit = hit || bytes_eq(c, b4.as_slice());
    let b5 = banned_candidate(false, false, false, false);
    assert(b5@ =~= env_prefix() + suffix_enc());
    hit = hit || bytes_eq(c, b5.as_slice());
    let b6 = banned_candidate(false, false, true, false);
    assert(b6@ =~= env_prefix() + seq![STAR] + suffix_enc());
    hit = hit || bytes_eq(c, b6.as_slice());
    let b7 = banned_candidate(false, true, false, false);
    assert(b7@ =~= env_prefix() + seq![46u8, STAR] + suffix_enc());
    hit = hit || bytes_eq(c, b7.as_slice());
    let b8 = banned_candidate(true, false, false, false);
    assert(b8@ =~= seq![STAR] + env_prefix() + suffix_enc());
    hit = hit || bytes_eq(c, b8.as_slice());
    hit
}

/// A line is removed when its core is non-empty and banned.
pub open spec fn spec_line_banned(l: Seq<u8>) -> bool {
    spec_pattern_core(l).len() > 0 && spec_banned_core(spec_pattern_core(l))
}

/// The lines of the original ignore text that survive removal.
pub open spec fn spec_kept(orig: Seq<u8>) -> Seq<Seq<u8>> {
    spec_lines(orig).filter(|l: Seq<u8>| !spec_line_banned(l))
}

/// The lines of the original ignore text that removal drops.
pub open spec fn spec_removed(orig: Seq<u8>) -> Seq<Seq<u8>> {
    spec_lines(orig).filter(|l: Seq<u8>| spec_line_banned(l))
}

/// The relative form of an absolute path under a root: the root prefix
/// and its separator stripped; absent when the path lies outside the
/// root.
pub open spec fn spec_rel_of(abs: Seq<u8>, root: Seq<u8>) -> Option<Seq<u8>> {
    if root.len() == 0 {
        Option::Some(abs)
    } else if abs == root {
        Option::Some(Seq::empty())
    } else if starts_with(abs, root + seq![SEP]) {
        Option::Some(abs.skip(root.len() as int + 1))
    } else {
        Option::None
    }
}

/// Backslashes become forward slashes.
pub open spec fn normalize_slashes(s: Seq<u8>) -> Seq<u8> {
    s.map_values(|b: u8| if b == BSL {
        SEP
    } else {
        b
    })
}

/// Spaces gain a backslash escape.
pub open spec fn escape_spaces(s: Seq<u8>) -> Seq<u8>
    decreases s.len(),
{
    if s.len() == 0 {
        Seq::empty()
    } else {
        escape_spaces(s.drop_last()) + (if s.last() == SPACE {
            seq![BSL, SPACE]
        } else {
            seq![s.last()]
        })
    }
}

/// The ignore pattern for a relative path: slash-normalized and
/// space-escaped; the root itself maps to `/`.
pub open spec fn spec_pattern_of_rel(rel: Seq<u8>) -> Seq<u8> {
    if rel.len() == 0 {
        seq![SEP]
    } else {
        escape_spaces(normalize_slashes(rel))
    }
}

/// The ignore pattern for an absolute path under a root, when it lies
/// under the root.
pub open spec fn spec_rel_pattern(abs: Seq<u8>, root: Seq<u8>) -> Option<Seq<u8>> {
    match spec_rel_of(abs, root) {
        Option::Some(rel) => Option::Some(spec_pattern_of_rel(rel)),
        Option::None => Option::None,
    }
}

/// Compute the ignore pattern for an absolute path under a root.
pub fn to_gitignore_rel_pattern(abs: &[u8], root: &[u8]) -> (r: Option<Vec<u8>>)
    ensures
        r is Some <==> spec_rel_pattern(abs@, root@) is Some,
        r matches Some(p) ==> Option::Some(p@) == spec_rel_pattern(abs@, root@),
{
    let rel: Vec<u8>;
    if root.len() == 0 {
        rel = vstd::slice::slice_to_vec(abs);
    } else if bytes_eq(abs, root) {
        rel = Vec::new();
        assert(rel@ =~= Seq::<u8>::empty());
    } else {
        let mut pre = vstd::slice::slice_to_vec(root);
        pre.push(SEP);
        assert(pre@ =~= root@ + seq![SEP]);
        if crate::bytes::has_prefix(abs, pre.as_slice()) {
            let alen = abs.len();
            assert(alen >= root@.len() + 1);
            let out = vstd::slice::slice_subrange(abs, root.len() + 1, alen);
            rel = vstd::slice::slice_to_vec(out);
            assert(rel@ =~= abs@.skip(root@.len() as int + 1));
        } else {
            return Option::None;
        }
    }
    // normalize and escape
    let n = rel.len();
    let ghost rv = rel@;
    let mut out: Vec<u8> = Vec::new();
    if n == 0 {
        out.push(SEP);
        assert(out@ =~= spec_pattern_of_rel(rv));
        return Option::Some(out);
    }
    let mut i: usize = 0;
    while i < n
        invariant
            n == rel@.len(),
            rv == rel@,
            0 <= i <= n,
            out@ == escape_spaces(normalize_slashes(rv.take(i as int))),
        decreases n - i,
    {
        let b = rel[i];
        let nb = if b == BSL {
            SEP
        } else {
            b
        };
        if nb == SPACE {
            out.push(BSL);
            out.push(SPACE);
        } else {
            out.push(nb);
        }
        proof {
            let p = normalize_slashes(rv.take(i + 1));
            assert(p.drop_last() =~= normalize_slashes(rv.take(i as int)));
            assert(p.last() == (if rv[i as int] == BSL {
                SEP
            } else {
                rv[i as int]
            }));
            assert(escape_spaces(p) == escape_spaces(p.drop_last()) + (if p.last() == SPACE {
                seq![BSL, SPACE]
            } else {
                seq![p.last()]
            }));
            assert(out@ =~= escape_spaces(p));
        }
        i += 1;
    }
    assert(rv.take(n as int) =~= rv);
    Option::Some(out)
}

/// A required pattern: the config file's name, or the pattern of some
/// discovered plaintext environment file that lies under the root.
pub open spec fn in_required(p: Seq<u8>, files: Seq<Seq<u8>>, root: Seq<u8>) -> bool {
    p == config_name() || exists|i: int|
        0 <= i < files.len() && is_plaintext_path(#[trigger] files[i]) && spec_rel_pattern(
            files[i],
            root,
        ) == Option::Some(p)
}

/// Some line of `ls` has exactly the core `pat`.
pub open spec fn core_present(ls: Seq<Seq<u8>>, pat: Seq<u8>) -> bool {
    exists|i: int| 0 <= i < ls.len() && spec_pattern_core(#[trigger] ls[i]) == pat
}

/// The text that reconciliation writes: the kept lines, and when any
/// pattern is missing, a blank separator (unless the last kept line is
/// already blank), the header comment and the missing patterns.
pub open spec fn spec_new_text(orig: Seq<u8>, added: Seq<Seq<u8>>) -> Seq<u8> {
    if added.len() == 0 {
        render(spec_kept(orig))
    } else {
        let kept = spec_kept(orig);
        let sep: Seq<Seq<u8>> = if kept.len() > 0 && trim(kept.last()).len() > 0 {
            seq![Seq::<u8>::empty()]
        } else {
            Seq::empty()
        };
        render(kept + sep + seq![header_line()] + added)
    }
}

/// The outcome of reconciling the ignore file.
#[derive(Debug)]
pub struct GitignoreEdit {
    /// Where the ignore file lives: the root joined with its name.
    pub path: Vec<u8>,
    /// The full text the file must hold after the edit.
    pub text: Vec<u8>,
    /// The patterns that were appended, in sorted order.
    pub added: Vec<Vec<u8>>,
    /// The original lines that were removed as banned.
    pub removed: Vec<Vec<u8>>,
    /// Whether the new text differs from the original.
    pub changed: bool,
}

/// Reconcile the ignore file: drop banned lines, append the missing
/// required patterns under a header, and report the edit.  Pure: the
/// caller reads the original text and persists `text` when `changed`.
pub fn fix_gitignore_from_found(
    root: &[u8],
    original: &[u8],
    real_env_files: &Vec<Vec<u8>>,
) -> (r: GitignoreEdit)
    ensures
        r.path@ == spec_join(root@, gitignore_name()),
        views_of(r.removed@) == spec_removed(original@),
        strictly_increasing(views_of(r.added@)),
        forall|p: Seq<u8>|
            #![trigger views_of(r.added@).contains(p)]
            #![trigger in_required(p, views_of(real_env_files@), root@)]
            views_of(r.added@).contains(p) <==> in_required(p, views_of(real_env_files@), root@)
                && !core_present(spec_kept(original@), p),
        r.text@ == spec_new_text(original@, views_of(r.added@)),
        r.changed == (r.text@ != original@),
{
    let ghost fv = views_of(real_env_files@);
    let path = crate::paths::join_path(root, gitignore_name_bytes().as_slice());
    let lines = split_lines(original);
    let ghost lv = views_of(lines@);

    // 1) drop banned lines
    let ghost pred_ban = |l: Seq<u8>| spec_line_banned(l);
    let ghost pred_keep = |l: Seq<u8>| !spec_line_banned(l);
    let n_lines = lines.len();
    let mut kept: Vec<Vec<u8>> = Vec::new();
    let mut removed: Vec<Vec<u8>> = Vec::new();
    proof {
        assert(lv.take(0).filter(pred_ban) =~= Seq::<Seq<u8>>::empty());
        assert(lv.take(0).filter(pred_keep) =~= Seq::<Seq<u8>>::empty());
    }
    let mut i: usize = 0;
    while i < n_lines
        invariant
            n_lines == lines@.len(),
            lv == views_of(lines@),
            0 <= i <= n_lines,
            pred_ban == (|l: Seq<u8>| spec_line_banned(l)),
            pred_keep == (|l: Seq<u8>| !spec_line_banned(l)),
            views_of(kept@) == lv.take(i as int).filter(pred_keep),
            views_of(removed@) == lv.take(i as int).filter(pred_ban),
        decreases n_lines - i,
    {
        let line = lines[i].clone();
        let ghost linev = line@;
        assert(linev == lv[i as int]);
        let core = pattern_core(line.as_slice());
        let banned = core.len() > 0 && is_banned_core(core.as_slice());
        assert(banned == spec_line_banned(linev));
        let ghost old_kept = views_of(kept@);
        let ghost old_removed = views_of(removed@);
        proof {
            let tplus = lv.take(i + 1);
            assert(tplus.drop_last() =~= lv.take(i as int));
            assert(tplus.last() == linev);
            lemma_filter_step(tplus, pred_keep);
            lemma_filter_step(tplus, pred_ban);
        }
        if banned {
            removed.push(line);
            assert(views_of(removed@) =~= old_removed.push(linev));
        } else {
            kept.push(line);
            assert(views_of(kept@) =~= old_kept.push(linev));
        }
        i += 1;
    }
    proof {
        assert(lv.take(n_lines as int) =~= lv);
        assert(views_of(kept@) == spec_kept(original@));
        assert(views_of(removed@) == spec_removed(original@));
    }
    let ghost keptv = views_of(kept@);

    // 2) collect candidate patterns from the discovered plaintext files
    let n_files = real_env_files.len();
    let mut candidates: Vec<Vec<u8>> = Vec::new();
    proof {
        assert(spec_candidates(fv.take(0), root@) =~= Seq::<Seq<u8>>::empty());
    }
    let mut j: usize = 0;
    while j < n_files
        invariant
            n_files == real_env_files@.len(),
            fv == views_of(real_env_files@),
            0 <= j <= n_files,
            views_of(candidates@) == spec_candidates(fv.take(j as int), root@),
        decreases n_files - j,
    {
        let abs = &real_env_files[j];
        let ghost absv = abs@;
        assert(absv == fv[j as int]);
        let ghost old_c = views_of(candidates@);
        proof {
            let tplus = fv.take(j + 1);
            assert(tplus.drop_last() =~= fv.take(j as int));
            assert(tplus.last() == absv);
        }
        if crate::classify::path_is_plaintext(abs.as_slice()) {
            match to_gitignore_rel_pattern(abs.as_slice(), root) {
                Option::Some(pat) => {
                    candidates.push(pat);
                    assert(views_of(candidates@) =~= old_c.push(
                        spec_rel_pattern(absv, root@).unwrap(),
                    ));
                },
                Option::None => {},
            }
        }
        assert(views_of(candidates@) == spec_candidates(fv.take(j + 1), root@));
        j += 1;
    }
    proof {
        assert(fv.take(n_files as int) =~= fv);
    }
    candidates.push(config_name_bytes());
    let ghost candv = views_of(candidates@);
    proof {
        assert(candv =~= spec_candidates(fv, root@).push(config_name()));
    }
    let req = sort_dedup(&candidates);
    let ghost reqv = views_of(req@);

    // 3) keep only the patterns whose core is not already present
    let ghost pred_miss = |p: Seq<u8>| !core_present(keptv, p);
    proof {
        assert(reqv.take(0).filter(pred_miss) =~= Seq::<Seq<u8>>::empty());
    }
    let n_req = req.len();
    let mut added: Vec<Vec<u8>> = Vec::new();
    let mut m: usize = 0;
    while m < n_req
        invariant
            n_req == req@.len(),
            reqv == views_of(req@),
            keptv == views_of(kept@),
            pred_miss == (|p: Seq<u8>| !core_present(keptv, p)),
            strictly_increasing(reqv),
            strictly_increasing(views_of(added@)),
            0 <= m <= n_req,
            m == 0 ==> views_of(added@).len() == 0,
            m > 0 ==> forall|k: int|
                0 <= k < views_of(added@).len() ==> lex_le(
                    #[trigger] views_of(added@)[k],
                    reqv[m - 1],
                ),
            views_of(added@) == reqv.take(m as int).filter(pred_miss),
        decreases n_req - m,
    {
        let pat = req[m].clone();
        let ghost patv = pat@;
        assert(patv == reqv[m as int]);
        let present = core_in_lines(&kept, pat.as_slice());
        let ghost old_added = views_of(added@);
        proof {
            let tplus = reqv.take(m + 1);
            assert(tplus.drop_last() =~= reqv.take(m as int));
            assert(tplus.last() == patv);
            lemma_filter_step(tplus, pred_miss);
        }
        if !present {
            added.push(pat);
            assert(views_of(added@) =~= old_added.push(patv));
        }
        proof {
            lemma_order_step(old_added, views_of(added@), reqv, m as int, patv);
        }
        m += 1;
    }
    proof {
        assert(reqv.take(n_req as int) =~= reqv);
    }

    // 4) assemble the new line list and text
    let mut new_lines = kept;
    let ghost addedv = views_of(added@);
    if added.len() > 0 {
        let last_blank = {
            let nl = new_lines.len();
            if nl == 0 {
                true
            } else {
                let t = trim_of(new_lines[nl - 1].as_slice());
                t.len() == 0
            }
        };
        let ghost sep: Seq<Seq<u8>> = if keptv.len() > 0 && trim(keptv.last()).len() > 0 {
            seq![Seq::<u8>::empty()]
        } else {
            Seq::<Seq<u8>>::empty()
        };
        if !last_blank {
            new_lines.push(Vec::new());
        }
        assert(views_of(new_lines@) =~= keptv + sep);
        new_lines.push(header_line_bytes());
        let nadd = added.len();
        let mut q: usize = 0;
        while q < nadd
            invariant
                nadd == added@.len(),
                addedv == views_of(added@),
                0 <= q <= nadd,
                views_of(new_lines@) =~= keptv + sep + seq![header_line()] + addedv.take(q as int),
            decreases nadd - q,
        {
            let ghost before = views_of(new_lines@);
            new_lines.push(added[q].clone());
            proof {
                assert(views_of(new_lines@) =~= before.push(addedv[q as int]));
                assert((keptv + sep + seq![header_line()] + addedv.take(q + 1)) =~= before.push(
                    addedv[q as int],
                ));
            }
            q += 1;
        }
        assert(addedv.take(nadd as int) =~= addedv);
    }
    let text = join_lines(&new_lines);
    proof {
        if addedv.len() == 0 {
            assert(views_of(new_lines@) == keptv);
            assert(text@ == spec_new_text(original@, addedv));
        } else {
            assert(text@ == spec_new_text(original@, addedv));
        }
    }
    let changed = !bytes_eq(text.as_slice(), original);
    proof {
        // membership of the appended patterns: filter over the sorted
        // requirements, whose element set is the candidates plus the
        // config name
        lemma_filter_member(reqv, pred_miss);
        lemma_candidates_member(fv, root@);
        let cands = spec_candidates(fv, root@);
        assert(forall|p: Seq<u8>| #![auto] reqv.contains(p) == reqv.to_set().contains(p));
        assert(forall|p: Seq<u8>| #![auto] candv.contains(p) == candv.to_set().contains(p));
        assert forall|p: Seq<u8>| #![auto] views_of(added@).contains(p) implies in_required(
            p,
            fv,
            root@,
        ) && !core_present(keptv, p) by {
            assert(reqv.contains(p) && !core_present(keptv, p));
            assert(candv.contains(p));
            let k = choose|k: int| 0 <= k < candv.len() && candv[k] == p;
            if k == candv.len() - 1 {
                assert(p == config_name());
            } else {
                assert(candv[k] == cands[k]);
                assert(cands.contains(p));
            }
        }
        assert forall|p: Seq<u8>| #![auto] in_required(p, fv, root@) && !core_present(keptv, p)
            implies views_of(added@).contains(p) by {
            if p == config_name() {
                assert(candv[candv.len() - 1] == p);
                assert(candv.contains(p));
            } else {
                assert(cands.contains(p));
                let k = choose|k: int| 0 <= k < cands.len() && cands[k] == p;
                assert(candv[k] == p);
                assert(candv.contains(p));
            }
            assert(reqv.contains(p));
        }
        assert(views_of(kept@) == spec_kept(original@));
    }
    GitignoreEdit { path, text, added, removed, changed }
}

/// Make sure the ignore text covers the config file alone, touching no
/// other line: used during key bootstrap, before any environment file's
/// state is known.  When some line's core already names the config file
/// the text is returned unchanged; otherwise the header comment and the
/// config file's name are appended and the result is newline-terminated.
pub fn ensure_gitignore_has_config(original: &[u8]) -> (r: (Vec<u8>, bool))
    ensures
        core_present(spec_lines(original@), config_name()) ==> r.0@ == original@ && r.1 == false,
        !core_present(spec_lines(original@), config_name()) ==> r.1 == true && r.0@ == render(
            spec_lines(original@) + (if spec_lines(original@).len() > 0 && trim(
                spec_lines(original@).last(),
            ).len() > 0 {
                seq![Seq::<u8>::empty()]
            } else {
                Seq::<Seq<u8>>::empty()
            }) + seq![header_line(), config_name()],
        ),
{
    let lines = split_lines(original);
    let ghost lv = views_of(lines@);
    let cfg = config_name_bytes();
    if core_in_lines(&lines, cfg.as_slice()) {
        (vstd::slice::slice_to_vec(original), false)
    } else {
        let ghost sep: Seq<Seq<u8>> = if lv.len() > 0 && trim(lv.last()).len() > 0 {
            seq![Seq::<u8>::empty()]
        } else {
            Seq::<Seq<u8>>::empty()
        };
        let mut new_lines = lines;
        let last_blank = {
            let nl = new_lines.len();
            if nl == 0 {
                true
            } else {
                let tl = trim_of(new_lines[nl - 1].as_slice());
                tl.len() == 0
            }
        };
        if !last_blank {
            new_lines.push(Vec::new());
        }
        assert(views_of(new_lines@) =~= lv + sep);
        new_lines.push(header_line_bytes());
        new_lines.push(cfg);
        assert(views_of(new_lines@) =~= lv + sep + seq![header_line(), config_name()]);
        let text = join_lines(&new_lines);
        (text, true)
    }
}

/// Whether some kept line's core equals the pattern.
fn core_in_lines(ls: &Vec<Vec<u8>>, pat: &[u8]) -> (r: bool)
    ensures
        r == core_present(views_of(ls@), pat@),
{
    let n = ls.len();
    let mut i: usize = 0;
    while i < n
        invariant
            n == ls@.len(),
            0 <= i <= n,
            forall|k: int|
                0 <= k < i ==> spec_pattern_core(#[trigger] views_of(ls@)[k]) != pat@,
        decreases n - i,
    {
        let core = pattern_core(ls[i].as_slice());
        if bytes_eq(core.as_slice(), pat) {
            assert(spec_pattern_core(views_of(ls@)[i as int]) == pat@);
            return true;
        }
        i += 1;
    }
    assert forall|k: int|
        0 <= k < views_of(ls@).len() implies spec_pattern_core(#[trigger] views_of(ls@)[k])
        != pat@ by {}
    false
}

/// The candidate patterns of the discovered files, in input order: one
/// per plaintext path that lies under the root.
pub open spec fn spec_candidates(files: Seq<Seq<u8>>, root: Seq<u8>) -> Seq<Seq<u8>>
    decreases files.len(),
{
    if files.len() == 0 {
        Seq::empty()
    } else {
        let rest = spec_candidates(files.drop_last(), root);
        let p = files.last();
        if is_plaintext_path(p) && spec_rel_pattern(p, root) is Some {
            rest.push(spec_rel_pattern(p, root).unwrap())
        } else {
            rest
        }
    }
}

/// Membership in the candidate sequence is existence of a source file.
proof fn lemma_candidates_member(files: Seq<Seq<u8>>, root: Seq<u8>)
    ensures
        forall|p: Seq<u8>|
            #![auto]
            spec_candidates(files, root).contains(p) <==> exists|i: int|
                0 <= i < files.len() && is_plaintext_path(#[trigger] files[i]) && spec_rel_pattern(
                    files[i],
                    root,
                ) == Option::Some(p),
    decreases files.len(),
{
    if files.len() > 0 {
        let t = files.drop_last();
        let x = files.last();
        lemma_candidates_member(t, root);
        let c = spec_candidates(files, root);
        let cr = spec_candidates(t, root);
        assert forall|p: Seq<u8>| #![auto] c.contains(p) implies exists|i: int|
            0 <= i < files.len() && is_plaintext_path(#[trigger] files[i]) && spec_rel_pattern(
                files[i],
                root,
            ) == Option::Some(p) by {
            let k = choose|k: int| 0 <= k < c.len() && c[k] == p;
            if is_plaintext_path(x) && spec_rel_pattern(x, root) is Some && k == c.len() - 1 {
                assert(files[files.len() - 1] == x);
                assert(is_plaintext_path(files[files.len() - 1]));
            } else {
                assert(c[k] == cr[k]);
                assert(cr.contains(p));
                let i = choose|i: int|
                    0 <= i < t.len() && is_plaintext_path(#[trigger] t[i]) && spec_rel_pattern(
                        t[i],
                        root,
                    ) == Option::Some(p);
                assert(files[i] == t[i]);
                assert(is_plaintext_path(files[i]));
            }
        }
        assert forall|p: Seq<u8>|
            (exists|i: int|
                0 <= i < files.len() && is_plaintext_path(#[trigger] files[i]) && spec_rel_pattern(
                    files[i],
                    root,
                ) == Option::Some(p)) implies #[trigger] c.contains(p) by {
            let i = choose|i: int|
                0 <= i < files.len() && is_plaintext_path(#[trigger] files[i]) && spec_rel_pattern(
                    files[i],
                    root,
                ) == Option::Some(p);
            if i < files.len() - 1 {
                assert(t[i] == files[i]);
                assert(is_plaintext_path(t[i]) && spec_rel_pattern(t[i], root) == Option::Some(p));
                assert(cr.contains(p));
                let k = choose|k: int| 0 <= k < cr.len() && cr[k] == p;
                assert(c[k] == p);
            } else {
                assert(files[i] == x);
                assert(c[c.len() - 1] == p);
            }
        }
    }
}

/// The empty line has the empty core.
proof fn lemma_core_of_empty()
    ensures
        spec_pattern_core(Seq::<u8>::empty()) == Seq::<u8>::empty(),
{
    let e = Seq::<u8>::empty();
    lemma_first_idx(e, HASH);
    assert(e.take(0) =~= e);
    assert(crate::bytes::trim_front(e) == e);
    assert(crate::bytes::trim_back(e) == e);
}

/// The header line is well formed and is never removed: its core is
/// empty.
proof fn lemma_header_facts()
    ensures
        !contains_byte(header_line(), NL),
        crate::lines::strip_cr(header_line()) == header_line(),
        spec_pattern_core(header_line()) == Seq::<u8>::empty(),
        !spec_line_banned(header_line()),
{
    let h = header_line();
    assert(h.len() == 15);
    assert forall|k: int| 0 <= k < 15 implies h[k] != NL by {
        assert(h[0] == 35 && h[1] == 32 && h[2] == 97 && h[3] == 100 && h[4] == 100 && h[5]
            == 101 && h[6] == 100 && h[7] == 32 && h[8] == 98 && h[9] == 121 && h[10] == 32
            && h[11] == 101 && h[12] == 101 && h[13] == 110 && h[14] == 118);
    }
    if contains_byte(h, NL) {
        let k = choose|k: int| 0 <= k < h.len() && h[k] == NL;
        assert(false);
    }
    assert(h.last() == 118);
    assert(crate::lines::strip_cr(h) == h);
    assert(h[0] == HASH);
    lemma_first_idx(h, HASH);
    assert(first_idx(h, HASH) == 0);
    assert(h.take(0) =~= Seq::<u8>::empty());
    assert(crate::bytes::trim_front(Seq::<u8>::empty()) == Seq::<u8>::empty());
    assert(crate::bytes::trim_back(Seq::<u8>::empty()) == Seq::<u8>::empty());
}

/// A clean pattern — equal to its own core, non-empty — ends in no
/// carriage return and survives as a line whose core is itself.
proof fn lemma_clean_pattern(p: Seq<u8>)
    requires
        spec_pattern_core(p) == p,
        p.len() > 0,
    ensures
        crate::lines::strip_cr(p) == p,
{
    lemma_first_idx(p, HASH);
    let y = p.take(first_idx(p, HASH) as int);
    crate::bytes::lemma_trim_props(y, 0);
    assert(trim(y) == p);
    assert(!crate::bytes::is_ws(p.last()));
    assert(p.last() != 13);
    assert(crate::lines::strip_cr(p) == p);
}

/// Every kept line is a well-formed line of the original text and is not
/// banned.  The text's lines must be free of a trailing carriage return
/// (one survives splitting only where the text doubled it before the
/// line break).
proof fn lemma_kept_facts(orig: Seq<u8>)
    requires
        forall|i: int|
            0 <= i < spec_lines(orig).len() ==> crate::lines::strip_cr(
                #[trigger] spec_lines(orig)[i],
            ) == spec_lines(orig)[i],
    ensures
        forall|i: int|
            0 <= i < spec_kept(orig).len() ==> !contains_byte(#[trigger] spec_kept(orig)[i], NL)
                && crate::lines::strip_cr(spec_kept(orig)[i]) == spec_kept(orig)[i]
                && !spec_line_banned(spec_kept(orig)[i]),
{
    let ls = spec_lines(orig);
    let kept = spec_kept(orig);
    crate::lines::lemma_lines_wf(orig);
    lemma_filter_member(ls, |l: Seq<u8>| !spec_line_banned(l));
    assert forall|i: int|
        0 <= i < kept.len() implies !contains_byte(#[trigger] kept[i], NL)
            && crate::lines::strip_cr(kept[i]) == kept[i] && !spec_line_banned(kept[i]) by {
        assert(kept.contains(kept[i]));
        assert(ls.contains(kept[i]) && !spec_line_banned(kept[i]));
        let j = choose|j: int| 0 <= j < ls.len() && ls[j] == kept[i];
        assert(!contains_byte(ls[j], NL));
        assert(crate::lines::strip_cr(ls[j]) == ls[j]);
    }
}

/// A rendered line sequence that is well formed, ends in a non-empty
/// line and holds no banned line parses back to itself, survives removal
/// untouched, and renders to the same text again.
proof fn lemma_stable_lines(ls: Seq<Seq<u8>>)
    requires
        ls.len() > 0,
        forall|i: int|
            0 <= i < ls.len() ==> !contains_byte(#[trigger] ls[i], NL)
                && crate::lines::strip_cr(ls[i]) == ls[i] && !spec_line_banned(ls[i]),
        ls.last().len() > 0,
    ensures
        spec_lines(render(ls)) == ls,
        spec_kept(render(ls)) == ls,
        spec_removed(render(ls)).len() == 0,
        spec_new_text(render(ls), Seq::<Seq<u8>>::empty()) == render(ls),
{
    crate::lines::lemma_lines_of_render(ls);
    crate::bytes::lemma_filter_all(ls, |l: Seq<u8>| !spec_line_banned(l));
    let removed2 = spec_removed(render(ls));
    lemma_filter_member(ls, |l: Seq<u8>| spec_line_banned(l));
    if removed2.len() > 0 {
        assert(removed2.contains(removed2[0]));
        assert(ls.contains(removed2[0]) && spec_line_banned(removed2[0]));
        let i = choose|i: int| 0 <= i < ls.len() && ls[i] == removed2[0];
        assert(false);
    }
}

/// Every pattern the first run appended is a clean, non-banned line.
proof fn lemma_added_clean(files: Seq<Seq<u8>>, root: Seq<u8>, added1: Seq<Seq<u8>>, orig: Seq<u8>)
    requires
        forall|p: Seq<u8>|
            #![auto]
            added1.contains(p) <==> in_required(p, files, root) && !core_present(
                spec_kept(orig),
                p,
            ),
        forall|p: Seq<u8>|
            #![auto]
            in_required(p, files, root) ==> spec_pattern_core(p) == p && !contains_byte(p, NL)
                && p.len() > 0 && !spec_banned_core(p),
    ensures
        forall|k: int|
            0 <= k < added1.len() ==> spec_pattern_core(#[trigger] added1[k]) == added1[k]
                && !contains_byte(added1[k], NL) && added1[k].len() > 0 && crate::lines::strip_cr(
                added1[k],
            ) == added1[k] && !spec_line_banned(added1[k]),
{
    assert forall|k: int|
        0 <= k < added1.len() implies spec_pattern_core(#[trigger] added1[k]) == added1[k]
            && !contains_byte(added1[k], NL) && added1[k].len() > 0 && crate::lines::strip_cr(
            added1[k],
        ) == added1[k] && !spec_line_banned(added1[k]) by {
        let p = added1[k];
        assert(added1.contains(p));
        assert(in_required(p, files, root));
        lemma_clean_pattern(p);
    }
}

/// Every line of the appended block — the kept lines, the optional
/// blank separator, the header and the patterns — is well formed and
/// not banned.
proof fn lemma_block_wf(kept: Seq<Seq<u8>>, sep: Seq<Seq<u8>>, added1: Seq<Seq<u8>>)
    requires
        sep.len() <= 1,
        sep.len() == 1 ==> sep[0] == Seq::<u8>::empty(),
        forall|i: int|
            0 <= i < kept.len() ==> !contains_byte(#[trigger] kept[i], NL)
                && crate::lines::strip_cr(kept[i]) == kept[i] && !spec_line_banned(kept[i]),
        forall|k: int|
            0 <= k < added1.len() ==> spec_pattern_core(#[trigger] added1[k]) == added1[k]
                && !contains_byte(added1[k], NL) && added1[k].len() > 0 && crate::lines::strip_cr(
                added1[k],
            ) == added1[k] && !spec_line_banned(added1[k]),
    ensures
        forall|i: int|
            0 <= i < (kept + sep + seq![header_line()] + added1).len() ==> !contains_byte(
                #[trigger] (kept + sep + seq![header_line()] + added1)[i],
                NL,
            ) && crate::lines::strip_cr((kept + sep + seq![header_line()] + added1)[i]) == (kept
                + sep + seq![header_line()] + added1)[i] && !spec_line_banned(
                (kept + sep + seq![header_line()] + added1)[i],
            ),
{
    lemma_header_facts();
    lemma_core_of_empty();
    let ls1 = kept + sep + seq![header_line()] + added1;
    let nk = kept.len() + sep.len();
    assert forall|i: int| 0 <= i < ls1.len() implies !contains_byte(#[trigger] ls1[i], NL)
        && crate::lines::strip_cr(ls1[i]) == ls1[i] && !spec_line_banned(ls1[i]) by {
        if i < kept.len() {
            assert(ls1[i] == kept[i]);
        } else if i < nk {
            assert(ls1[i] =~= Seq::<u8>::empty());
            assert(spec_pattern_core(ls1[i]).len() == 0);
            if contains_byte(ls1[i], NL) {
                let k = choose|k: int| 0 <= k < ls1[i].len() && ls1[i][k] == NL;
                assert(false);
            }
        } else if i == nk {
            assert(ls1[i] == header_line());
        } else {
            assert(ls1[i] == added1[i - nk - 1]);
        }
    }
}

/// Every required pattern has its core on some line of the appended
/// block: either a kept line already carried it, or it stands among the
/// appended patterns.
proof fn lemma_present_in_block(
    kept: Seq<Seq<u8>>,
    sep: Seq<Seq<u8>>,
    added1: Seq<Seq<u8>>,
    files: Seq<Seq<u8>>,
    root: Seq<u8>,
)
    requires
        forall|p: Seq<u8>|
            #![auto]
            added1.contains(p) <==> in_required(p, files, root) && !core_present(kept, p),
        forall|k: int|
            0 <= k < added1.len() ==> spec_pattern_core(#[trigger] added1[k]) == added1[k],
    ensures
        forall|p: Seq<u8>|
            #![auto]
            in_required(p, files, root) ==> core_present(
                kept + sep + seq![header_line()] + added1,
                p,
            ),
{
    let ls1 = kept + sep + seq![header_line()] + added1;
    let nk = kept.len() + sep.len();
    assert forall|p: Seq<u8>| #![auto] in_required(p, files, root) implies core_present(
        ls1,
        p,
    ) by {
        if core_present(kept, p) {
            let i = choose|i: int|
                0 <= i < kept.len() && spec_pattern_core(#[trigger] kept[i]) == p;
            assert(ls1[i] == kept[i]);
            assert(spec_pattern_core(ls1[i]) == p);
        } else {
            assert(added1.contains(p));
            let k = choose|k: int| 0 <= k < added1.len() && added1[k] == p;
            assert(ls1[nk + 1 + k] == added1[k]);
            assert(spec_pattern_core(ls1[nk + 1 + k]) == p);
        }
    }
}

/// The case with appended patterns, free of any discovery context: the
/// rendered block parses back to its own lines and stays put.
#[verifier::rlimit(100)]
proof fn lemma_case_appended_core(orig: Seq<u8>, added1: Seq<Seq<u8>>)
    requires
        added1.len() > 0,
        forall|i: int|
            0 <= i < spec_lines(orig).len() ==> crate::lines::strip_cr(
                #[trigger] spec_lines(orig)[i],
            ) == spec_lines(orig)[i],
        forall|k: int|
            0 <= k < added1.len() ==> spec_pattern_core(#[trigger] added1[k]) == added1[k]
                && !contains_byte(added1[k], NL) && added1[k].len() > 0 && crate::lines::strip_cr(
                added1[k],
            ) == added1[k] && !spec_line_banned(added1[k]),
    ensures
        spec_removed(spec_new_text(orig, added1)).len() == 0,
        spec_kept(spec_new_text(orig, added1)) == spec_kept(orig) + (if spec_kept(orig).len() > 0
            && trim(spec_kept(orig).last()).len() > 0 {
            seq![Seq::<u8>::empty()]
        } else {
            Seq::<Seq<u8>>::empty()
        }) + seq![header_line()] + added1,
        spec_new_text(spec_new_text(orig, added1), Seq::<Seq<u8>>::empty()) == spec_new_text(
            orig,
            added1,
        ),
{
    let kept = spec_kept(orig);
    let t1 = spec_new_text(orig, added1);
    lemma_kept_facts(orig);
    let sep: Seq<Seq<u8>> = if kept.len() > 0 && trim(kept.last()).len() > 0 {
        seq![Seq::<u8>::empty()]
    } else {
        Seq::empty()
    };
    let ls1 = kept + sep + seq![header_line()] + added1;
    assert(t1 == render(ls1));
    let nk = kept.len() + sep.len();
    assert(forall|k: int| 0 <= k < added1.len() ==> ls1[nk + 1 + k] == #[trigger] added1[k]);
    assert(ls1.len() == nk + 1 + added1.len());
    lemma_block_wf(kept, sep, added1);
    assert(ls1.last() == added1.last());
    assert(ls1.last().len() > 0);
    lemma_stable_lines(ls1);
}

/// The case with nothing to append, free of any discovery context: the
/// kept lines render and parse back unchanged, up to one collapsed
/// trailing blank line.
#[verifier::rlimit(100)]
proof fn lemma_case_none_core(orig: Seq<u8>)
    requires
        spec_kept(orig).len() > 0,
        forall|i: int|
            0 <= i < spec_lines(orig).len() ==> crate::lines::strip_cr(
                #[trigger] spec_lines(orig)[i],
            ) == spec_lines(orig)[i],
        spec_kept(orig).last().len() == 0 ==> spec_kept(orig).len() >= 2 && spec_kept(orig)[
            spec_kept(orig).len() - 2].len() > 0,
    ensures
        spec_removed(render(spec_kept(orig))).len() == 0,
        spec_kept(orig).last().len() > 0 ==> spec_kept(render(spec_kept(orig))) == spec_kept(orig),
        spec_kept(orig).last().len() == 0 ==> spec_kept(render(spec_kept(orig))) == spec_kept(
            orig,
        ).drop_last(),
        spec_new_text(render(spec_kept(orig)), Seq::<Seq<u8>>::empty()) == render(spec_kept(orig)),
{
    let kept = spec_kept(orig);
    lemma_kept_facts(orig);
    if kept.last().len() > 0 {
        lemma_stable_lines(kept);
    } else {
        let kept0 = kept.drop_last();
        crate::lines::lemma_render_blank_tail(kept);
        assert(render(kept) == render(kept0));
        assert(kept0.last() == kept[kept.len() - 2]);
        assert forall|i: int| 0 <= i < kept0.len() implies !contains_byte(#[trigger] kept0[i], NL)
            && crate::lines::strip_cr(kept0[i]) == kept0[i] && !spec_line_banned(kept0[i]) by {
            assert(kept0[i] == kept[i]);
        }
        lemma_stable_lines(kept0);
    }
}

/// A pattern whose core sits on some line other than a trailing blank
/// line is still present once that blank line is dropped.
proof fn lemma_present_drop_blank(kept: Seq<Seq<u8>>, p: Seq<u8>)
    requires
        kept.len() >= 1,
        kept.last().len() == 0,
        core_present(kept, p),
        p.len() > 0,
    ensures
        core_present(kept.drop_last(), p),
{
    lemma_core_of_empty();
    let i = choose|i: int| 0 <= i < kept.len() && spec_pattern_core(#[trigger] kept[i]) == p;
    assert(kept.last() =~= Seq::<u8>::empty());
    assert(i < kept.len() - 1);
    assert(kept.drop_last()[i] == kept[i]);
    assert(spec_pattern_core(kept.drop_last()[i]) == p);
}

/// Gitignore reconciliation is idempotent: over the text a first run
/// produced for a discovered set, a second run for the same set removes
/// no line, finds every required pattern present, and renders the same
/// text, so it reports no change.
///
/// `added1` stands for the patterns the first run appended, exactly as
/// the reconciler's contract pins them down.  The required patterns must
/// be clean single lines — equal to their own core, free of newlines,
/// non-empty and outside the banned vocabulary — which holds of every
/// pattern the tool itself derives.  Two input families stay out, on
/// which the original is not idempotent either: nothing to append while
/// the kept lines end in two blank lines (rendering collapses one
/// trailing blank line per run), and a line that still ends in a
/// carriage return after splitting, from a doubled one before the line
/// break (one carriage return is lost per run).
#[verifier::rlimit(100)]
pub proof fn lemma_reconcile_idempotent(
    orig: Seq<u8>,
    files: Seq<Seq<u8>>,
    root: Seq<u8>,
    added1: Seq<Seq<u8>>,
)
    requires
        strictly_increasing(added1),
        forall|i: int|
            0 <= i < spec_lines(orig).len() ==> crate::lines::strip_cr(
                #[trigger] spec_lines(orig)[i],
            ) == spec_lines(orig)[i],
        forall|p: Seq<u8>|
            #![auto]
            added1.contains(p) <==> in_required(p, files, root) && !core_present(
                spec_kept(orig),
                p,
            ),
        forall|p: Seq<u8>|
            #![auto]
            in_required(p, files, root) ==> spec_pattern_core(p) == p && !contains_byte(p, NL)
                && p.len() > 0 && !spec_banned_core(p),
        added1.len() == 0 ==> !(spec_kept(orig).len() >= 2 && spec_kept(orig).last().len() == 0
            && spec_kept(orig)[spec_kept(orig).len() - 2].len() == 0),
    ensures
        spec_removed(spec_new_text(orig, added1)).len() == 0,
        forall|p: Seq<u8>|
            #![auto]
            in_required(p, files, root) ==> core_present(spec_kept(spec_new_text(orig, added1)), p),
        spec_new_text(spec_new_text(orig, added1), Seq::<Seq<u8>>::empty()) == spec_new_text(
            orig,
            added1,
        ),
{
    let kept = spec_kept(orig);
    let t1 = spec_new_text(orig, added1);
    if added1.len() > 0 {
        lemma_added_clean(files, root, added1, orig);
        lemma_case_appended_core(orig, added1);
        let sep: Seq<Seq<u8>> = if kept.len() > 0 && trim(kept.last()).len() > 0 {
            seq![Seq::<u8>::empty()]
        } else {
            Seq::empty()
        };
        assert(spec_kept(t1) == kept + sep + seq![header_line()] + added1);
        lemma_present_in_block(kept, sep, added1, files, root);
    } else {
        // the config name is always required, so some kept line carries it
        assert(in_required(config_name(), files, root));
        assert(!added1.contains(config_name()));
        assert(core_present(spec_kept(orig), config_name()));
        lemma_core_of_empty();
        if kept.last().len() == 0 {
            // a blank line cannot carry the config core, so there is an
            // earlier line, and by assumption the one before the blank
            // tail is not blank either
            let ci = choose|ci: int|
                0 <= ci < kept.len() && spec_pattern_core(#[trigger] kept[ci]) == config_name();
            assert(kept.last() =~= Seq::<u8>::empty());
            assert(ci < kept.len() - 1);
            assert(kept.len() >= 2);
            assert(kept[kept.len() - 2].len() > 0);
        }
        lemma_case_none_core(orig);
        assert(t1 == render(kept));
        assert forall|p: Seq<u8>| #![auto] in_required(p, files, root) implies core_present(
            spec_kept(t1),
            p,
        ) by {
            assert(!added1.contains(p));
            assert(core_present(spec_kept(orig), p));
            if kept.last().len() == 0 {
                lemma_present_drop_blank(kept, p);
            }
        }
    }
}

} // verus!
