//! Skeleton (example) extraction: a plaintext environment file is turned
//! into a secret-free copy where `KEY=VALUE` lines lose their value,
//! while blank lines and comments survive verbatim.

use vstd::prelude::*;

use crate::bytes::{
    contains_byte, ends_with, find_first, first_idx, lemma_first_idx, trim, trim_of, views_of,
    is_ws,
};
use crate::lines::{
    join_lines, render, spec_lines, split_lines, strip_cr, unlines, NL,
};
use crate::paths::suffix_example;

verus! {

/// `#`, the comment marker.
pub const HASH: u8 = 35;

/// `=`, the key-value separator.
pub const EQ: u8 = 61;

/// The skeleton form of one line: blank lines become empty, comments and
/// lines without `=` survive verbatim, and a `KEY=VALUE` line keeps only
/// its trimmed key and the separator.
pub open spec fn spec_skeleton_line(l: Seq<u8>) -> Seq<u8> {
    let t = trim(l);
    if t.len() == 0 {
        Seq::empty()
    } else if t[0] == HASH {
        l
    } else if contains_byte(l, EQ) {
        trim(l.take(first_idx(l, EQ) as int)) + seq![EQ]
    } else {
        l
    }
}

/// Compute the skeleton form of one line.
pub fn skeleton_line(l: &[u8]) -> (r: Vec<u8>)
    ensures
        r@ == spec_skeleton_line(l@),
{
    proof {
        lemma_first_idx(l@, EQ);
    }
    let t = trim_of(l);
    if t.len() == 0 {
        Vec::new()
    } else if t[0] == HASH {
        vstd::slice::slice_to_vec(l)
    } else {
        let i = find_first(l, EQ);
        if i == l.len() {
            assert(!contains_byte(l@, EQ));
            vstd::slice::slice_to_vec(l)
        } else {
            assert(contains_byte(l@, EQ));
            let key = vstd::slice::slice_subrange(l, 0, i);
            assert(key@ =~= l@.take(first_idx(l@, EQ) as int));
            let mut r = trim_of(key);
            r.push(EQ);
            assert(r@ =~= trim(l@.take(first_idx(l@, EQ) as int)) + seq![EQ]);
            r
        }
    }
}

/// The skeleton of a whole document: every line mapped, the result
/// rendered with a final newline.
pub open spec fn spec_skeleton_doc(c: Seq<u8>) -> Seq<u8> {
    render(spec_lines(c).map_values(|l: Seq<u8>| spec_skeleton_line(l)))
}

/// Compute the skeleton document for a plaintext file's content.
pub fn extract_env_skeleton(content: &[u8]) -> (r: Vec<u8>)
    ensures
        r@ == spec_skeleton_doc(content@),
{
    let lines = split_lines(content);
    let ghost lv = views_of(lines@);
    let n = lines.len();
    let mut out: Vec<Vec<u8>> = Vec::new();
    let mut i: usize = 0;
    while i < n
        invariant
            n == lines@.len(),
            0 <= i <= n,
            lv == views_of(lines@),
            out@.len() == i,
            forall|k: int| 0 <= k < i ==> out@[k]@ == spec_skeleton_line(lv[k]),
        decreases n - i,
    {
        let line = skeleton_line(lines[i].as_slice());
        assert(line@ == spec_skeleton_line(lv[i as int]));
        out.push(line);
        i += 1;
    }
    assert(views_of(out@) =~= lv.map_values(|l: Seq<u8>| spec_skeleton_line(l)));
    join_lines(&out)
}

/// Compute skeleton documents for a batch of plaintext files, given as
/// pairs of path and content; each pair maps to its path and the
/// skeleton of its content, in the same order.
pub fn extract_env_skeletons(files: &Vec<(Vec<u8>, Vec<u8>)>) -> (r: Vec<(Vec<u8>, Vec<u8>)>)
    ensures
        r@.len() == files@.len(),
        forall|k: int|
            0 <= k < files@.len() ==> (#[trigger] r@[k]).0@ == files@[k].0@ && r@[k].1@
                == spec_skeleton_doc(files@[k].1@),
{
    let n = files.len();
    let mut r: Vec<(Vec<u8>, Vec<u8>)> = Vec::new();
    let mut i: usize = 0;
    while i < n
        invariant
            n == files@.len(),
            0 <= i <= n,
            r@.len() == i,
            forall|k: int|
                0 <= k < i ==> (#[trigger] r@[k]).0@ == files@[k].0@ && r@[k].1@
                    == spec_skeleton_doc(files@[k].1@),
        decreases n - i,
    {
        let path = files[i].0.clone();
        assert(path@ == files@[i as int].0@);
        let doc = extract_env_skeleton(files[i].1.as_slice());
        r.push((path, doc));
        i += 1;
    }
    r
}

/// A line is blank: nothing but whitespace.
pub open spec fn spec_blank(l: Seq<u8>) -> bool {
    trim(l).len() == 0
}

/// Skeleton content law, per line: a blank line becomes the empty line,
/// a comment line survives verbatim, a `KEY=VALUE` line keeps exactly
/// its trimmed key followed by the separator — the key part holds no
/// separator and nothing follows it — and any other line survives
/// verbatim.  Order is preserved by construction: the document skeleton
/// maps the lines one for one.
pub proof fn lemma_skeleton_line_content(l: Seq<u8>)
    ensures
        spec_blank(l) ==> spec_skeleton_line(l).len() == 0,
        !spec_blank(l) && trim(l)[0] == HASH ==> spec_skeleton_line(l) == l,
        !spec_blank(l) && trim(l)[0] != HASH && contains_byte(l, EQ) ==> {
            let r = spec_skeleton_line(l);
            &&& r.len() > 0
            &&& r.last() == EQ
            &&& r.drop_last() == trim(l.take(first_idx(l, EQ) as int))
            &&& !contains_byte(r.drop_last(), EQ)
        },
        !spec_blank(l) && trim(l)[0] != HASH && !contains_byte(l, EQ) ==> spec_skeleton_line(l)
            == l,
{
    if !spec_blank(l) && trim(l)[0] != HASH && contains_byte(l, EQ) {
        lemma_first_idx(l, EQ);
        let fi = first_idx(l, EQ) as int;
        let key = l.take(fi);
        let r = spec_skeleton_line(l);
        assert(r == trim(key) + seq![EQ]);
        assert(r.last() == EQ);
        assert(r.drop_last() =~= trim(key));
        assert forall|k: int| 0 <= k < key.len() implies key[k] != EQ by {
            assert(key[k] == l[k]);
        }
        if contains_byte(key, EQ) {
            let k = choose|k: int| 0 <= k < key.len() && key[k] == EQ;
            assert(false);
        }
        crate::bytes::lemma_trim_props(key, EQ);
    }
}

/// The skeleton transform is idempotent on single lines.
pub proof fn lemma_skeleton_line_idempotent(l: Seq<u8>)
    ensures
        spec_skeleton_line(spec_skeleton_line(l)) == spec_skeleton_line(l),
{
    let r = spec_skeleton_line(l);
    let t = trim(l);
    crate::bytes::lemma_trim_props(l, 0);
    if t.len() == 0 {
        assert(r =~= Seq::<u8>::empty());
        assert(trim(r) =~= Seq::<u8>::empty());
        crate::bytes::lemma_trim_props(r, 0);
        assert(spec_skeleton_line(r) =~= Seq::<u8>::empty());
    } else if t[0] == HASH {
        assert(r == l);
    } else if contains_byte(l, EQ) {
        lemma_first_idx(l, EQ);
        let fi = first_idx(l, EQ) as int;
        let key = l.take(fi);
        let tk = trim(key);
        assert(r == tk + seq![EQ]);
        crate::bytes::lemma_trim_props(key, EQ);
        assert forall|k: int| 0 <= k < key.len() implies key[k] != EQ by {
            assert(key[k] == l[k]);
        }
        if contains_byte(key, EQ) {
            let k = choose|k: int| 0 <= k < key.len() && key[k] == EQ;
            assert(false);
        }
        assert(!contains_byte(tk, EQ));
        // r is already trimmed at both ends
        assert(r.last() == EQ && !is_ws(EQ));
        if tk.len() > 0 {
            assert(r[0] == tk[0]);
            assert(!is_ws(tk[0]));
        } else {
            assert(r =~= seq![EQ]);
        }
        crate::bytes::lemma_trim_props(r, 0);
        assert(trim(r) == r);
        // r's first non-whitespace byte is not a comment marker
        assert(trim(r)[0] != HASH) by {
            if tk.len() > 0 {
                // the first byte of the trimmed key agrees with the first
                // byte of the whole trimmed line, which is not a marker
                crate::bytes::lemma_trim_front_prefix(l, fi);
                crate::bytes::lemma_trim_back_props(crate::bytes::trim_front(key), 0);
                crate::bytes::lemma_trim_back_props(crate::bytes::trim_front(l), 0);
                assert(tk[0] == crate::bytes::trim_front(key)[0]);
                assert(t[0] == crate::bytes::trim_front(l)[0]);
                assert(r[0] == tk[0]);
            } else {
                assert(r[0] == EQ);
            }
        }
        // the separator in r sits right after the key part
        assert(contains_byte(r, EQ)) by {
            assert(r[r.len() - 1] == EQ);
        }
        lemma_first_idx(r, EQ);
        assert forall|k: int| 0 <= k < tk.len() implies r[k] != EQ by {
            if r[k] == EQ {
                assert(tk[k] == EQ);
                assert(contains_byte(tk, EQ));
            }
        }
        assert(first_idx(r, EQ) == tk.len());
        assert(r.take(tk.len() as int) =~= tk);
        crate::bytes::lemma_trim_props(tk, 0);
        assert(spec_skeleton_line(r) == trim(tk) + seq![EQ]);
        assert(trim(tk) == tk);
    } else {
        assert(r == l);
    }
}

/// The skeleton of a well-formed line (no newline, no trailing carriage
/// return) is well formed, and it is empty exactly when the line is
/// blank.
proof fn lemma_skeleton_line_wf(l: Seq<u8>)
    requires
        !contains_byte(l, NL),
        strip_cr(l) == l,
    ensures
        !contains_byte(spec_skeleton_line(l), NL),
        strip_cr(spec_skeleton_line(l)) == spec_skeleton_line(l),
        (spec_skeleton_line(l).len() == 0) == spec_blank(l),
{
    let r = spec_skeleton_line(l);
    let t = trim(l);
    if t.len() == 0 {
        assert(r =~= Seq::<u8>::empty());
    } else if t[0] == HASH {
        assert(r == l);
        assert(l.len() > 0);
    } else if contains_byte(l, EQ) {
        lemma_first_idx(l, EQ);
        let fi = first_idx(l, EQ) as int;
        let key = l.take(fi);
        let tk = trim(key);
        assert(r == tk + seq![EQ]);
        assert forall|k: int| 0 <= k < key.len() implies key[k] != NL by {
            if key[k] == NL {
                assert(l[k] == NL);
                assert(contains_byte(l, NL));
            }
        }
        if contains_byte(key, NL) {
            let k = choose|k: int| 0 <= k < key.len() && key[k] == NL;
            assert(false);
        }
        crate::bytes::lemma_trim_props(key, NL);
        assert(!contains_byte(tk, NL));
        if contains_byte(r, NL) {
            let k = choose|k: int| 0 <= k < r.len() && r[k] == NL;
            if k < tk.len() {
                assert(tk[k] == NL);
                assert(contains_byte(tk, NL));
            }
            assert(false);
        }
        assert(r.last() == EQ);
        assert(crate::lines::strip_cr(r) == r);
    } else {
        assert(r == l);
        assert(l.len() > 0);
    }
}

/// The skeleton document of the lone-newline document is itself.
proof fn lemma_skeleton_doc_nl()
    ensures
        spec_skeleton_doc(seq![NL]) == seq![NL],
{
    let s = seq![NL];
    lemma_first_idx(s, NL);
    assert(s[0] == NL);
    assert(first_idx(s, NL) == 0);
    let e = Seq::<u8>::empty();
    assert(s.take(0) =~= e);
    assert(s.skip(1) =~= e);
    assert(first_idx(e, NL) == 0);
    assert(crate::lines::split_nl(e) == seq![e]);
    assert(crate::lines::split_nl(s) =~= seq![e, e]);
    assert(s.last() == NL);
    let ps = crate::lines::split_nl(s).drop_last();
    assert(ps =~= seq![e]);
    assert(strip_cr(e) == e);
    assert(spec_lines(s) =~= seq![e]);
    assert(trim(e) =~= e);
    assert(spec_skeleton_line(e) == e);
    let ls1 = spec_lines(s).map_values(|l: Seq<u8>| spec_skeleton_line(l));
    assert(ls1 =~= seq![e]);
    assert(unlines(ls1) == e);
    assert(render(ls1) =~= s);
}

/// Skeleton idempotence on whole documents: applying the transform to
/// its own rendered output yields the same bytes.  Two input families
/// are left out, on which the original collapses too: a document whose
/// last two lines are both blank loses one trailing blank line per run,
/// and a line that still ends in a carriage return (from a doubled one
/// before the line break) loses one carriage return per run.
pub proof fn lemma_skeleton_doc_idempotent(c: Seq<u8>)
    requires
        spec_lines(c).len() < 2 || !(spec_blank(spec_lines(c)[spec_lines(c).len() - 1])
            && spec_blank(spec_lines(c)[spec_lines(c).len() - 2])),
        forall|i: int|
            0 <= i < spec_lines(c).len() ==> strip_cr(#[trigger] spec_lines(c)[i])
                == spec_lines(c)[i],
    ensures
        spec_skeleton_doc(spec_skeleton_doc(c)) == spec_skeleton_doc(c),
{
    let ls = spec_lines(c);
    let ls1 = ls.map_values(|l: Seq<u8>| spec_skeleton_line(l));
    let t1 = spec_skeleton_doc(c);
    assert(t1 == render(ls1));
    crate::lines::lemma_lines_wf(c);
    assert forall|i: int| 0 <= i < ls1.len() implies !contains_byte(#[trigger] ls1[i], NL)
        && strip_cr(ls1[i]) == ls1[i] && (ls1[i].len() == 0) == spec_blank(ls[i]) by {
        assert(ls1[i] == spec_skeleton_line(ls[i]));
        assert(strip_cr(ls[i]) == ls[i]);
        lemma_skeleton_line_wf(ls[i]);
    }
    if ls.len() == 0 {
        assert(ls1 =~= Seq::<Seq<u8>>::empty());
        assert(unlines(ls1) == Seq::<u8>::empty());
        assert(t1 =~= seq![NL]);
        lemma_skeleton_doc_nl();
    } else if ls1.last().len() > 0 {
        crate::lines::lemma_lines_of_render(ls1);
        assert(spec_lines(t1) == ls1);
        let ls2 = spec_lines(t1).map_values(|l: Seq<u8>| spec_skeleton_line(l));
        assert forall|i: int| 0 <= i < ls2.len() implies ls2[i] == #[trigger] ls1[i] by {
            assert(ls2[i] == spec_skeleton_line(ls1[i]));
            assert(ls1[i] == spec_skeleton_line(ls[i]));
            lemma_skeleton_line_idempotent(ls[i]);
        }
        assert(ls2 =~= ls1);
        assert(spec_skeleton_doc(t1) == render(ls1));
    } else if ls.len() == 1 {
        assert(ls1 =~= seq![Seq::<u8>::empty()]);
        assert(unlines(ls1) == Seq::<u8>::empty());
        assert(t1 =~= seq![NL]);
        lemma_skeleton_doc_nl();
    } else {
        let ls0 = ls1.drop_last();
        assert(ls0.last() == ls1[ls1.len() - 2]);
        assert(!spec_blank(ls[ls.len() - 2]));
        assert(ls0.last().len() > 0);
        crate::lines::lemma_render_blank_tail(ls1);
        assert(t1 == render(ls0));
        assert forall|i: int| 0 <= i < ls0.len() implies !contains_byte(#[trigger] ls0[i], NL)
            && strip_cr(ls0[i]) == ls0[i] by {
            assert(ls0[i] == ls1[i]);
        }
        crate::lines::lemma_lines_of_render(ls0);
        assert(spec_lines(t1) == ls0);
        let ls2 = spec_lines(t1).map_values(|l: Seq<u8>| spec_skeleton_line(l));
        assert forall|i: int| 0 <= i < ls2.len() implies ls2[i] == #[trigger] ls0[i] by {
            assert(ls2[i] == spec_skeleton_line(ls0[i]));
            assert(ls0[i] == ls1[i]);
            assert(ls1[i] == spec_skeleton_line(ls[i]));
            lemma_skeleton_line_idempotent(ls[i]);
        }
        assert(ls2 =~= ls0);
        assert(spec_skeleton_doc(t1) == render(ls0));
    }
}

/// What writing one skeleton file does.
#[derive(Clone, Copy, Debug, PartialEq, Eq, Structural)]
pub enum ExampleAction {
    /// The target did not exist and is created.
    Created,
    /// The target existed and is replaced.
    Overwritten,
    /// The source is itself a skeleton file: nothing is written.
    SourceIsExample,
}

/// The action that writing the skeleton for `path` takes, given whether
/// the target already exists.
pub open spec fn spec_example_action(path: Seq<u8>, target_exists: bool) -> ExampleAction {
    if ends_with(path, suffix_example()) {
        ExampleAction::SourceIsExample
    } else if target_exists {
        ExampleAction::Overwritten
    } else {
        ExampleAction::Created
    }
}

/// Plan the skeleton writes for a batch: each source path maps to its
/// target path and the action to take.  A source that is already a
/// skeleton is skipped (`SourceIsExample`), which makes re-running the
/// extraction on its own output a no-op.  No file system is touched: the
/// caller reports each target's prior existence and performs the writes.
pub fn ensure_env_examples_from_skeletons(
    skeletons: &Vec<(Vec<u8>, Vec<u8>)>,
    target_exists: &Vec<bool>,
) -> (r: Vec<(Vec<u8>, ExampleAction)>)
    requires
        skeletons@.len() == target_exists@.len(),
    ensures
        r@.len() == skeletons@.len(),
        forall|k: int|
            0 <= k < r@.len() ==> (#[trigger] r@[k]).1 == spec_example_action(
                skeletons@[k].0@,
                target_exists@[k],
            ),
        forall|k: int|
            0 <= k < r@.len() ==> (#[trigger] r@[k]).0@ == (if ends_with(
                skeletons@[k].0@,
                suffix_example(),
            ) {
                skeletons@[k].0@
            } else {
                skeletons@[k].0@ + suffix_example()
            }),
{
    let n = skeletons.len();
    let mut r: Vec<(Vec<u8>, ExampleAction)> = Vec::new();
    let mut i: usize = 0;
    while i < n
        invariant
            n == skeletons@.len() == target_exists@.len(),
            0 <= i <= n,
            r@.len() == i,
            forall|k: int|
                0 <= k < i ==> (#[trigger] r@[k]).1 == spec_example_action(
                    skeletons@[k].0@,
                    target_exists@[k],
                ),
            forall|k: int|
                0 <= k < i ==> (#[trigger] r@[k]).0@ == (if ends_with(
                    skeletons@[k].0@,
                    suffix_example(),
                ) {
                    skeletons@[k].0@
                } else {
                    skeletons@[k].0@ + suffix_example()
                }),
        decreases n - i,
    {
        let src = &skeletons[i].0;
        let target = crate::paths::example_path_for(src.as_slice());
        let action = if crate::classify::path_is_skeleton(src.as_slice()) {
            ExampleAction::SourceIsExample
        } else if target_exists[i] {
            ExampleAction::Overwritten
        } else {
            ExampleAction::Created
        };
        r.push((target, action));
        i += 1;
    }
    r
}

} // verus!
