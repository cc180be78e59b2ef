//! Line discipline shared by the skeleton extractor and the ignore-file
//! reconciler: text is split on newline bytes, each line loses at most
//! one trailing carriage return, and line sequences are rendered back
//! with a final newline guaranteed.

use vstd::prelude::*;

use crate::bytes::{contains_byte, find_first, first_idx, lemma_first_idx, views_of};

verus! {

pub const NL: u8 = 10;

pub const CR: u8 = 13;

/// `l` with at most one trailing carriage return removed, as splitting
/// text on line endings treats a `\r` before the newline.
pub open spec fn strip_cr(l: Seq<u8>) -> Seq<u8> {
    if l.len() > 0 && l.last() == CR {
        l.drop_last()
    } else {
        l
    }
}

/// The copy of a slice with at most one trailing carriage return
/// removed.
pub fn strip_cr_of(s: &[u8]) -> (r: Vec<u8>)
    ensures
        r@ == strip_cr(s@),
{
    let n = s.len();
    let j: usize = if n > 0 && s[n - 1] == CR {
        n - 1
    } else {
        n
    };
    let out = vstd::slice::slice_subrange(s, 0, j);
    let r = vstd::slice::slice_to_vec(out);
    assert(r@ =~= strip_cr(s@));
    r
}

/// The pieces of `s` between newline bytes; the newlines themselves are
/// dropped.  Always at least one piece.
pub open spec fn split_nl(s: Seq<u8>) -> Seq<Seq<u8>>
    decreases s.len(),
{
    let i = first_idx(s, NL) as int;
    if i >= s.len() {
        seq![s]
    } else {
        seq![s.take(i)] + split_nl(s.skip(i + 1))
    }
}

/// The lines of a text: pieces between newlines, each with at most one
/// trailing carriage return removed; a final newline does not open an
/// extra empty line, and empty text has no lines.
pub open spec fn spec_lines(s: Seq<u8>) -> Seq<Seq<u8>> {
    if s.len() == 0 {
        Seq::empty()
    } else {
        let ps = if s.last() == NL {
            split_nl(s).drop_last()
        } else {
            split_nl(s)
        };
        ps.map_values(|l: Seq<u8>| strip_cr(l))
    }
}

/// Lines joined with single newlines in between, nothing at the ends.
pub open spec fn unlines(ls: Seq<Seq<u8>>) -> Seq<u8>
    decreases ls.len(),
{
    if ls.len() == 0 {
        Seq::empty()
    } else if ls.len() == 1 {
        ls[0]
    } else {
        ls[0] + seq![NL] + unlines(ls.drop_first())
    }
}

/// `s` with a final newline appended unless it already ends in one.
pub open spec fn with_final_nl(s: Seq<u8>) -> Seq<u8> {
    if s.len() > 0 && s.last() == NL {
        s
    } else {
        s + seq![NL]
    }
}

/// The rendered form of a line sequence: joined and newline-terminated.
pub open spec fn render(ls: Seq<Seq<u8>>) -> Seq<u8> {
    with_final_nl(unlines(ls))
}

/// Appending one more line extends the joined text by a separator and the
/// line.
pub proof fn lemma_unlines_push(ls: Seq<Seq<u8>>, l: Seq<u8>)
    ensures
        ls.len() == 0 ==> unlines(ls.push(l)) == l,
        ls.len() > 0 ==> unlines(ls.push(l)) == unlines(ls) + seq![NL] + l,
    decreases ls.len(),
{
    if ls.len() == 0 {
        assert(ls.push(l)[0] =~= l);
        assert(unlines(ls.push(l)) == l);
    } else if ls.len() == 1 {
        let p = ls.push(l);
        assert(p.len() == 2);
        assert(p[0] == ls[0]);
        assert(p.drop_first() =~= seq![l]);
        assert(unlines(p.drop_first()) == p.drop_first()[0]);
        assert(p.drop_first()[0] == l);
        assert(unlines(p) == ls[0] + seq![NL] + l);
    } else {
        let p = ls.push(l);
        assert(p.drop_first() =~= ls.drop_first().push(l));
        lemma_unlines_push(ls.drop_first(), l);
        assert(unlines(p) == p[0] + seq![NL] + unlines(ls.drop_first().push(l)));
        assert(unlines(ls) + seq![NL] + l =~= ls[0] + seq![NL] + (unlines(ls.drop_first())
            + seq![NL] + l));
    }
}

/// Split a slice into its newline-separated pieces.
fn split_nl_exec(s: &[u8]) -> (r: Vec<Vec<u8>>)
    ensures
        views_of(r@) == split_nl(s@),
    decreases s@.len(),
{
    proof {
        lemma_first_idx(s@, NL);
    }
    let i = find_first(s, NL);
    if i == s.len() {
        let whole = vstd::slice::slice_to_vec(s);
        let mut r: Vec<Vec<u8>> = Vec::new();
        r.push(whole);
        assert(views_of(r@) =~= split_nl(s@));
        r
    } else {
        let head = vstd::slice::slice_to_vec(vstd::slice::slice_subrange(s, 0, i));
        let rest = vstd::slice::slice_subrange(s, i + 1, s.len());
        assert(rest@ =~= s@.skip(i + 1));
        let mut r = split_nl_exec(rest);
        r.insert(0, head);
        assert(head@ =~= s@.take(i as int));
        assert(views_of(r@) =~= split_nl(s@));
        r
    }
}

/// The lines of a text, as `spec_lines` describes them.
pub fn split_lines(s: &[u8]) -> (r: Vec<Vec<u8>>)
    ensures
        views_of(r@) == spec_lines(s@),
{
    if s.len() == 0 {
        let r: Vec<Vec<u8>> = Vec::new();
        assert(views_of(r@) =~= spec_lines(s@));
        return r;
    }
    let mut ps = split_nl_exec(s);
    assert(split_nl(s@).len() > 0);
    if s[s.len() - 1] == NL {
        let _ = ps.pop();
        assert(views_of(ps@) =~= split_nl(s@).drop_last());
    }
    let ghost kept = views_of(ps@);
    let n = ps.len();
    let mut r: Vec<Vec<u8>> = Vec::new();
    let mut i: usize = 0;
    while i < n
        invariant
            n == ps@.len(),
            0 <= i <= n,
            kept == views_of(ps@),
            r@.len() == i,
            forall|k: int| 0 <= k < i ==> r@[k]@ == strip_cr(kept[k]),
        decreases n - i,
    {
        let line = strip_cr_of(ps[i].as_slice());
        assert(line@ == strip_cr(kept[i as int]));
        r.push(line);
        i += 1;
    }
    assert(views_of(r@) =~= kept.map_values(|l: Seq<u8>| strip_cr(l)));
    r
}

/// Removing the trailing carriage return removes no other byte kind.
pub proof fn lemma_strip_cr_props(l: Seq<u8>, b: u8)
    ensures
        !contains_byte(l, b) ==> !contains_byte(strip_cr(l), b),
{
    if l.len() > 0 && l.last() == CR {
        let t = l.drop_last();
        if contains_byte(t, b) {
            let i = choose|i: int| 0 <= i < t.len() && t[i] == b;
            assert(l[i] == b);
        }
    }
}

/// Every piece of `split_nl` is free of newline bytes.
pub proof fn lemma_split_nl_no_nl(s: Seq<u8>)
    ensures
        forall|i: int|
            0 <= i < split_nl(s).len() ==> !contains_byte(#[trigger] split_nl(s)[i], NL),
    decreases s.len(),
{
    lemma_first_idx(s, NL);
    let fi = first_idx(s, NL) as int;
    if fi >= s.len() {
        assert forall|i: int|
            0 <= i < split_nl(s).len() implies !contains_byte(#[trigger] split_nl(s)[i], NL) by {
            assert(split_nl(s)[i] == s);
            if contains_byte(s, NL) {
                assert(fi < s.len());
            }
        }
    } else {
        lemma_split_nl_no_nl(s.skip(fi + 1));
        assert forall|i: int|
            0 <= i < split_nl(s).len() implies !contains_byte(#[trigger] split_nl(s)[i], NL) by {
            if i == 0 {
                assert(split_nl(s)[0] == s.take(fi));
                if contains_byte(s.take(fi), NL) {
                    let k = choose|k: int| 0 <= k < s.take(fi).len() && s.take(fi)[k] == NL;
                    assert(s[k] == NL);
                }
            } else {
                assert(split_nl(s)[i] == split_nl(s.skip(fi + 1))[i - 1]);
            }
        }
    }
}

/// The lines of a text hold no newline byte.  (A line can still end in
/// a carriage return, when the text held a doubled one before the line
/// break.)
pub proof fn lemma_lines_wf(s: Seq<u8>)
    ensures
        forall|i: int|
            0 <= i < spec_lines(s).len() ==> !contains_byte(#[trigger] spec_lines(s)[i], NL),
{
    if s.len() > 0 {
        lemma_split_nl_no_nl(s);
        let ps = if s.last() == NL {
            split_nl(s).drop_last()
        } else {
            split_nl(s)
        };
        assert forall|i: int|
            0 <= i < spec_lines(s).len() implies !contains_byte(
            #[trigger] spec_lines(s)[i],
            NL,
        ) by {
            assert(spec_lines(s)[i] == strip_cr(ps[i]));
            assert(ps[i] == split_nl(s)[i]);
            assert(!contains_byte(split_nl(s)[i], NL));
            lemma_strip_cr_props(ps[i], NL);
        }
    }
}

/// When the last line is non-empty, the joined text ends with its last
/// byte.
pub proof fn lemma_unlines_last(ls: Seq<Seq<u8>>)
    requires
        ls.len() > 0,
        ls.last().len() > 0,
    ensures
        unlines(ls).len() > 0,
        unlines(ls).last() == ls.last().last(),
    decreases ls.len(),
{
    if ls.len() == 1 {
    } else {
        lemma_unlines_last(ls.drop_first());
        assert(ls.drop_first().last() == ls.last());
        assert(unlines(ls) == ls[0] + seq![NL] + unlines(ls.drop_first()));
    }
}

/// Splitting the rendered text recovers the lines, followed by one empty
/// piece for the final newline.
proof fn lemma_split_unlines(ls: Seq<Seq<u8>>)
    requires
        ls.len() > 0,
        forall|i: int| 0 <= i < ls.len() ==> !contains_byte(#[trigger] ls[i], NL),
    ensures
        split_nl(unlines(ls) + seq![NL]) == ls + seq![Seq::<u8>::empty()],
    decreases ls.len(),
{
    let t = unlines(ls) + seq![NL];
    lemma_first_idx(t, NL);
    if ls.len() == 1 {
        let l0 = ls[0];
        assert(t =~= l0 + seq![NL]);
        assert(forall|k: int| 0 <= k < l0.len() ==> t[k] == #[trigger] l0[k]);
        assert forall|k: int| 0 <= k < l0.len() implies t[k] != NL by {
            if t[k] == NL {
                assert(contains_byte(l0, NL));
            }
        }
        assert(t[l0.len() as int] == NL);
        assert(first_idx(t, NL) == l0.len());
        assert(t.take(l0.len() as int) =~= l0);
        assert(t.skip(l0.len() as int + 1) =~= Seq::<u8>::empty());
        assert(split_nl(Seq::<u8>::empty()) == seq![Seq::<u8>::empty()]);
        assert(split_nl(t) =~= ls + seq![Seq::<u8>::empty()]);
    } else {
        let l0 = ls[0];
        let dr = ls.drop_first();
        assert(unlines(ls) == l0 + seq![NL] + unlines(dr));
        assert(t =~= l0 + seq![NL] + (unlines(dr) + seq![NL]));
        assert(forall|k: int| 0 <= k < l0.len() ==> t[k] == #[trigger] l0[k]);
        assert forall|k: int| 0 <= k < l0.len() implies t[k] != NL by {
            if t[k] == NL {
                assert(contains_byte(l0, NL));
            }
        }
        assert(t[l0.len() as int] == NL);
        assert(first_idx(t, NL) == l0.len());
        assert(forall|i: int| 0 <= i < dr.len() ==> dr[i] == #[trigger] ls[i + 1]);
        assert forall|i: int| 0 <= i < dr.len() implies !contains_byte(#[trigger] dr[i], NL) by {
            assert(dr[i] == ls[i + 1]);
        }
        lemma_split_unlines(dr);
        assert(t.take(l0.len() as int) =~= l0);
        assert(t.skip(l0.len() as int + 1) =~= unlines(dr) + seq![NL]);
        assert(split_nl(t) == seq![l0] + split_nl(unlines(dr) + seq![NL]));
        assert(seq![l0] + (dr + seq![Seq::<u8>::empty()]) =~= ls + seq![Seq::<u8>::empty()]);
    }
}

/// Rendering well-formed lines whose last line is non-empty and then
/// splitting again recovers exactly the same lines.
pub proof fn lemma_lines_of_render(ls: Seq<Seq<u8>>)
    requires
        ls.len() > 0,
        forall|i: int| 0 <= i < ls.len() ==> !contains_byte(#[trigger] ls[i], NL),
        forall|i: int| 0 <= i < ls.len() ==> strip_cr(#[trigger] ls[i]) == ls[i],
        ls.last().len() > 0,
    ensures
        spec_lines(render(ls)) == ls,
{
    let u = unlines(ls);
    lemma_unlines_last(ls);
    assert forall|k: int| 0 <= k < ls.last().len() implies ls.last()[k] != NL by {
        if ls.last()[k] == NL {
            assert(contains_byte(ls.last(), NL));
        }
    }
    assert(u.last() == ls.last().last());
    assert(u.last() != NL);
    let t = render(ls);
    assert(t == u + seq![NL]);
    lemma_split_unlines(ls);
    assert(t.len() > 0 && t.last() == NL);
    assert(split_nl(t).drop_last() =~= ls);
    assert(spec_lines(t) =~= ls.map_values(|l: Seq<u8>| strip_cr(l)));
    assert(ls.map_values(|l: Seq<u8>| strip_cr(l)) =~= ls);
}

/// A single trailing empty line does not change the rendered text.
pub proof fn lemma_render_blank_tail(ls: Seq<Seq<u8>>)
    requires
        ls.len() >= 2,
        ls.last().len() == 0,
        ls.drop_last().last().len() > 0,
        forall|i: int| 0 <= i < ls.len() ==> !contains_byte(#[trigger] ls[i], NL),
    ensures
        render(ls) == render(ls.drop_last()),
{
    let ls0 = ls.drop_last();
    assert(ls =~= ls0.push(ls.last()));
    assert(ls.last() =~= Seq::<u8>::empty());
    lemma_unlines_push(ls0, Seq::<u8>::empty());
    assert(unlines(ls) =~= unlines(ls0) + seq![NL]);
    lemma_unlines_last(ls0);
    assert forall|k: int| 0 <= k < ls0.last().len() implies ls0.last()[k] != NL by {
        if ls0.last()[k] == NL {
            assert(ls0.last() == ls[ls.len() - 2]);
            assert(contains_byte(ls[ls.len() - 2], NL));
        }
    }
    assert(unlines(ls0).last() != NL);
    assert(render(ls0) == unlines(ls0) + seq![NL]);
    assert(render(ls) == unlines(ls0) + seq![NL]);
}

/// Join lines with newlines and guarantee a final newline.
pub fn join_lines(ls: &Vec<Vec<u8>>) -> (r: Vec<u8>)
    ensures
        r@ == render(views_of(ls@)),
{
    let n = ls.len();
    let mut acc: Vec<u8> = Vec::new();
    let mut i: usize = 0;
    while i < n
        invariant
            n == ls@.len(),
            0 <= i <= n,
            acc@ == unlines(views_of(ls@).take(i as int)),
        decreases n - i,
    {
        if i > 0 {
            acc.push(NL);
        }
        let mut line = ls[i].clone();
        assert(line@ == ls@[i as int]@);
        acc.append(&mut line);
        proof {
            let vs = views_of(ls@);
            lemma_unlines_push(vs.take(i as int), vs[i as int]);
            assert(vs.take(i + 1) =~= vs.take(i as int).push(vs[i as int]));
        }
        i += 1;
    }
    assert(views_of(ls@).take(n as int) =~= views_of(ls@));
    if acc.len() == 0 || acc[acc.len() - 1] != NL {
        acc.push(NL);
        assert(acc@ =~= unlines(views_of(ls@)) + seq![NL]);
    }
    acc
}

} // verus!
