//! Byte-sequence helpers: prefix and suffix tests, searching, trimming,
//! and a lexicographic order with sorting and deduplication.

use vstd::prelude::*;

verus! {

/// A byte is ASCII whitespace for the trimming rules of this library.
pub open spec fn is_ws(b: u8) -> bool {
    b == 32 || b == 9 || b == 10 || b == 13 || b == 11 || b == 12
}

/// Whether `b` is an ASCII whitespace byte.
pub fn byte_is_ws(b: u8) -> (r: bool)
    ensures
        r == is_ws(b),
{
    b == 32 || b == 9 || b == 10 || b == 13 || b == 11 || b == 12
}

/// `pre` is a prefix of `s`.
pub open spec fn starts_with(s: Seq<u8>, pre: Seq<u8>) -> bool {
    s.len() >= pre.len() && s.subrange(0, pre.len() as int) == pre
}

/// `suf` is a suffix of `s`.
pub open spec fn ends_with(s: Seq<u8>, suf: Seq<u8>) -> bool {
    s.len() >= suf.len() && s.subrange(s.len() - suf.len(), s.len() as int) == suf
}

/// Byte-for-byte equality of two slices.
pub fn bytes_eq(a: &[u8], b: &[u8]) -> (r: bool)
    ensures
        r == (a@ == b@),
{
    if a.len() != b.len() {
        assert(a@.len() != b@.len());
        return false;
    }
    let n = a.len();
    let mut i: usize = 0;
    while i < n
        invariant
            n == a@.len() == b@.len(),
            0 <= i <= n,
            forall|k: int| 0 <= k < i ==> a@[k] == b@[k],
        decreases n - i,
    {
        if a[i] != b[i] {
            assert(a@ != b@);
            return false;
        }
        i += 1;
    }
    assert(a@ =~= b@);
    true
}

/// Whether `pre` is a prefix of `s`.
pub fn has_prefix(s: &[u8], pre: &[u8]) -> (r: bool)
    ensures
        r == starts_with(s@, pre@),
{
    if s.len() < pre.len() {
        return false;
    }
    let front = vstd::slice::slice_subrange(s, 0, pre.len());
    bytes_eq(front, pre)
}

/// Whether `suf` is a suffix of `s`.
pub fn has_suffix(s: &[u8], suf: &[u8]) -> (r: bool)
    ensures
        r == ends_with(s@, suf@),
{
    if s.len() < suf.len() {
        return false;
    }
    let back = vstd::slice::slice_subrange(s, s.len() - suf.len(), s.len());
    bytes_eq(back, suf)
}

/// Index of the first occurrence of `b` in `s`; `s.len()` when absent.
pub open spec fn first_idx(s: Seq<u8>, b: u8) -> nat
    decreases s.len(),
{
    if s.len() == 0 {
        0
    } else if s[0] == b {
        0
    } else {
        1 + first_idx(s.drop_first(), b)
    }
}

/// `s` holds the byte `b` somewhere.
pub open spec fn contains_byte(s: Seq<u8>, b: u8) -> bool {
    exists|i: int| 0 <= i < s.len() && s[i] == b
}

/// `first_idx` is the first occurrence: nothing before it matches, and it
/// points at a match exactly when one exists.
pub proof fn lemma_first_idx(s: Seq<u8>, b: u8)
    ensures
        0 <= first_idx(s, b) <= s.len(),
        forall|k: int| 0 <= k < first_idx(s, b) ==> s[k] != b,
        first_idx(s, b) < s.len() ==> s[first_idx(s, b) as int] == b,
        (first_idx(s, b) < s.len()) == contains_byte(s, b),
    decreases s.len(),
{
    if s.len() == 0 {
    } else if s[0] == b {
    } else {
        lemma_first_idx(s.drop_first(), b);
        let t = s.drop_first();
        assert forall|k: int| 0 <= k < first_idx(s, b) implies s[k] != b by {
            if k > 0 {
                assert(s[k] == t[k - 1]);
            }
        }
        if first_idx(s, b) < s.len() {
            assert(s[first_idx(s, b) as int] == t[first_idx(t, b) as int]);
        }
        if contains_byte(s, b) {
            let i = choose|i: int| 0 <= i < s.len() && s[i] == b;
            assert(i > 0);
            assert(t[i - 1] == b);
            assert(contains_byte(t, b));
        }
        if contains_byte(t, b) {
            let i = choose|i: int| 0 <= i < t.len() && t[i] == b;
            assert(s[i + 1] == b);
            assert(contains_byte(s, b));
        }
    }
}

/// Index of the first occurrence of `b`, or the length when absent.
pub fn find_first(s: &[u8], b: u8) -> (r: usize)
    ensures
        r == first_idx(s@, b),
{
    proof {
        lemma_first_idx(s@, b);
    }
    let n = s.len();
    let mut i: usize = 0;
    while i < n
        invariant
            n == s@.len(),
            0 <= i <= n,
            forall|k: int| 0 <= k < i ==> s@[k] != b,
            0 <= first_idx(s@, b) <= s@.len(),
            forall|k: int| 0 <= k < first_idx(s@, b) ==> s@[k] != b,
            first_idx(s@, b) < s@.len() ==> s@[first_idx(s@, b) as int] == b,
        decreases n - i,
    {
        if s[i] == b {
            assert(first_idx(s@, b) == i);
            return i;
        }
        i += 1;
    }
    assert(first_idx(s@, b) == n);
    n
}

/// `s` with leading ASCII whitespace removed.
pub open spec fn trim_front(s: Seq<u8>) -> Seq<u8>
    decreases s.len(),
{
    if s.len() > 0 && is_ws(s[0]) {
        trim_front(s.drop_first())
    } else {
        s
    }
}

/// `s` with trailing ASCII whitespace removed.
pub open spec fn trim_back(s: Seq<u8>) -> Seq<u8>
    decreases s.len(),
{
    if s.len() > 0 && is_ws(s.last()) {
        trim_back(s.drop_last())
    } else {
        s
    }
}

/// `s` with leading and trailing ASCII whitespace removed.
pub open spec fn trim(s: Seq<u8>) -> Seq<u8> {
    trim_back(trim_front(s))
}

/// `trim_front` keeps the suffix that starts at the first non-whitespace byte.
pub proof fn lemma_trim_front_skip(s: Seq<u8>, i: int)
    requires
        0 <= i <= s.len(),
        forall|k: int| 0 <= k < i ==> is_ws(s[k]),
        i == s.len() || !is_ws(s[i]),
    ensures
        trim_front(s) == s.skip(i),
    decreases i,
{
    if i == 0 {
        assert(s.skip(0) =~= s);
    } else {
        let t = s.drop_first();
        assert(forall|k: int| 0 <= k < i - 1 ==> t[k] == s[k + 1] && is_ws(s[k + 1]));
        lemma_trim_front_skip(t, i - 1);
        assert(t.skip(i - 1) =~= s.skip(i));
    }
}

/// `trim_back` keeps the prefix that ends at the last non-whitespace byte.
pub proof fn lemma_trim_back_take(s: Seq<u8>, j: int)
    requires
        0 <= j <= s.len(),
        forall|k: int| j <= k < s.len() ==> is_ws(s[k]),
        j == 0 || !is_ws(s[j - 1]),
    ensures
        trim_back(s) == s.take(j),
    decreases s.len(),
{
    if j == s.len() {
        assert(s.take(j) =~= s);
    } else {
        let t = s.drop_last();
        lemma_trim_back_take(t, j);
        assert(t.take(j) =~= s.take(j));
    }
}

/// `trim_front` drops only leading whitespace: the result is a suffix
/// whose first byte is not whitespace, it holds no byte kind the input
/// lacks, and a front-trimmed sequence is left alone.
pub proof fn lemma_trim_front_props(s: Seq<u8>, b: u8)
    ensures
        trim_front(s).len() > 0 ==> !is_ws(trim_front(s)[0]),
        !contains_byte(s, b) ==> !contains_byte(trim_front(s), b),
        s.len() == 0 || !is_ws(s[0]) ==> trim_front(s) == s,
    decreases s.len(),
{
    if s.len() > 0 && is_ws(s[0]) {
        let t = s.drop_first();
        lemma_trim_front_props(t, b);
        if contains_byte(t, b) {
            let i = choose|i: int| 0 <= i < t.len() && t[i] == b;
            assert(s[i + 1] == b);
        }
    }
}

/// `trim_back` drops only trailing whitespace: the result is a prefix of
/// the input whose last byte is not whitespace, and it holds no byte
/// kind the input lacks.
pub proof fn lemma_trim_back_props(s: Seq<u8>, b: u8)
    ensures
        trim_back(s).len() > 0 ==> !is_ws(trim_back(s).last()),
        !contains_byte(s, b) ==> !contains_byte(trim_back(s), b),
        trim_back(s).len() <= s.len(),
        trim_back(s) == s.take(trim_back(s).len() as int),
        s.len() == 0 || !is_ws(s.last()) ==> trim_back(s) == s,
    decreases s.len(),
{
    if s.len() > 0 && is_ws(s.last()) {
        let t = s.drop_last();
        lemma_trim_back_props(t, b);
        if contains_byte(t, b) {
            let i = choose|i: int| 0 <= i < t.len() && t[i] == b;
            assert(s[i] == b);
        }
        assert(t.take(trim_back(t).len() as int) =~= s.take(trim_back(t).len() as int));
    } else {
        assert(s.take(s.len() as int) =~= s);
    }
}

/// Trimming is idempotent, keeps no boundary whitespace, introduces no
/// byte kind, and leaves an already-trimmed sequence alone.
pub proof fn lemma_trim_props(s: Seq<u8>, b: u8)
    ensures
        trim(trim(s)) == trim(s),
        trim(s).len() > 0 ==> !is_ws(trim(s)[0]) && !is_ws(trim(s).last()),
        !contains_byte(s, b) ==> !contains_byte(trim(s), b),
        (s.len() == 0 || (!is_ws(s[0]) && !is_ws(s.last()))) ==> trim(s) == s,
{
    let x = trim_front(s);
    let y = trim_back(x);
    lemma_trim_front_props(s, b);
    lemma_trim_back_props(x, b);
    if y.len() > 0 {
        assert(y == x.take(y.len() as int));
        assert(y[0] == x[0]);
        lemma_trim_front_props(y, b);
        assert(trim_front(y) == y);
        lemma_trim_back_props(y, b);
        assert(trim_back(y) == y);
    } else {
        assert(trim(y) =~= Seq::<u8>::empty());
    }
    if s.len() > 0 && !is_ws(s[0]) && !is_ws(s.last()) {
        assert(x == s);
        assert(trim_back(s) == s);
    }
}

/// The first byte of the trim of a prefix agrees with the first byte of
/// the trim of the whole, whenever the prefix trims to something.
pub proof fn lemma_trim_front_prefix(s: Seq<u8>, m: int)
    requires
        0 <= m <= s.len(),
        trim_front(s.take(m)).len() > 0,
    ensures
        trim_front(s).len() > 0,
        trim_front(s.take(m))[0] == trim_front(s)[0],
    decreases s.len(),
{
    let p = s.take(m);
    if s.len() > 0 && is_ws(s[0]) {
        assert(m > 0);
        assert(p[0] == s[0]);
        assert(trim_front(p) == trim_front(p.drop_first()));
        assert(p.drop_first() =~= s.drop_first().take(m - 1));
        lemma_trim_front_prefix(s.drop_first(), m - 1);
    } else {
        assert(m > 0);
        assert(s.len() > 0);
        assert(p[0] == s[0]);
        assert(!is_ws(p[0]));
        assert(trim_front(p) == p);
        assert(trim_front(s) == s);
    }
}

/// The trimmed copy of a slice.
pub fn trim_of(s: &[u8]) -> (r: Vec<u8>)
    ensures
        r@ == trim(s@),
{
    let n = s.len();
    let mut i: usize = 0;
    while i < n && byte_is_ws(s[i])
        invariant
            n == s@.len(),
            0 <= i <= n,
            forall|k: int| 0 <= k < i ==> is_ws(s@[k]),
        decreases n - i,
    {
        i += 1;
    }
    proof {
        lemma_trim_front_skip(s@, i as int);
    }
    if i == n {
        assert(trim_front(s@) =~= Seq::<u8>::empty());
        assert(trim(s@) =~= Seq::<u8>::empty());
        return Vec::new();
    }
    let mut j: usize = n;
    while j > i && byte_is_ws(s[j - 1])
        invariant
            n == s@.len(),
            i <= j <= n,
            i < n,
            !is_ws(s@[i as int]),
            forall|k: int| j <= k < n ==> is_ws(s@[k]),
        decreases j,
    {
        j -= 1;
    }
    assert(j > i);
    proof {
        let f = s@.skip(i as int);
        assert(forall|k: int| #![auto] 0 <= k < f.len() ==> f[k] == s@[k + i]);
        lemma_trim_back_take(f, j - i);
        assert(trim(s@) == f.take(j - i));
    }
    let out = vstd::slice::slice_subrange(s, i, j);
    let r = vstd::slice::slice_to_vec(out);
    assert(r@ =~= trim(s@));
    r
}

/// Byte-wise lexicographic order: `a` sorts no later than `b`.
pub open spec fn lex_le(a: Seq<u8>, b: Seq<u8>) -> bool
    decreases a.len(),
{
    if a.len() == 0 {
        true
    } else if b.len() == 0 {
        false
    } else if a[0] < b[0] {
        true
    } else if a[0] > b[0] {
        false
    } else {
        lex_le(a.drop_first(), b.drop_first())
    }
}

/// The order is total.
pub proof fn lemma_lex_total(a: Seq<u8>, b: Seq<u8>)
    ensures
        lex_le(a, b) || lex_le(b, a),
    decreases a.len(),
{
    if a.len() > 0 && b.len() > 0 && a[0] == b[0] {
        lemma_lex_total(a.drop_first(), b.drop_first());
    }
}

/// The order is antisymmetric.
pub proof fn lemma_lex_antisym(a: Seq<u8>, b: Seq<u8>)
    requires
        lex_le(a, b),
        lex_le(b, a),
    ensures
        a == b,
    decreases a.len(),
{
    if a.len() == 0 {
        assert(b.len() == 0);
        assert(a =~= b);
    } else {
        assert(b.len() > 0);
        assert(a[0] == b[0]);
        lemma_lex_antisym(a.drop_first(), b.drop_first());
        assert(a =~= seq![a[0]] + a.drop_first());
        assert(b =~= seq![b[0]] + b.drop_first());
    }
}

/// The order is transitive.
pub proof fn lemma_lex_trans(a: Seq<u8>, b: Seq<u8>, c: Seq<u8>)
    requires
        lex_le(a, b),
        lex_le(b, c),
    ensures
        lex_le(a, c),
    decreases a.len(),
{
    if a.len() > 0 {
        assert(b.len() > 0);
        assert(c.len() > 0);
        if a[0] == b[0] && b[0] == c[0] {
            lemma_lex_trans(a.drop_first(), b.drop_first(), c.drop_first());
        }
    }
}

/// Whether `a` sorts no later than `b` in byte-wise lexicographic order.
pub fn bytes_le(a: &[u8], b: &[u8]) -> (r: bool)
    ensures
        r == lex_le(a@, b@),
    decreases a@.len(),
{
    if a.len() == 0 {
        return true;
    }
    if b.len() == 0 {
        return false;
    }
    if a[0] < b[0] {
        return true;
    }
    if a[0] > b[0] {
        return false;
    }
    let ta = vstd::slice::slice_subrange(a, 1, a.len());
    let tb = vstd::slice::slice_subrange(b, 1, b.len());
    assert(ta@ =~= a@.drop_first());
    assert(tb@ =~= b@.drop_first());
    bytes_le(ta, tb)
}

/// The views of a sequence of byte vectors.
pub open spec fn views_of(s: Seq<Vec<u8>>) -> Seq<Seq<u8>> {
    s.map_values(|v: Vec<u8>| v@)
}

/// A strictly increasing sequence in the lexicographic order: sorted with
/// no duplicates.
pub open spec fn strictly_increasing(s: Seq<Seq<u8>>) -> bool {
    forall|i: int, j: int|
        #![trigger s[i], s[j]]
        0 <= i < j < s.len() ==> lex_le(s[i], s[j]) && s[i] != s[j]
}

/// Inserting an element into a sequence adds it to the element set.
pub proof fn lemma_to_set_insert(s: Seq<Seq<u8>>, i: int, x: Seq<u8>)
    requires
        0 <= i <= s.len(),
    ensures
        s.insert(i, x).to_set() == s.to_set().insert(x),
{
    let t = s.insert(i, x);
    assert forall|e: Seq<u8>| t.to_set().contains(e) implies s.to_set().insert(x).contains(e) by {
        let k = choose|k: int| 0 <= k < t.len() && t[k] == e;
        if k < i {
            assert(s[k] == e);
            assert(s.contains(e));
        } else if k == i {
        } else {
            assert(s[k - 1] == e);
            assert(s.contains(e));
        }
    }
    assert forall|e: Seq<u8>| s.to_set().insert(x).contains(e) implies t.to_set().contains(e) by {
        if e == x {
            assert(t[i] == e);
            assert(t.contains(e));
        } else {
            let k = choose|k: int| 0 <= k < s.len() && s[k] == e;
            if k < i {
                assert(t[k] == e);
            } else {
                assert(t[k + 1] == e);
            }
            assert(t.contains(e));
        }
    }
    assert(t.to_set() =~= s.to_set().insert(x));
}

/// Sort the byte vectors lexicographically and drop duplicates.  The
/// strictly increasing result with the same element set is unique, so this
/// contract pins the output down completely.
pub fn sort_dedup(v: &Vec<Vec<u8>>) -> (r: Vec<Vec<u8>>)
    ensures
        strictly_increasing(views_of(r@)),
        views_of(r@).to_set() == views_of(v@).to_set(),
{
    let mut r: Vec<Vec<u8>> = Vec::new();
    let n = v.len();
    assert(views_of(v@.take(0)) =~= Seq::<Seq<u8>>::empty());
    assert(views_of(r@) =~= Seq::<Seq<u8>>::empty());
    assert(views_of(r@).to_set() =~= views_of(v@.take(0)).to_set());
    let mut idx: usize = 0;
    while idx < n
        invariant
            n == v@.len(),
            0 <= idx <= n,
            strictly_increasing(views_of(r@)),
            views_of(r@).to_set() == views_of(v@.take(idx as int)).to_set(),
        decreases n - idx,
    {
        let ghost old_r = r@;
        let x = v[idx].clone();
        assert(x@ == v@[idx as int]@);
        let m = r.len();
        let ghost xv = x@;
        let mut j: usize = 0;
        while j < m && !bytes_le(x.as_slice(), r[j].as_slice())
            invariant
                m == r@.len(),
                0 <= j <= m,
                r@ == old_r,
                x@ == xv,
                forall|k: int| 0 <= k < j ==> lex_le(r@[k]@, x@) && r@[k]@ != x@,
            decreases m - j,
        {
            proof {
                lemma_lex_total(x@, r@[j as int]@);
                if r@[j as int]@ == x@ {
                    lemma_lex_total(x@, x@);
                }
            }
            j += 1;
        }
        // j is the insertion point: everything before it is strictly below x,
        // and r[j] (when it exists) is at or above x
        if j < m && bytes_eq(x.as_slice(), r[j].as_slice()) {
            // duplicate: already present
            proof {
                assert(views_of(r@)[j as int] == xv);
                assert(views_of(r@).contains(xv));
                assert(views_of(r@).to_set() =~= views_of(r@).to_set().insert(xv));
            }
        } else {
            r.insert(j, x);
            proof {
                let s = views_of(r@);
                let o = views_of(old_r);
                let ji = j as int;
                assert(s =~= o.insert(ji, xv));
                lemma_to_set_insert(o, ji, xv);
                assert forall|a: int, b: int| 0 <= a < b < s.len() implies lex_le(s[a], s[b])
                    && s[a] != s[b] by {
                    if b < ji {
                        assert(s[a] == o[a] && s[b] == o[b]);
                    } else if a < ji && b == ji {
                        assert(s[a] == o[a] && s[b] == xv);
                        assert(lex_le(o[a], xv) && o[a] != xv);
                    } else if a == ji && b > ji {
                        assert(s[a] == xv && s[b] == o[b - 1]);
                        assert(lex_le(xv, o[ji]) && xv != o[ji]);
                        if b - 1 > ji {
                            assert(lex_le(o[ji], o[b - 1]) && o[ji] != o[b - 1]);
                            lemma_lex_trans(xv, o[ji], o[b - 1]);
                            if xv == o[b - 1] {
                                lemma_lex_antisym(xv, o[ji]);
                            }
                        }
                    } else if a < ji && b > ji {
                        assert(s[a] == o[a] && s[b] == o[b - 1]);
                        assert(a < b - 1 ==> lex_le(o[a], o[b - 1]) && o[a] != o[b - 1]);
                        if a == b - 1 {
                            assert(a == ji);
                        }
                    } else {
                        assert(a > ji && b > ji);
                        assert(s[a] == o[a - 1] && s[b] == o[b - 1]);
                    }
                }
            }
        }
        proof {
            let s0 = views_of(v@.take(idx as int));
            assert(views_of(v@.take(idx + 1)) =~= s0.insert(s0.len() as int, xv));
            lemma_to_set_insert(s0, s0.len() as int, xv);
            assert(views_of(r@).to_set() =~= views_of(v@.take(idx + 1)).to_set());
        }
        idx += 1;
    }
    assert(v@.take(n as int) =~= v@);
    r
}

/// Unfolds one step of `filter` on a non-empty sequence.
pub proof fn lemma_filter_step(s: Seq<Seq<u8>>, pred: spec_fn(Seq<u8>) -> bool)
    requires
        s.len() > 0,
    ensures
        pred(s.last()) ==> s.filter(pred) == s.drop_last().filter(pred).push(s.last()),
        !pred(s.last()) ==> s.filter(pred) == s.drop_last().filter(pred),
{
    reveal_with_fuel(Seq::filter, 2);
}

/// The elements of a filtered sequence are exactly the elements of the
/// source that satisfy the predicate.
pub proof fn lemma_filter_member(s: Seq<Seq<u8>>, pred: spec_fn(Seq<u8>) -> bool)
    ensures
        forall|e: Seq<u8>| #![auto] s.filter(pred).contains(e) <==> s.contains(e) && pred(e),
    decreases s.len(),
{
    if s.len() == 0 {
        assert(s.filter(pred) =~= Seq::<Seq<u8>>::empty());
    } else {
        let t = s.drop_last();
        let x = s.last();
        lemma_filter_member(t, pred);
        lemma_filter_step(s, pred);
        let f = s.filter(pred);
        assert forall|e: Seq<u8>| #![auto] f.contains(e) implies s.contains(e) && pred(e) by {
            let k = choose|k: int| 0 <= k < f.len() && f[k] == e;
            if pred(x) && k == f.len() - 1 {
                assert(e == x);
                assert(s[s.len() - 1] == e);
            } else {
                assert(f[k] == t.filter(pred)[k]);
                assert(t.filter(pred).contains(e));
                assert(t.contains(e));
                let j = choose|j: int| 0 <= j < t.len() && t[j] == e;
                assert(s[j] == e);
            }
        }
        assert forall|e: Seq<u8>| #![auto] s.contains(e) && pred(e) implies f.contains(e) by {
            let j = choose|j: int| 0 <= j < s.len() && s[j] == e;
            if j == s.len() - 1 {
                assert(e == x);
                assert(f[f.len() - 1] == e);
            } else {
                assert(t[j] == e);
                assert(t.contains(e));
                assert(t.filter(pred).contains(e));
                let k = choose|k: int| 0 <= k < t.filter(pred).len() && t.filter(pred)[k] == e;
                assert(f[k] == e);
            }
        }
    }
}

/// One ordering step of the partition loop for one category: pushing the
/// next source element (or leaving the output alone) keeps the output
/// strictly increasing and bounded by the element just processed.
pub proof fn lemma_order_step(
    old_s: Seq<Seq<u8>>,
    new_s: Seq<Seq<u8>>,
    sv: Seq<Seq<u8>>,
    idx: int,
    pv: Seq<u8>,
)
    requires
        0 <= idx < sv.len(),
        pv == sv[idx],
        strictly_increasing(sv),
        strictly_increasing(old_s),
        new_s == old_s || new_s == old_s.push(pv),
        idx > 0 ==> forall|k: int|
            0 <= k < old_s.len() ==> lex_le(#[trigger] old_s[k], sv[idx - 1]),
        idx == 0 ==> old_s.len() == 0,
    ensures
        strictly_increasing(new_s),
        forall|k: int| 0 <= k < new_s.len() ==> lex_le(#[trigger] new_s[k], sv[idx]),
{
    lemma_lex_total(pv, pv);
    assert forall|k: int| 0 <= k < old_s.len() implies lex_le(#[trigger] old_s[k], sv[idx])
        && old_s[k] != sv[idx] by {
        assert(idx > 0);
        assert(lex_le(old_s[k], sv[idx - 1]));
        assert(lex_le(sv[idx - 1], sv[idx]) && sv[idx - 1] != sv[idx]);
        lemma_lex_trans(old_s[k], sv[idx - 1], sv[idx]);
        if old_s[k] == sv[idx] {
            lemma_lex_antisym(sv[idx], sv[idx - 1]);
        }
    }
    if new_s == old_s.push(pv) {
        assert forall|a: int, b: int|
            #![trigger new_s[a], new_s[b]]
            0 <= a < b < new_s.len() implies lex_le(new_s[a], new_s[b]) && new_s[a] != new_s[b] by {
            if b < new_s.len() - 1 {
                assert(new_s[a] == old_s[a] && new_s[b] == old_s[b]);
            } else {
                assert(new_s[b] == pv);
                assert(new_s[a] == old_s[a]);
            }
        }
        assert forall|k: int| 0 <= k < new_s.len() implies lex_le(
            #[trigger] new_s[k],
            sv[idx],
        ) by {
            if k < new_s.len() - 1 {
                assert(new_s[k] == old_s[k]);
            } else {
                assert(new_s[k] == pv);
            }
        }
    }
}


/// A filter whose predicate holds of every element changes nothing.
pub proof fn lemma_filter_all(s: Seq<Seq<u8>>, pred: spec_fn(Seq<u8>) -> bool)
    requires
        forall|i: int| 0 <= i < s.len() ==> pred(#[trigger] s[i]),
    ensures
        s.filter(pred) == s,
    decreases s.len(),
{
    if s.len() == 0 {
        assert(s.filter(pred) =~= s);
    } else {
        let t = s.drop_last();
        assert forall|i: int| 0 <= i < t.len() implies pred(#[trigger] t[i]) by {
            assert(t[i] == s[i]);
        }
        lemma_filter_all(t, pred);
        lemma_filter_step(s, pred);
        assert(pred(s.last()));
        assert(s.filter(pred) =~= s);
    }
}

} // verus!
