//! Path conventions of the tool, on byte-vector paths: the environment
//! file prefix, the skeleton and artifact suffixes, derived sibling
//! paths, and the fixed config file name.
//!
//! A path is a byte sequence; components are separated by `/` (47).  The
//! file name is everything after the last separator.

use vstd::prelude::*;

use crate::bytes::{ends_with, has_suffix};

verus! {

/// `/`, the path separator.
pub const SEP: u8 = 47;

/// `.`, the extension separator.
pub const DOT: u8 = 46;

/// The name prefix of environment files: `.env` in ASCII bytes.
pub open spec fn env_prefix() -> Seq<u8> {
    seq![46u8, 101u8, 110u8, 118u8]
}

/// The skeleton-file suffix: `.example` in ASCII bytes.
pub open spec fn suffix_example() -> Seq<u8> {
    seq![46u8, 101u8, 120u8, 97u8, 109u8, 112u8, 108u8, 101u8]
}

/// The encrypted-artifact suffix: `.enc` in ASCII bytes.
pub open spec fn suffix_enc() -> Seq<u8> {
    seq![46u8, 101u8, 110u8, 99u8]
}

/// The config file name: `eenv.config.json` in ASCII bytes.
pub open spec fn config_name() -> Seq<u8> {
    seq![
        101u8, 101u8, 110u8, 118u8, 46u8, 99u8, 111u8, 110u8, 102u8, 105u8, 103u8, 46u8,
        106u8, 115u8, 111u8, 110u8,
    ]
}

/// The `.env` prefix as a vector.
pub fn env_prefix_bytes() -> (r: Vec<u8>)
    ensures
        r@ == env_prefix(),
{
    let mut r: Vec<u8> = Vec::new();
    r.push(46);
    r.push(101);
    r.push(110);
    r.push(118);
    assert(r@ =~= env_prefix());
    r
}

/// The `.example` suffix as a vector.
pub fn suffix_example_bytes() -> (r: Vec<u8>)
    ensures
        r@ == suffix_example(),
{
    let mut r: Vec<u8> = Vec::new();
    r.push(46);
    r.push(101);
    r.push(120);
    r.push(97);
    r.push(109);
    r.push(112);
    r.push(108);
    r.push(101);
    assert(r@ =~= suffix_example());
    r
}

/// The `.enc` suffix as a vector.
pub fn suffix_enc_bytes() -> (r: Vec<u8>)
    ensures
        r@ == suffix_enc(),
{
    let mut r: Vec<u8> = Vec::new();
    r.push(46);
    r.push(101);
    r.push(110);
    r.push(99);
    assert(r@ =~= suffix_enc());
    r
}

/// The config file name as a vector.
pub fn config_name_bytes() -> (r: Vec<u8>)
    ensures
        r@ == config_name(),
{
    let mut r: Vec<u8> = Vec::new();
    r.push(101);
    r.push(101);
    r.push(110);
    r.push(118);
    r.push(46);
    r.push(99);
    r.push(111);
    r.push(110);
    r.push(102);
    r.push(105);
    r.push(103);
    r.push(46);
    r.push(106);
    r.push(115);
    r.push(111);
    r.push(110);
    assert(r@ =~= config_name());
    r
}

/// Index where the file name starts: just after the last separator, 0
/// when the path has none.
pub open spec fn base_start(p: Seq<u8>) -> int
    decreases p.len(),
{
    if p.len() == 0 {
        0
    } else if p.last() == SEP {
        p.len() as int
    } else {
        base_start(p.drop_last())
    }
}

/// The file-name part of a path.
pub open spec fn file_name(p: Seq<u8>) -> Seq<u8> {
    p.skip(base_start(p))
}

/// The directory part of a path, separator included.
pub open spec fn dir_part(p: Seq<u8>) -> Seq<u8> {
    p.take(base_start(p))
}

/// `base_start` is exactly the position after the last separator.
pub proof fn lemma_base_start(p: Seq<u8>, j: int)
    requires
        0 <= j <= p.len(),
        forall|k: int| j <= k < p.len() ==> p[k] != SEP,
        j == 0 || p[j - 1] == SEP,
    ensures
        base_start(p) == j,
    decreases p.len(),
{
    if p.len() == 0 {
    } else if p.last() == SEP {
        assert(j == p.len());
    } else {
        assert(j < p.len());
        lemma_base_start(p.drop_last(), j);
    }
}

/// The file name of a path: everything after the last separator.
pub fn file_name_of(p: &[u8]) -> (r: Vec<u8>)
    ensures
        r@ == file_name(p@),
{
    let n = p.len();
    let mut j: usize = n;
    while j > 0 && p[j - 1] != SEP
        invariant
            n == p@.len(),
            0 <= j <= n,
            forall|k: int| j <= k < n ==> p@[k] != SEP,
        decreases j,
    {
        j -= 1;
    }
    proof {
        lemma_base_start(p@, j as int);
    }
    let out = vstd::slice::slice_subrange(p, j, n);
    let r = vstd::slice::slice_to_vec(out);
    assert(r@ =~= file_name(p@));
    r
}

/// The artifact path for a plaintext path: the path with `.enc`
/// appended.
pub open spec fn spec_enc_output(p: Seq<u8>) -> Seq<u8> {
    p + suffix_enc()
}

/// The plaintext path for an artifact path: a trailing `.enc` stripped;
/// unchanged when the suffix is absent.
pub open spec fn spec_dec_output(p: Seq<u8>) -> Seq<u8> {
    if ends_with(p, suffix_enc()) {
        p.take(p.len() - suffix_enc().len())
    } else {
        p
    }
}

/// The artifact path for a plaintext file: the input with `.enc`
/// appended to its file name.
pub fn enc_output_path(input: &[u8]) -> (r: Vec<u8>)
    ensures
        r@ == spec_enc_output(input@),
{
    let mut r = vstd::slice::slice_to_vec(input);
    let mut suf = suffix_enc_bytes();
    r.append(&mut suf);
    r
}

/// The plaintext path for an artifact: the input with a trailing `.enc`
/// stripped; unchanged when the suffix is absent.
pub fn dec_output_path(input: &[u8]) -> (r: Vec<u8>)
    ensures
        r@ == spec_dec_output(input@),
{
    let suf = suffix_enc_bytes();
    if has_suffix(input, suf.as_slice()) {
        let out = vstd::slice::slice_subrange(input, 0, input.len() - 4);
        let r = vstd::slice::slice_to_vec(out);
        assert(r@ =~= input@.take(input@.len() - suffix_enc().len()));
        r
    } else {
        vstd::slice::slice_to_vec(input)
    }
}

/// The skeleton path for a plaintext file: the input with `.example`
/// appended, or the input itself when it is already a skeleton path.
pub fn example_path_for(path: &[u8]) -> (r: Vec<u8>)
    ensures
        ends_with(path@, suffix_example()) ==> r@ == path@,
        !ends_with(path@, suffix_example()) ==> r@ == path@ + suffix_example(),
{
    let suf = suffix_example_bytes();
    if has_suffix(path, suf.as_slice()) {
        vstd::slice::slice_to_vec(path)
    } else {
        let mut r = vstd::slice::slice_to_vec(path);
        let mut s = suffix_example_bytes();
        r.append(&mut s);
        r
    }
}

/// A directory path joined with a name.
pub open spec fn spec_join(dir: Seq<u8>, name: Seq<u8>) -> Seq<u8> {
    if dir.len() == 0 {
        name
    } else if dir.last() == SEP {
        dir + name
    } else {
        dir + seq![SEP] + name
    }
}

/// Join a directory path and a name with a single separator.
pub fn join_path(dir: &[u8], name: &[u8]) -> (r: Vec<u8>)
    ensures
        r@ == spec_join(dir@, name@),
{
    let mut r = vstd::slice::slice_to_vec(dir);
    if dir.len() > 0 && dir[dir.len() - 1] != SEP {
        r.push(SEP);
    }
    let mut n = vstd::slice::slice_to_vec(name);
    r.append(&mut n);
    assert(r@ =~= spec_join(dir@, name@));
    r
}

/// The config file path under a repository root.
pub fn eenv_config_path(repo_root: &[u8]) -> (r: Vec<u8>)
    ensures
        r@ == spec_join(repo_root@, config_name()),
{
    let name = config_name_bytes();
    join_path(repo_root, name.as_slice())
}

/// The decimal digits of `n`, most significant first.
pub open spec fn dec_digits(n: nat) -> Seq<u8>
    decreases n,
{
    if n < 10 {
        seq![(48 + n) as u8]
    } else {
        dec_digits(n / 10).push((48 + n % 10) as u8)
    }
}

/// The decimal representation of `n` in ASCII bytes.
pub fn dec_of(n: u64) -> (r: Vec<u8>)
    ensures
        r@ == dec_digits(n as nat),
    decreases n,
{
    if n < 10 {
        let mut r: Vec<u8> = Vec::new();
        r.push(48 + (n as u8));
        assert(r@ =~= dec_digits(n as nat));
        r
    } else {
        let mut r = dec_of(n / 10);
        r.push(48 + ((n % 10) as u8));
        assert(r@ =~= dec_digits(n as nat));
        r
    }
}

/// Length of the stem of a file name: everything up to the last `.` that
/// does not open the name; the whole name when there is no such dot.
pub open spec fn stem_len_rec(name: Seq<u8>, i: int) -> int
    decreases i,
{
    if i <= 1 {
        name.len() as int
    } else if name[i - 1] == DOT {
        i - 1
    } else {
        stem_len_rec(name, i - 1)
    }
}

/// Length of the stem of a file name.
pub open spec fn stem_len(name: Seq<u8>) -> int {
    stem_len_rec(name, name.len() as int)
}

/// The suffix a backup file carries: `bak.` followed by the timestamp.
pub open spec fn bak_ext(ts: nat) -> Seq<u8> {
    seq![98u8, 97u8, 107u8, 46u8] + dec_digits(ts)
}

/// The timestamped backup path for a config file: the extension of its
/// file name is replaced by `bak.<ts>` (appended when the name has no
/// extension).
pub open spec fn spec_backup_path(p: Seq<u8>, ts: nat) -> Seq<u8> {
    dir_part(p) + file_name(p).take(stem_len(file_name(p))) + seq![DOT] + bak_ext(ts)
}

/// Compute the timestamped backup path for a file.
pub fn backup_path_with_ts(p: &[u8], ts: u64) -> (r: Vec<u8>)
    ensures
        r@ == spec_backup_path(p@, ts as nat),
{
    let name = file_name_of(p);
    let n = name.len();
    let mut i: usize = n;
    while i > 1 && name[i - 1] != DOT
        invariant
            n == name@.len(),
            (1 <= i <= n) || (i == n == 0),
            forall|k: int| i < k <= n ==> #[trigger] name@[k - 1] != 46,
        decreases i,
    {
        i -= 1;
    }
    let stem: usize = if i > 1 && name[i - 1] == DOT {
        i - 1
    } else {
        n
    };
    proof {
        lemma_stem_rec(name@, i as int, n as int);
        assert(stem == stem_len(name@));
    }
    proof {
        lemma_base_start_range(p@);
        assert(name@.len() == p@.len() - base_start(p@));
    }
    let n_base = p.len() - name.len();
    assert(dir_part(p@) =~= p@.take(n_base as int));
    let mut r = vstd::slice::slice_to_vec(vstd::slice::slice_subrange(p, 0, n_base));
    let mut head = vstd::slice::slice_to_vec(vstd::slice::slice_subrange(name.as_slice(), 0, stem));
    r.append(&mut head);
    r.push(DOT);
    r.push(98);
    r.push(97);
    r.push(107);
    r.push(46);
    let mut digits = dec_of(ts);
    r.append(&mut digits);
    assert(r@ =~= spec_backup_path(p@, ts as nat));
    r
}

/// Unfolds `stem_len_rec` past positions that hold no dot.
proof fn lemma_stem_rec(name: Seq<u8>, i: int, n: int)
    requires
        n == name.len(),
        0 <= i <= n,
        forall|k: int| i < k <= n ==> #[trigger] name[k - 1] != DOT,
    ensures
        stem_len_rec(name, n) == stem_len_rec(name, i),
    decreases n - i,
{
    if i < n {
        lemma_stem_rec(name, i + 1, n);
    }
}

/// Whether a file-name suffix test on the whole path agrees with the test
/// on its file name: the suffix holds no separator, so the two agree.
pub proof fn lemma_suffix_on_name(p: Seq<u8>, suf: Seq<u8>)
    requires
        forall|k: int| 0 <= k < suf.len() ==> suf[k] != SEP,
    ensures
        ends_with(p, suf) == ends_with(file_name(p), suf),
{
    let b = base_start(p);
    lemma_base_start_range(p);
    if ends_with(p, suf) {
        if p.len() - suf.len() < b {
            let k = b - 1;
            assert(p[k] == SEP);
            assert(suf[k - (p.len() - suf.len())] == p[k]);
            assert(false);
        }
        assert(file_name(p).subrange(
            file_name(p).len() - suf.len(),
            file_name(p).len() as int,
        ) =~= p.subrange(p.len() - suf.len(), p.len() as int));
    }
    if ends_with(file_name(p), suf) {
        assert(p.subrange(p.len() - suf.len(), p.len() as int) =~= file_name(p).subrange(
            file_name(p).len() - suf.len(),
            file_name(p).len() as int,
        ));
    }
}

/// `base_start` lies within the path and is preceded by a separator when
/// it is positive.
pub proof fn lemma_base_start_range(p: Seq<u8>)
    ensures
        0 <= base_start(p) <= p.len(),
        base_start(p) > 0 ==> p[base_start(p) - 1] == SEP,
        forall|k: int| base_start(p) <= k < p.len() ==> p[k] != SEP,
    decreases p.len(),
{
    if p.len() > 0 && p.last() != SEP {
        lemma_base_start_range(p.drop_last());
        assert forall|k: int| base_start(p) <= k < p.len() implies p[k] != SEP by {
            if k < p.len() - 1 {
                assert(p.drop_last()[k] == p[k]);
            }
        }
    }
}

} // verus!
