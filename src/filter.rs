//! Which paths stay out of an archive: those with a segment that names one of
//! a fixed set of well-known entries.
use vstd::prelude::*;

verus! {

/// File name of the archive that encoding writes.
pub const ENCODE_OUTPUT: &'static str = "out.out";

/// Directory under which decoding writes the files it recovers.
pub const DECODE_OUTPUT: &'static str = "output";

pub open spec fn dot_git() -> Seq<u8> {
    seq![46u8, 103, 105, 116]
}

pub open spec fn cargo_lock() -> Seq<u8> {
    seq![67u8, 97, 114, 103, 111, 46, 108, 111, 99, 107]
}

pub open spec fn target_dir() -> Seq<u8> {
    seq![116u8, 97, 114, 103, 101, 116]
}

pub open spec fn node_modules() -> Seq<u8> {
    seq![110u8, 111, 100, 101, 95, 109, 111, 100, 117, 108, 101, 115]
}

/// `out.out`, the archive's own name.
pub open spec fn archive_name() -> Seq<u8> {
    seq![111u8, 117, 116, 46, 111, 117, 116]
}

/// `output`, the name of the directory that decoding fills.
pub open spec fn output_dir_name() -> Seq<u8> {
    seq![111u8, 117, 116, 112, 117, 116]
}

/// A segment name that excludes every path that holds it.
pub open spec fn is_ignored_name(s: Seq<u8>) -> bool {
    s == dot_git() || s == cargo_lock() || s == target_dir() || s == node_modules()
        || s == archive_name() || s == output_dir_name()
}

/// `p[i..j]` is one segment of `p`: a maximal run of bytes without `/`.
pub open spec fn is_segment(p: Seq<u8>, i: int, j: int) -> bool {
    &&& 0 <= i <= j <= p.len()
    &&& (i == 0 || p[i - 1] == 47)
    &&& (j == p.len() || p[j] == 47)
    &&& forall|k: int| i <= k < j ==> p[k] != 47
}

/// Some segment of the path is an ignored name.
pub open spec fn path_excluded(p: Seq<u8>) -> bool {
    exists|i: int, j: int| is_segment(p, i, j) && #[trigger] is_ignored_name(p.subrange(i, j))
}

fn range_is(p: &[u8], i: usize, j: usize, name: &[u8]) -> (r: bool)
    requires
        i <= j <= p@.len(),
    ensures
        r == (p@.subrange(i as int, j as int) == name@),
{
    if j - i != name.len() {
        return false;
    }
    let mut k: usize = 0;
    while k < name.len()
        invariant
            i <= j <= p@.len(),
            j - i == name@.len(),
            0 <= k <= name@.len(),
            forall|m: int| 0 <= m < k ==> p@[i + m] == name@[m],
        decreases name@.len() - k,
    {
        if p[i + k] != name[k] {
            assert(p@.subrange(i as int, j as int)[k as int] != name@[k as int]);
            return false;
        }
        k += 1;
    }
    assert(p@.subrange(i as int, j as int) =~= name@);
    true
}

/// Whether `p[i..j]` is one of the ignored names.
fn range_is_ignored(p: &[u8], i: usize, j: usize) -> (r: bool)
    requires
        i <= j <= p@.len(),
    ensures
        r == is_ignored_name(p@.subrange(i as int, j as int)),
{
    let git: Vec<u8> = vec![46u8, 103, 105, 116];
    let lock: Vec<u8> = vec![67u8, 97, 114, 103, 111, 46, 108, 111, 99, 107];
    let target: Vec<u8> = vec![116u8, 97, 114, 103, 101, 116];
    let modules: Vec<u8> = vec![110u8, 111, 100, 101, 95, 109, 111, 100, 117, 108, 101, 115];
    let archive: Vec<u8> = vec![111u8, 117, 116, 46, 111, 117, 116];
    let output: Vec<u8> = vec![111u8, 117, 116, 112, 117, 116];
    assert(git@ == dot_git());
    assert(lock@ == cargo_lock());
    assert(target@ == target_dir());
    assert(modules@ == node_modules());
    assert(archive@ == archive_name());
    assert(output@ == output_dir_name());
    range_is(p, i, j, git.as_slice()) || range_is(p, i, j, lock.as_slice()) || range_is(
        p,
        i,
        j,
        target.as_slice(),
    ) || range_is(p, i, j, modules.as_slice()) || range_is(p, i, j, archive.as_slice())
        || range_is(p, i, j, output.as_slice())
}

/// Whether one path segment is an ignored name.
pub fn is_ignored_segment(seg: &[u8]) -> (r: bool)
    ensures
        r == is_ignored_name(seg@),
{
    let r = range_is_ignored(seg, 0, seg.len());
    assert(seg@.subrange(0, seg@.len() as int) =~= seg@);
    r
}

/// Whether a path, with `/` between its segments, has a segment that is an
/// ignored name.
pub fn is_excluded_path(p: &[u8]) -> (r: bool)
    ensures
        r == path_excluded(p@),
{
    let mut start: usize = 0;
    let mut idx: usize = 0;
    while idx < p.len()
        invariant
            0 <= start <= idx <= p@.len(),
            start == 0 || p@[start - 1] == 47,
            forall|k: int| start <= k < idx ==> p@[k] != 47,
            forall|i: int, j: int|
                is_segment(p@, i, j) && j < idx ==> !#[trigger] is_ignored_name(p@.subrange(i, j)),
        decreases p@.len() - idx,
    {
        if p[idx] == 47 {
            if range_is_ignored(p, start, idx) {
                assert(is_segment(p@, start as int, idx as int));
                return true;
            }
            proof {
                lemma_segment_ending_at(p@, start as int, idx as int);
            }
            start = idx + 1;
        } else {
            assert forall|i: int, j: int|
                is_segment(p@, i, j) && j < idx + 1 implies !#[trigger] is_ignored_name(
                p@.subrange(i, j),
            ) by {
                if j == idx {
                    assert(p@[j] == 47);
                }
            }
        }
        idx += 1;
    }
    let last = range_is_ignored(p, start, idx);
    if last {
        assert(is_segment(p@, start as int, idx as int));
    } else {
        proof {
            lemma_segment_ending_at(p@, start as int, idx as int);
        }
    }
    last
}

/// The one segment that ends at `e` is the one that starts at `s`.
proof fn lemma_segment_ending_at(p: Seq<u8>, s: int, e: int)
    requires
        0 <= s <= e <= p.len(),
        s == 0 || p[s - 1] == 47,
        forall|k: int| s <= k < e ==> p[k] != 47,
    ensures
        forall|i: int| #[trigger] is_segment(p, i, e) ==> i == s,
{
    assert forall|i: int| #[trigger] is_segment(p, i, e) implies i == s by {
        if i < s {
            assert(p[s - 1] == 47);
        } else if i > s {
            assert(p[i - 1] == 47);
        }
    }
}

/// The archive that encoding writes, and everything under the directory that
/// decoding fills, are never taken into an archive made from the working
/// directory, so a second run does not pack the first run's output.
pub proof fn lemma_own_output_excluded(rest: Seq<u8>)
    ensures
        path_excluded(seq![46u8, 47] + archive_name()),
        path_excluded(seq![46u8, 47] + output_dir_name() + seq![47u8] + rest),
{
    let a = seq![46u8, 47] + archive_name();
    assert(is_segment(a, 2, 9));
    assert(a.subrange(2, 9) =~= archive_name());
    assert(is_ignored_name(a.subrange(2, 9)));
    let o = seq![46u8, 47] + output_dir_name() + seq![47u8] + rest;
    assert(is_segment(o, 2, 8));
    assert(o.subrange(2, 8) =~= output_dir_name());
    assert(is_ignored_name(o.subrange(2, 8)));
}

} // verus!
