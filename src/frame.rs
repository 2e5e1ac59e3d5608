//! Frame headers: `====<path>|<tag>====\n`, and the tag that annotates them.
use std::collections::hash_map::DefaultHasher;
use std::hash::Hasher;
use vstd::prelude::*;
use vstd::std_specs::hash::DefaultHasherAdditionalSpecFns;

use crate::bytes::{append_all, find_byte};

verus! {

/// The four `=` that open and close a header.
pub open spec fn marker() -> Seq<u8> {
    seq![61u8, 61, 61, 61]
}

/// The header line for a file: `====` path `|` tag `====` and a newline.
pub open spec fn header_spec(path: Seq<u8>, tag: Seq<u8>) -> Seq<u8> {
    marker() + path + seq![124u8] + tag + marker() + seq![10u8]
}

/// Decimal digits of `n`, most significant first, with no leading zero.
pub open spec fn decimal(n: nat) -> Seq<u8>
    decreases n,
{
    if n < 10 {
        seq![(48 + n) as u8]
    } else {
        decimal(n / 10).push((48 + n % 10) as u8)
    }
}

/// The tag of a file's bytes: std's `DefaultHasher` fed those bytes in one write.
pub open spec fn tag_of(b: Seq<u8>) -> u64 {
    DefaultHasher::spec_finish(seq![b])
}

/// The header text that stands for the tag of some bytes.
pub open spec fn tag_text(b: Seq<u8>) -> Seq<u8> {
    decimal(tag_of(b) as nat)
}

/// A line (newline included, where there is one) that starts with `====` and
/// ends with `====\n`; the two may overlap.
pub open spec fn is_header_line(l: Seq<u8>) -> bool {
    &&& l.len() >= 5
    &&& l[0] == 61 && l[1] == 61 && l[2] == 61 && l[3] == 61
    &&& l[l.len() - 5] == 61 && l[l.len() - 4] == 61 && l[l.len() - 3] == 61
    &&& l[l.len() - 2] == 61 && l[l.len() - 1] == 10
}

/// A header line with room for the text between its two markers.
pub open spec fn is_whole_header(l: Seq<u8>) -> bool {
    is_header_line(l) && l.len() >= 9
}

/// The path of a header line: what stands between the markers, up to the
/// first `|`.
pub open spec fn header_path(l: Seq<u8>) -> Seq<u8> {
    l.subrange(4, 4 + find_byte(l.subrange(4, l.len() - 5), 124) as int)
}

/// Every byte of `s` is a decimal digit.
pub open spec fn all_digits(s: Seq<u8>) -> bool {
    forall|i: int| 0 <= i < s.len() ==> 48 <= #[trigger] s[i] <= 57
}

pub proof fn lemma_decimal_digits(n: nat)
    ensures
        all_digits(decimal(n)),
        decimal(n).len() >= 1,
    decreases n,
{
    if n >= 10 {
        lemma_decimal_digits(n / 10);
    }
}

/// Appends the decimal digits of `n` to `out`.
pub fn push_decimal(n: u64, out: &mut Vec<u8>)
    ensures
        final(out)@ == old(out)@ + decimal(n as nat),
    decreases n,
{
    if n >= 10 {
        push_decimal(n / 10, out);
    }
    let d: u8 = (48 + n % 10) as u8;
    out.push(d);
    proof {
        if n >= 10 {
            assert(decimal(n as nat) == decimal((n / 10) as nat).push(d));
        } else {
            assert(decimal(n as nat) == seq![d]);
        }
        assert(final(out)@ =~= old(out)@ + decimal(n as nat));
    }
}

/// The tag of some bytes.
pub fn tag(buffer: &[u8]) -> (r: u64)
    ensures
        r == tag_of(buffer@),
{
    let mut h = DefaultHasher::new();
    h.write(buffer);
    let r = h.finish();
    assert(h@ =~= seq![buffer@]);
    r
}

/// The header line for `path` with the tag text `hash`.
pub fn file_sep(path: &[u8], hash: &[u8]) -> (r: Vec<u8>)
    ensures
        r@ == header_spec(path@, hash@),
{
    let mut r: Vec<u8> = vec![61u8, 61, 61, 61];
    append_all(&mut r, path);
    r.push(124u8);
    append_all(&mut r, hash);
    r.push(61u8);
    r.push(61u8);
    r.push(61u8);
    r.push(61u8);
    r.push(10u8);
    assert(r@ =~= header_spec(path@, hash@));
    r
}

/// The header line for a file at `path` whose bytes are `buffer`: the tag of
/// the bytes, in decimal, follows the path.
pub fn create_file_sep(path: &[u8], buffer: &[u8]) -> (r: Vec<u8>)
    ensures
        r@ == header_spec(path@, tag_text(buffer@)),
{
    let mut digits: Vec<u8> = Vec::new();
    push_decimal(tag(buffer), &mut digits);
    assert(digits@ =~= tag_text(buffer@));
    file_sep(path, digits.as_slice())
}

/// The tag is a function of the bytes alone: equal bytes, equal tags.
pub proof fn lemma_tag_deterministic(a: Seq<u8>, b: Seq<u8>)
    requires
        a == b,
    ensures
        tag_of(a) == tag_of(b),
        tag_text(a) == tag_text(b),
{
}

} // verus!
