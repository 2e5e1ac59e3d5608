//! The archive format as a model: what encoding writes for a sequence of
//! files, and what decoding reads back from a stream of bytes.
use vstd::prelude::*;

use crate::bytes::{find_byte, first_at, lemma_find_byte, lemma_find_byte_at};
use crate::filter::path_excluded;
use crate::frame::{
    header_path, header_spec, is_header_line, is_whole_header, lemma_decimal_digits, tag_of,
    tag_text,
};
use crate::layers::{
    base64_decoded, base64_of, is_base64_byte, lemma_ascii_utf8, zlib_inflated, zlib_of,
};
use vstd::utf8::{valid_utf8, valid_utf8_concat};

verus! {

/// How payloads are written, and what wraps the whole stream.
#[derive(Clone, Copy, PartialEq, Eq, Structural, Debug)]
pub enum Mode {
    /// Raw bytes, no outer layer.
    Plain,
    /// Base64 text per file, no outer layer.
    Base64,
    /// Base64 text per file; the stream is compressed and then base64 encoded.
    CompressedText,
    /// Base64 text per file; the stream is compressed.
    CompressedBinary,
}

/// One file: its path, with `/` between segments, and its bytes.
pub struct Entry {
    pub path: Vec<u8>,
    pub content: Vec<u8>,
}

impl View for Entry {
    type V = (Seq<u8>, Seq<u8>);

    open spec fn view(&self) -> (Seq<u8>, Seq<u8>) {
        (self.path@, self.content@)
    }
}

/// Why an archive could not be decoded.
#[derive(Clone, Copy, PartialEq, Eq, Structural, Debug)]
pub enum DecodeError {
    /// A line starts with `====` and ends with `====\n` but has no room for a path.
    MalformedHeader,
    /// A payload line is not valid base64.
    BadPayload,
    /// The stream is not a zlib stream.
    BadCompressedStream,
    /// The outer text of a compressed text archive is not valid base64.
    BadTextLayer,
    /// The decompressed stream is not UTF-8 text.
    NotText,
}

pub type FileView = (Seq<u8>, Seq<u8>);

pub open spec fn entries_view(es: Seq<Entry>) -> Seq<FileView> {
    es.map_values(|e: Entry| e@)
}

// ---- encoding ----
/// The payload line of a file's bytes.
pub open spec fn payload_spec(mode: Mode, content: Seq<u8>) -> Seq<u8> {
    if mode == Mode::Plain {
        content.push(10)
    } else {
        base64_of(content).push(10)
    }
}

/// One frame: the header line, then the payload line.
pub open spec fn frame_spec(mode: Mode, e: FileView) -> Seq<u8> {
    header_spec(e.0, tag_text(e.1)) + payload_spec(mode, e.1)
}

/// The frames of some files, in their order.
pub open spec fn frames_spec(mode: Mode, es: Seq<FileView>) -> Seq<u8>
    decreases es.len(),
{
    if es.len() == 0 {
        Seq::empty()
    } else {
        frames_spec(mode, es.drop_last()) + frame_spec(mode, es.last())
    }
}

/// The files whose paths are not excluded, in their order.
pub open spec fn kept(es: Seq<FileView>) -> Seq<FileView>
    decreases es.len(),
{
    if es.len() == 0 {
        es
    } else if path_excluded(es.last().0) {
        kept(es.drop_last())
    } else {
        kept(es.drop_last()).push(es.last())
    }
}

/// The archive of some files: the frames of those not excluded, under the
/// mode's outer layer.
pub open spec fn archive_spec(mode: Mode, es: Seq<FileView>) -> Seq<u8> {
    let frames = frames_spec(mode, kept(es));
    match mode {
        Mode::Plain | Mode::Base64 => frames,
        Mode::CompressedBinary => zlib_of(frames),
        Mode::CompressedText => base64_of(zlib_of(frames)),
    }
}

// ---- decoding ----
/// Length of the first line of `t`: up to and including the first newline,
/// or all of `t`.
pub open spec fn line_end(t: Seq<u8>) -> int {
    let f = find_byte(t, 10) + 1;
    if f < t.len() {
        f as int
    } else {
        t.len() as int
    }
}

/// The bytes that a payload line stands for: the line itself in plain mode;
/// otherwise the base64 decoding of the line without its last byte.
pub open spec fn payload_of(mode: Mode, line: Seq<u8>) -> Option<Seq<u8>> {
    if mode == Mode::Plain {
        Some(line)
    } else {
        base64_decoded(line.drop_last())
    }
}

/// The bytes of a file as it is closed: in plain mode the newline that
/// separates the file's bytes from the next frame is dropped.
pub open spec fn closed_bytes(mode: Mode, c: Seq<u8>) -> Seq<u8> {
    if mode == Mode::Plain && c.len() > 0 && c.last() == 10 {
        c.drop_last()
    } else {
        c
    }
}

/// The files read so far, with the last one, which is still open, closed.
pub open spec fn close(mode: Mode, files: Seq<FileView>) -> Seq<FileView> {
    if files.len() > 0 {
        files.update(files.len() - 1, (files.last().0, closed_bytes(mode, files.last().1)))
    } else {
        files
    }
}

/// One line read: a header closes the open file and opens a new one; any
/// other line adds to the open file, or is passed over where none is open.
pub open spec fn step(mode: Mode, files: Seq<FileView>, line: Seq<u8>) -> Result<
    Seq<FileView>,
    DecodeError,
> {
    if is_header_line(line) {
        if is_whole_header(line) {
            Ok(close(mode, files).push((header_path(line), Seq::empty())))
        } else {
            Err(DecodeError::MalformedHeader)
        }
    } else if files.len() == 0 {
        Ok(files)
    } else {
        match payload_of(mode, line) {
            Some(p) => Ok(
                files.update(files.len() - 1, (files.last().0, files.last().1 + p)),
            ),
            None => Err(DecodeError::BadPayload),
        }
    }
}

/// The files read from the frame stream `t`, after those in `files`.
pub open spec fn parse_from(mode: Mode, t: Seq<u8>, files: Seq<FileView>) -> Result<
    Seq<FileView>,
    DecodeError,
>
    decreases t.len(),
{
    if t.len() == 0 {
        Ok(files)
    } else {
        let k = line_end(t);
        match step(mode, files, t.subrange(0, k)) {
            Ok(g) => parse_from(mode, t.subrange(k, t.len() as int), g),
            Err(e) => Err(e),
        }
    }
}

/// The files read from a whole frame stream; the last one is closed at its end.
pub open spec fn parse_all(mode: Mode, t: Seq<u8>) -> Result<Seq<FileView>, DecodeError> {
    match parse_from(mode, t, Seq::empty()) {
        Ok(f) => Ok(close(mode, f)),
        Err(e) => Err(e),
    }
}

/// The files that decoding recovers from an archive.
pub open spec fn decode_spec(mode: Mode, a: Seq<u8>) -> Result<Seq<FileView>, DecodeError> {
    match mode {
        Mode::Plain | Mode::Base64 => parse_all(mode, a),
        Mode::CompressedBinary => match zlib_inflated(a) {
            Some(t) => parse_text(mode, t),
            None => Err(DecodeError::BadCompressedStream),
        },
        Mode::CompressedText => match base64_decoded(a) {
            Some(z) => match zlib_inflated(z) {
                Some(t) => parse_text(mode, t),
                None => Err(DecodeError::BadCompressedStream),
            },
            None => Err(DecodeError::BadTextLayer),
        },
    }
}

/// The files read from a decompressed stream, which must be UTF-8 text.
pub open spec fn parse_text(mode: Mode, t: Seq<u8>) -> Result<Seq<FileView>, DecodeError> {
    if valid_utf8(t) {
        parse_all(mode, t)
    } else {
        Err(DecodeError::NotText)
    }
}

/// The mode compresses the frame stream.
pub open spec fn is_compressed(mode: Mode) -> bool {
    mode == Mode::CompressedText || mode == Mode::CompressedBinary
}

// ---- what survives a round trip ----
/// A file whose frame reads back as one file: its path holds no newline and
/// no `|`, and is UTF-8 where the stream is compressed; in plain mode its
/// bytes hold no newline and, with the newline that follows them, do not
/// read as a header.
pub open spec fn framable(mode: Mode, e: FileView) -> bool {
    &&& forall|i: int| 0 <= i < e.0.len() ==> #[trigger] e.0[i] != 10 && e.0[i] != 124
    &&& is_compressed(mode) ==> valid_utf8(e.0)
    &&& mode == Mode::Plain ==> {
        &&& forall|i: int| 0 <= i < e.1.len() ==> #[trigger] e.1[i] != 10
        &&& !is_header_line(e.1.push(10))
    }
}

pub open spec fn all_framable(mode: Mode, es: Seq<FileView>) -> bool {
    forall|i: int| 0 <= i < es.len() ==> framable(mode, #[trigger] es[i])
}

/// A file as it stands after its frame is read and before it is closed: in
/// plain mode its bytes are followed by the newline that ends the frame.
pub open spec fn open_view(mode: Mode, e: FileView) -> FileView {
    if mode == Mode::Plain {
        (e.0, e.1.push(10))
    } else {
        e
    }
}

/// Closing a file just read from its frame gives the file back.
pub proof fn lemma_close_open(mode: Mode, g: Seq<FileView>, e: FileView)
    ensures
        close(mode, g.push(open_view(mode, e))) == g.push(e),
{
    if mode == Mode::Plain {
        assert(e.1.push(10).drop_last() =~= e.1);
    }
    assert(close(mode, g.push(open_view(mode, e))) =~= g.push(e));
}

/// The facts about the base64 text of some bytes that a frame relies on.
pub open spec fn base64_line_ok(c: Seq<u8>) -> bool {
    &&& base64_decoded(base64_of(c)) == Some(c)
    &&& forall|i: int| 0 <= i < base64_of(c).len() ==> is_base64_byte(#[trigger] base64_of(c)[i])
    &&& base64_of(c).len() == 0 || base64_of(c)[0] != 61
}

/// Reading a stream that ends with a newline, and then more, is reading the
/// first part and then going on from where it left off.
pub proof fn lemma_parse_concat(mode: Mode, a: Seq<u8>, b: Seq<u8>, f: Seq<FileView>)
    requires
        a.len() == 0 || a.last() == 10,
    ensures
        parse_from(mode, a + b, f) == match parse_from(mode, a, f) {
            Ok(g) => parse_from(mode, b, g),
            Err(e) => Err(e),
        },
    decreases a.len(),
{
    if a.len() == 0 {
        assert(a + b =~= b);
    } else {
        let ab = a + b;
        lemma_find_byte(a, 10);
        let fa = find_byte(a, 10) as int;
        if fa == a.len() {
            assert(a[a.len() - 1] != 10);
        }
        assert(first_at(ab, 10, fa));
        lemma_find_byte_at(ab, 10, fa);
        let k = fa + 1;
        assert(line_end(a) == k);
        assert(line_end(ab) == k);
        assert(ab.subrange(0, k) =~= a.subrange(0, k));
        let ra = a.subrange(k, a.len() as int);
        assert(ab.subrange(k, ab.len() as int) =~= ra + b);
        assert(ra.len() == 0 || ra.last() == a.last());
        match step(mode, f, a.subrange(0, k)) {
            Ok(g) => {
                lemma_parse_concat(mode, ra, b, g);
            },
            Err(e) => {},
        }
    }
}

/// A line that ends with its only newline is read in one step.
pub proof fn lemma_parse_one_line(mode: Mode, l: Seq<u8>, f: Seq<FileView>)
    requires
        l.len() > 0,
        l.last() == 10,
        forall|i: int| 0 <= i < l.len() - 1 ==> l[i] != 10,
    ensures
        parse_from(mode, l, f) == step(mode, f, l),
{
    assert(first_at(l, 10, l.len() - 1));
    lemma_find_byte_at(l, 10, l.len() - 1);
    assert(l.subrange(0, l.len() as int) =~= l);
    assert(line_end(l) == l.len());
    let rest = l.subrange(l.len() as int, l.len() as int);
    assert(rest.len() == 0);
    match step(mode, f, l) {
        Ok(g) => {
            assert(parse_from(mode, rest, g) == Ok::<Seq<FileView>, DecodeError>(g));
        },
        Err(_) => {},
    }
}

/// The frame of a file that can be framed closes the open file and reads
/// back as that file, still open.
pub proof fn lemma_frame(mode: Mode, e: FileView, f: Seq<FileView>)
    requires
        framable(mode, e),
        mode != Mode::Plain ==> base64_line_ok(e.1),
    ensures
        parse_from(mode, frame_spec(mode, e), f) == Ok::<Seq<FileView>, DecodeError>(
            close(mode, f).push(open_view(mode, e)),
        ),
{
    let t = tag_text(e.1);
    lemma_decimal_digits(tag_of(e.1) as nat);
    let h = header_spec(e.0, t);
    let p = payload_spec(mode, e.1);
    assert(frame_spec(mode, e) == h + p);
    let n = e.0.len() as int;
    assert(h.len() == n + t.len() + 10);
    assert forall|i: int| 0 <= i < h.len() - 1 implies h[i] != 10 by {
        if 4 <= i < 4 + n {
            assert(h[i] == e.0[i - 4]);
        } else if 5 + n <= i < 5 + n + t.len() {
            assert(h[i] == t[i - 5 - n]);
        }
    }
    lemma_parse_concat(mode, h, p, f);
    lemma_parse_one_line(mode, h, f);
    let inner = h.subrange(4, h.len() - 5);
    assert(inner =~= e.0 + seq![124u8] + t);
    assert forall|j: int| 0 <= j < n implies inner[j] != 124 by {
        assert(inner[j] == e.0[j]);
    }
    assert(first_at(inner, 124, n));
    lemma_find_byte_at(inner, 124, n);
    assert(h.subrange(4, 4 + n) =~= e.0);
    assert(header_path(h) == e.0);
    assert(is_whole_header(h));
    let g = close(mode, f).push((e.0, Seq::<u8>::empty()));
    assert(step(mode, f, h) == Ok::<Seq<FileView>, DecodeError>(g));
    if mode == Mode::Plain {
        assert forall|i: int| 0 <= i < p.len() - 1 implies p[i] != 10 by {
            assert(p[i] == e.1[i]);
        }
    } else {
        let b = base64_of(e.1);
        assert forall|i: int| 0 <= i < p.len() - 1 implies p[i] != 10 by {
            assert(p[i] == b[i]);
            assert(is_base64_byte(b[i]));
        }
        assert(p.drop_last() =~= b);
        if b.len() > 0 {
            assert(p[0] == b[0]);
        }
    }
    lemma_parse_one_line(mode, p, g);
    assert(!is_header_line(p));
    let c = if mode == Mode::Plain { e.1.push(10) } else { e.1 };
    assert(payload_of(mode, p) == Some(c));
    assert(Seq::<u8>::empty() + c =~= c);
    assert(g.update(g.len() - 1, (g.last().0, g.last().1 + c)) =~= close(mode, f).push(open_view(mode, e)));
}

/// A frame stream is UTF-8 text where each path is and payloads are base64.
pub proof fn lemma_frame_utf8(mode: Mode, e: FileView)
    requires
        mode != Mode::Plain,
        valid_utf8(e.0),
        base64_line_ok(e.1),
    ensures
        valid_utf8(frame_spec(mode, e)),
{
    let t = tag_text(e.1);
    lemma_decimal_digits(tag_of(e.1) as nat);
    let b = base64_of(e.1);
    let tail = seq![124u8] + t + crate::frame::marker() + seq![10u8] + b.push(10);
    assert forall|i: int| 0 <= i < tail.len() implies tail[i] < 128 by {
        if 1 <= i < 1 + t.len() {
            assert(tail[i] == t[i - 1]);
        } else if 6 + t.len() <= i < tail.len() - 1 {
            assert(tail[i] == b[i - 6 - t.len()]);
            assert(is_base64_byte(b[i - 6 - t.len()]));
        }
    }
    lemma_ascii_utf8(tail);
    lemma_ascii_utf8(crate::frame::marker());
    valid_utf8_concat(e.0, tail);
    valid_utf8_concat(crate::frame::marker(), e.0 + tail);
    assert(frame_spec(mode, e) =~= crate::frame::marker() + (e.0 + tail));
}

/// No file left in an archive has a path with an excluded segment, and each
/// one left is one of the files given.
pub proof fn lemma_kept_not_excluded(es: Seq<FileView>)
    ensures
        forall|i: int| 0 <= i < kept(es).len() ==> !path_excluded(#[trigger] kept(es)[i].0),
        forall|i: int| 0 <= i < kept(es).len() ==> es.contains(#[trigger] kept(es)[i]),
    decreases es.len(),
{
    if es.len() > 0 {
        let front = es.drop_last();
        lemma_kept_not_excluded(front);
        assert forall|i: int| 0 <= i < kept(es).len() implies es.contains(#[trigger] kept(es)[i]) by {
            if i < kept(front).len() {
                let x = kept(front)[i];
                assert(front.contains(x));
                let j = choose|j: int| 0 <= j < front.len() && front[j] == x;
                assert(es[j] == x);
            } else {
                assert(es[es.len() - 1] == kept(es)[i]);
            }
        }
    }
}

} // verus!
