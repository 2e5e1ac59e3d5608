//! Reading an archive: undo the mode's outer layer, then read the frame
//! stream line by line.
use vstd::prelude::*;
use vstd::slice::slice_subrange;

use crate::bytes::{append_all, append_range, first_at, lemma_find_byte_at};
use crate::format::{
    close, closed_bytes, decode_spec, entries_view, line_end, parse_all, parse_from, payload_of,
    DecodeError, Entry, FileView, Mode,
};
use crate::frame::{header_path, is_header_line};
use crate::layers::{base64_decode, is_utf8, zlib_decompress};

verus! {

/// The files read so far: those finished, then the open one, if any.
pub open spec fn files_so_far(done: Seq<Entry>, open: bool, path: Seq<u8>, content: Seq<u8>) -> Seq<
    FileView,
> {
    if open {
        entries_view(done).push((path, content))
    } else {
        entries_view(done)
    }
}

/// Whether `t[s..e]` starts with `====` and ends with `====\n`.
fn header_line_at(t: &[u8], s: usize, e: usize) -> (r: bool)
    requires
        s <= e <= t@.len(),
    ensures
        r == is_header_line(t@.subrange(s as int, e as int)),
{
    e - s >= 5 && t[s] == 61 && t[s + 1] == 61 && t[s + 2] == 61 && t[s + 3] == 61 && t[e - 5]
        == 61 && t[e - 4] == 61 && t[e - 3] == 61 && t[e - 2] == 61 && t[e - 1] == 10
}

/// Closes the open file's bytes: in plain mode, drops the newline that ends
/// its last payload line.
fn close_content(mode: Mode, content: &mut Vec<u8>)
    ensures
        final(content)@ == closed_bytes(mode, old(content)@),
{
    if mode == Mode::Plain && content.len() > 0 && content[content.len() - 1] == 10 {
        let _ = content.pop();
    }
}

/// Reads a frame stream: each header line closes the open file and opens a
/// new one, and each other line adds its payload to the open file; lines
/// before the first header are passed over. In plain mode a file's bytes are
/// its payload lines without the newline that ends the last one.
pub fn parse_frames(mode: Mode, text: &[u8]) -> (r: Result<Vec<Entry>, DecodeError>)
    ensures
        match r {
            Ok(v) => parse_all(mode, text@) == Ok::<Seq<FileView>, DecodeError>(entries_view(v@)),
            Err(e) => parse_all(mode, text@) == Err::<Seq<FileView>, DecodeError>(e),
        },
{
    let len = text.len();
    let mut done: Vec<Entry> = Vec::new();
    let mut path: Vec<u8> = Vec::new();
    let mut content: Vec<u8> = Vec::new();
    let mut open = false;
    let mut pos: usize = 0;
    assert(text@.subrange(0, len as int) =~= text@);
    assert(entries_view(done@) =~= Seq::<FileView>::empty());
    while pos < len
        invariant
            len == text@.len(),
            pos <= len,
            !open ==> done@.len() == 0,
            parse_from(mode, text@, Seq::empty()) == parse_from(
                mode,
                text@.subrange(pos as int, len as int),
                files_so_far(done@, open, path@, content@),
            ),
        decreases len - pos,
    {
        let ghost t = text@.subrange(pos as int, len as int);
        let ghost files = files_so_far(done@, open, path@, content@);
        let mut j = pos;
        while j < len && text[j] != 10
            invariant
                len == text@.len(),
                pos <= j <= len,
                forall|k: int| pos <= k < j ==> text@[k] != 10,
            decreases len - j,
        {
            j += 1;
        }
        let k = if j < len {
            j + 1
        } else {
            len
        };
        proof {
            assert(first_at(t, 10, j - pos));
            lemma_find_byte_at(t, 10, j - pos);
            assert(line_end(t) == k - pos);
            assert(t.subrange(0, k - pos) =~= text@.subrange(pos as int, k as int));
            assert(t.subrange(k - pos, t.len() as int) =~= text@.subrange(k as int, len as int));
        }
        let ghost line = text@.subrange(pos as int, k as int);
        if header_line_at(text, pos, k) {
            if k - pos < 9 {
                return Err(DecodeError::MalformedHeader);
            }
            let mut b = pos + 4;
            while b < k - 5 && text[b] != 124
                invariant
                    len == text@.len(),
                    pos + 4 <= b <= k - 5,
                    k <= len,
                    forall|m: int| pos + 4 <= m < b ==> text@[m] != 124,
                decreases k - b,
            {
                b += 1;
            }
            proof {
                let inner = line.subrange(4, line.len() - 5);
                assert(first_at(inner, 124, b - pos - 4));
                lemma_find_byte_at(inner, 124, b - pos - 4);
            }
            let mut p: Vec<u8> = Vec::new();
            append_range(&mut p, text, pos + 4, b);
            assert(p@ =~= header_path(line));
            if open {
                close_content(mode, &mut content);
                done.push(Entry { path, content });
            }
            path = p;
            content = Vec::new();
            open = true;
            assert(files_so_far(done@, open, path@, content@) =~= close(mode, files).push(
                (header_path(line), Seq::empty()),
            ));
        } else if open {
            let ghost before = content@;
            if mode == Mode::Plain {
                append_range(&mut content, text, pos, k);
            } else {
                match base64_decode(slice_subrange(text, pos, k - 1)) {
                    Some(d) => {
                        append_all(&mut content, d.as_slice());
                    },
                    None => {
                        assert(text@.subrange(pos as int, k - 1) =~= line.drop_last());
                        return Err(DecodeError::BadPayload);
                    },
                }
            }
            proof {
                assert(text@.subrange(pos as int, k - 1) =~= line.drop_last());
                let c = payload_of(mode, line)->Some_0;
                assert(content@ == before + c);
                assert(files_so_far(done@, open, path@, content@) =~= files.update(
                    files.len() - 1,
                    (files.last().0, files.last().1 + c),
                ));
            }
        }
        pos = k;
    }
    let ghost files = files_so_far(done@, open, path@, content@);
    assert(text@.subrange(pos as int, len as int).len() == 0);
    assert(parse_from(mode, text@, Seq::empty()) == Ok::<Seq<FileView>, DecodeError>(files));
    if open {
        close_content(mode, &mut content);
        done.push(Entry { path, content });
    }
    assert(entries_view(done@) =~= close(mode, files));
    Ok(done)
}

/// Reads a decompressed stream, which must be UTF-8 text.
fn parse_text(mode: Mode, t: &[u8]) -> (r: Result<Vec<Entry>, DecodeError>)
    ensures
        match r {
            Ok(v) => crate::format::parse_text(mode, t@) == Ok::<Seq<FileView>, DecodeError>(
                entries_view(v@),
            ),
            Err(e) => crate::format::parse_text(mode, t@) == Err::<Seq<FileView>, DecodeError>(e),
        },
{
    if is_utf8(t) {
        parse_frames(mode, t)
    } else {
        Err(DecodeError::NotText)
    }
}

/// Reads an archive written in `mode`: the outer layer is undone first, and
/// an archive whose outer layer does not undo is refused.
pub fn decode_archive(mode: Mode, archive: &[u8]) -> (r: Result<Vec<Entry>, DecodeError>)
    ensures
        match r {
            Ok(v) => decode_spec(mode, archive@) == Ok::<Seq<FileView>, DecodeError>(
                entries_view(v@),
            ),
            Err(e) => decode_spec(mode, archive@) == Err::<Seq<FileView>, DecodeError>(e),
        },
{
    match mode {
        Mode::Plain | Mode::Base64 => parse_frames(mode, archive),
        Mode::CompressedBinary => match zlib_decompress(archive) {
            Some(t) => parse_text(mode, t.as_slice()),
            None => Err(DecodeError::BadCompressedStream),
        },
        Mode::CompressedText => match base64_decode(archive) {
            Some(z) => match zlib_decompress(z.as_slice()) {
                Some(t) => parse_text(mode, t.as_slice()),
                None => Err(DecodeError::BadCompressedStream),
            },
            None => Err(DecodeError::BadTextLayer),
        },
    }
}

} // verus!
