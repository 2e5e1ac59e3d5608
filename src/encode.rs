//! Writing an archive: one frame per file that is not excluded, then the
//! mode's outer layer.
use vstd::prelude::*;

use crate::bytes::append_all;
use crate::filter::is_excluded_path;
use crate::format::{
    all_framable, archive_spec, base64_line_ok, close, decode_spec, entries_view, frame_spec, frames_spec, framable, is_compressed, kept, lemma_frame,
    lemma_close_open, lemma_frame_utf8, lemma_parse_concat, parse_all, parse_from, payload_spec,
    DecodeError, Entry, FileView, Mode,
};
use crate::frame::create_file_sep;
use crate::layers::{base64_encode, zlib_compress};
use vstd::utf8::{valid_utf8, valid_utf8_concat};

verus! {

/// Appends the payload line of `content` to `out`.
fn push_payload(mode: Mode, content: &[u8], out: &mut Vec<u8>)
    ensures
        final(out)@ == old(out)@ + payload_spec(mode, content@),
        mode != Mode::Plain ==> base64_line_ok(content@),
{
    if mode == Mode::Plain {
        append_all(out, content);
    } else {
        let b = base64_encode(content);
        append_all(out, b.as_slice());
        proof {
            if b@.len() > 0 {
                assert(b@[0] != 61);
            }
        }
    }
    out.push(10u8);
    assert(final(out)@ =~= old(out)@ + payload_spec(mode, content@));
}

/// The frame stream for some files: the frame of each file whose path is not
/// excluded, in the order given. Where every such file can be framed, the
/// stream reads back as exactly those files.
pub fn encode_frames(mode: Mode, entries: &Vec<Entry>) -> (r: Vec<u8>)
    ensures
        r@ == frames_spec(mode, kept(entries_view(entries@))),
        all_framable(mode, kept(entries_view(entries@))) ==> parse_all(mode, r@) == Ok::<
            Seq<FileView>,
            DecodeError,
        >(kept(entries_view(entries@))),
        all_framable(mode, kept(entries_view(entries@))) && is_compressed(mode) ==> valid_utf8(r@),
{
    let ghost view = entries_view(entries@);
    let mut out: Vec<u8> = Vec::new();
    let mut i: usize = 0;
    assert(valid_utf8(out@));
    assert(kept(view.take(0)) =~= Seq::<FileView>::empty());
    assert(close(mode, Seq::<FileView>::empty()) == kept(view.take(0)));
    while i < entries.len()
        invariant
            0 <= i <= entries@.len(),
            view == entries_view(entries@),
            out@ == frames_spec(mode, kept(view.take(i as int))),
            out@.len() == 0 || out@.last() == 10,
            all_framable(mode, kept(view.take(i as int))) && is_compressed(mode) ==> valid_utf8(out@),
            all_framable(mode, kept(view.take(i as int))) ==> (parse_from(
                mode,
                out@,
                Seq::empty(),
            ) matches Ok(f) && close(mode, f) == kept(view.take(i as int))),
        decreases entries@.len() - i,
    {
        let e = &entries[i];
        let ghost before = out@;
        let ghost front = view.take(i as int);
        let ghost next = view.take(i + 1);
        assert(next.drop_last() =~= front);
        assert(next.last() == e@);
        if !is_excluded_path(e.path.as_slice()) {
            let h = create_file_sep(e.path.as_slice(), e.content.as_slice());
            append_all(&mut out, h.as_slice());
            push_payload(mode, e.content.as_slice(), &mut out);
            proof {
                let ks = kept(front);
                assert(kept(next) == ks.push(e@));
                assert(ks.push(e@).drop_last() =~= ks);
                assert(frames_spec(mode, kept(next)) == before + frame_spec(mode, e@));
                assert(out@ =~= before + frame_spec(mode, e@));
                if all_framable(mode, kept(next)) {
                    assert forall|j: int| 0 <= j < ks.len() implies framable(
                        mode,
                        #[trigger] ks[j],
                    ) by {
                        assert(kept(next)[j] == ks[j]);
                    }
                    assert(framable(mode, kept(next)[ks.len() as int]));
                    lemma_parse_concat(mode, before, frame_spec(mode, e@), Seq::empty());
                    let f = parse_from(mode, before, Seq::empty())->Ok_0;
                    lemma_frame(mode, e@, f);
                    lemma_close_open(mode, ks, e@);
                    if is_compressed(mode) {
                        lemma_frame_utf8(mode, e@);
                        valid_utf8_concat(before, frame_spec(mode, e@));
                    }
                }
            }
        } else {
            assert(kept(next) == kept(front));
        }
        i += 1;
    }
    assert(view.take(entries@.len() as int) =~= view);
    out
}

/// The archive of some files in a mode. Where every file that is not
/// excluded can be framed, decoding the archive in the same mode gives back
/// exactly those files, byte for byte, in order.
pub fn encode_archive(mode: Mode, entries: &Vec<Entry>) -> (r: Vec<u8>)
    ensures
        r@ == archive_spec(mode, entries_view(entries@)),
        all_framable(mode, kept(entries_view(entries@))) ==> decode_spec(mode, r@) == Ok::<
            Seq<FileView>,
            DecodeError,
        >(kept(entries_view(entries@))),
{
    let frames = encode_frames(mode, entries);
    match mode {
        Mode::Plain | Mode::Base64 => frames,
        Mode::CompressedBinary => zlib_compress(frames.as_slice()),
        Mode::CompressedText => base64_encode(zlib_compress(frames.as_slice()).as_slice()),
    }
}

} // verus!
