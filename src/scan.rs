//! The read path: every non-empty line of every segment is decrypted and
//! tagged with where it was read from. One line that does not decrypt fails
//! the whole read; there are no partial results.
use vstd::prelude::*;
use vstd::utf8::is_ascii_chars;

use crate::codec::{cipher_of, decoded, is_base64_char, sealed, DiskEnc};
use crate::err::FmError;
use crate::lines::{lemma_split_extend, no_newline, split_lines, texts, FsApi};

verus! {

/// The plaintext of one stored record and its provenance: the segment path
/// and the zero-based line index.
pub struct RecordLine {
    pub text: String,
    pub path: String,
    pub index: usize,
}

/// A decoded record as (plaintext, segment path, line index).
pub type LineView = (Seq<char>, Seq<char>, int);

/// The views of decoded records.
pub open spec fn line_views(v: Seq<RecordLine>) -> Seq<LineView> {
    v.map_values(|l: RecordLine| (l.text@, l.path@, l.index as int))
}

/// The records held by the pieces `lines` of the segment at `path`: each
/// non-empty piece decrypted, with its index; `None` as soon as one does not
/// decrypt.
pub open spec fn decode_lines(key: Seq<char>, path: Seq<char>, lines: Seq<Seq<char>>) -> Option<
    Seq<LineView>,
>
    decreases lines.len(),
{
    if lines.len() == 0 {
        Some(Seq::<LineView>::empty())
    } else {
        match decode_lines(key, path, lines.drop_last()) {
            None => None,
            Some(prev) => if lines.last().len() == 0 {
                Some(prev)
            } else {
                match decoded(key, lines.last()) {
                    None => None,
                    Some(p) => Some(prev.push((p, path, lines.len() - 1))),
                }
            },
        }
    }
}

/// The records of one segment; a segment that is not ASCII holds something
/// other than base64 lines and does not decode.
pub open spec fn decode_segment(key: Seq<char>, path: Seq<char>, contents: Seq<char>) -> Option<
    Seq<LineView>,
> {
    if is_ascii_chars(contents) {
        decode_lines(key, path, split_lines(contents))
    } else {
        None
    }
}

/// The records of all segments, segment after segment.
pub open spec fn decode_segments(key: Seq<char>, files: Seq<(Seq<char>, Seq<char>)>) -> Option<
    Seq<LineView>,
>
    decreases files.len(),
{
    if files.len() == 0 {
        Some(Seq::<LineView>::empty())
    } else {
        match decode_segments(key, files.drop_last()) {
            None => None,
            Some(prev) => match decode_segment(key, files.last().0, files.last().1) {
                None => None,
                Some(s) => Some(prev + s),
            },
        }
    }
}

/// The views of (path, contents) pairs.
pub open spec fn file_views(v: Seq<(String, String)>) -> Seq<(Seq<char>, Seq<char>)> {
    v.map_values(|f: (String, String)| (f.0@, f.1@))
}

/// Once a prefix of the pieces fails to decode, every longer prefix fails.
pub proof fn lemma_decode_fails_on(key: Seq<char>, path: Seq<char>, lines: Seq<Seq<char>>, i: int)
    requires
        0 <= i <= lines.len(),
        decode_lines(key, path, lines.take(i)) is None,
    ensures
        decode_lines(key, path, lines) is None,
    decreases lines.len() - i,
{
    if i < lines.len() {
        assert(lines.take(i + 1).drop_last() == lines.take(i));
        lemma_decode_fails_on(key, path, lines, i + 1);
    } else {
        assert(lines.take(i) == lines);
    }
}

/// Once a prefix of the segments fails to decode, every longer prefix fails.
pub proof fn lemma_segments_fail_on(key: Seq<char>, files: Seq<(Seq<char>, Seq<char>)>, i: int)
    requires
        0 <= i <= files.len(),
        decode_segments(key, files.take(i)) is None,
    ensures
        decode_segments(key, files) is None,
    decreases files.len() - i,
{
    if i < files.len() {
        assert(files.take(i + 1).drop_last() == files.take(i));
        lemma_segments_fail_on(key, files, i + 1);
    } else {
        assert(files.take(i) == files);
    }
}

/// The plaintexts of decoded records, in order.
pub open spec fn plaintexts(s: Seq<LineView>) -> Seq<Seq<char>> {
    s.map_values(|v: LineView| v.0)
}

/// Replacing one record's line by the ciphertext of `p` replaces that one
/// record by `p` and leaves the others and the count as they were; the
/// result is the position of the replaced record.
pub proof fn lemma_decode_update(
    key: Seq<char>,
    path: Seq<char>,
    ls: Seq<Seq<char>>,
    i: int,
    c: Seq<char>,
    p: Seq<char>,
) -> (k: int)
    requires
        decode_lines(key, path, ls) is Some,
        0 <= i < ls.len(),
        ls[i].len() > 0,
        c.len() > 0,
        decoded(key, c) == Some(p),
    ensures
        0 <= k < decode_lines(key, path, ls)->0.len(),
        decode_lines(key, path, ls.update(i, c)) == Some(
            decode_lines(key, path, ls)->0.update(k, (p, path, i)),
        ),
    decreases ls.len(),
{
    let ls2 = ls.update(i, c);
    let pre = ls.drop_last();
    if i == ls.len() - 1 {
        assert(ls2.drop_last() == pre);
        let prev = decode_lines(key, path, pre)->0;
        assert(decode_lines(key, path, ls)->0 == prev.push(
            (decoded(key, ls.last())->0, path, ls.len() - 1),
        ));
        assert(prev.push((p, path, i)) =~= decode_lines(key, path, ls)->0.update(
            prev.len() as int,
            (p, path, i),
        ));
        prev.len() as int
    } else {
        assert(ls2.drop_last() == pre.update(i, c));
        assert(ls2.last() == ls.last());
        assert(decode_lines(key, path, pre) is Some);
        let k = lemma_decode_update(key, path, pre, i, c, p);
        let prev = decode_lines(key, path, pre)->0;
        if ls.last().len() > 0 {
            let x = (decoded(key, ls.last())->0, path, ls.len() - 1);
            assert(prev.update(k, (p, path, i)).push(x) =~= prev.push(x).update(k, (p, path, i)));
        }
        k
    }
}

/// Removing one record's line leaves one fewer record, the others in the
/// order they had; the result is the position of the removed record.
pub proof fn lemma_decode_remove(key: Seq<char>, path: Seq<char>, ls: Seq<Seq<char>>, i: int) -> (k:
    int)
    requires
        decode_lines(key, path, ls) is Some,
        0 <= i < ls.len(),
        ls[i].len() > 0,
    ensures
        0 <= k < decode_lines(key, path, ls)->0.len(),
        decode_lines(key, path, ls.remove(i)) is Some,
        plaintexts(decode_lines(key, path, ls.remove(i))->0) == plaintexts(
            decode_lines(key, path, ls)->0,
        ).remove(k),
    decreases ls.len(),
{
    let ls2 = ls.remove(i);
    let pre = ls.drop_last();
    let prev = decode_lines(key, path, pre)->0;
    if i == ls.len() - 1 {
        assert(ls2 == pre);
        let x = (decoded(key, ls.last())->0, path, ls.len() - 1);
        assert(decode_lines(key, path, ls)->0 == prev.push(x));
        assert(plaintexts(prev) =~= plaintexts(prev.push(x)).remove(prev.len() as int));
        prev.len() as int
    } else {
        assert(ls2.drop_last() == pre.remove(i));
        assert(ls2.last() == ls.last());
        let k = lemma_decode_remove(key, path, pre, i);
        let mid = decode_lines(key, path, pre.remove(i))->0;
        if ls.last().len() > 0 {
            let q = decoded(key, ls.last())->0;
            let a = plaintexts(prev);
            assert(plaintexts(mid.push((q, path, ls2.len() - 1))) =~= plaintexts(mid).push(q));
            assert(plaintexts(prev.push((q, path, ls.len() - 1))) =~= a.push(q));
            assert(a.push(q).remove(k) =~= a.remove(k).push(q));
            assert(plaintexts(mid.push((q, path, ls2.len() - 1))) =~= plaintexts(
                prev.push((q, path, ls.len() - 1)),
            ).remove(k));
        }
        k
    }
}

/// A segment made by appending the lines `cs[0]`, `cs[1]`, ..., each
/// followed by a newline.
pub open spec fn log_of(cs: Seq<Seq<char>>) -> Seq<char>
    decreases cs.len(),
{
    if cs.len() == 0 {
        Seq::<char>::empty()
    } else {
        log_of(cs.drop_last()) + cs.last() + seq!['\n']
    }
}

proof fn lemma_split_log(cs: Seq<Seq<char>>)
    requires
        forall|i: int| 0 <= i < cs.len() ==> no_newline(#[trigger] cs[i]),
    ensures
        split_lines(log_of(cs)) == cs.push(Seq::<char>::empty()),
    decreases cs.len(),
{
    if cs.len() == 0 {
        assert(split_lines(Seq::<char>::empty()) =~= cs.push(Seq::<char>::empty()));
    } else {
        let pre = cs.drop_last();
        assert forall|i: int| 0 <= i < pre.len() implies no_newline(#[trigger] pre[i]) by {
            assert(pre[i] == cs[i]);
        }
        lemma_split_log(pre);
        let x = log_of(pre) + cs.last();
        assert(no_newline(cs.last()));
        lemma_split_extend(log_of(pre), cs.last());
        assert(Seq::<char>::empty() + cs.last() == cs.last());
        assert(split_lines(x) =~= cs);
        let y = x + seq!['\n'];
        assert(y.drop_last() == x);
        assert(log_of(cs) == y);
    }
}

proof fn lemma_decode_sealed(key: Seq<char>, path: Seq<char>, cs: Seq<Seq<char>>)
    requires
        forall|i: int| 0 <= i < cs.len() ==> sealed(key, #[trigger] cs[i]),
    ensures
        decode_lines(key, path, cs) matches Some(s) && s.len() == cs.len() && forall|i: int|
            0 <= i < cs.len() ==> (#[trigger] s[i]).1 == path && s[i].2 == i && cipher_of(
                key,
                s[i].0,
            ) == cs[i] && Some(s[i].0) == decoded(key, cs[i]),
    decreases cs.len(),
{
    if cs.len() > 0 {
        let pre = cs.drop_last();
        assert forall|i: int| 0 <= i < pre.len() implies sealed(key, #[trigger] pre[i]) by {
            assert(pre[i] == cs[i]);
        }
        lemma_decode_sealed(key, path, pre);
        let c = cs.last();
        assert(sealed(key, c));
        let p = choose|p: Seq<char>| cipher_of(key, p) == c;
        assert(cipher_of(key, p) == c);
    }
}

/// Completeness of the read path: a segment made of `n` appended lines,
/// each a ciphertext as the codec writes it, reads back as exactly `n`
/// records, one per line, each with its own line index and each what its
/// line decrypts to.
pub proof fn lemma_segment_complete(key: Seq<char>, path: Seq<char>, cs: Seq<Seq<char>>)
    requires
        forall|i: int| 0 <= i < cs.len() ==> sealed(key, #[trigger] cs[i]),
    ensures
        decode_segment(key, path, log_of(cs)) matches Some(s) && s.len() == cs.len() && forall|
            i: int,
        |
            0 <= i < cs.len() ==> (#[trigger] s[i]).1 == path && s[i].2 == i && cipher_of(
                key,
                s[i].0,
            ) == cs[i] && Some(s[i].0) == decoded(key, cs[i]),
{
    assert forall|i: int| 0 <= i < cs.len() implies no_newline(#[trigger] cs[i]) by {
        assert(sealed(key, cs[i]));
        assert forall|j: int| 0 <= j < cs[i].len() implies #[trigger] cs[i][j] != '\n' by {
            assert(is_base64_char(cs[i][j]));
        }
    }
    lemma_split_log(cs);
    let pieces = cs.push(Seq::<char>::empty());
    assert(pieces.drop_last() == cs);
    lemma_decode_sealed(key, path, cs);
    lemma_log_ascii(key, cs);
}

/// Completeness of the read path over a run of record writes: where each
/// line is, as `Disk::write_record` gives it, a ciphertext the codec wrote
/// of the record text `rs[i]`, the segment made by appending those lines
/// reads back as exactly the records `rs`, in order, record `i` on line `i`
/// of that segment.
pub proof fn lemma_written_records_read_back(
    key: Seq<char>,
    path: Seq<char>,
    rs: Seq<Seq<char>>,
    cs: Seq<Seq<char>>,
)
    requires
        cs.len() == rs.len(),
        forall|i: int|
            0 <= i < cs.len() ==> sealed(key, #[trigger] cs[i]) && decoded(key, cs[i]) == Some(
                rs[i],
            ),
    ensures
        decode_segment(key, path, log_of(cs)) == Some(
            Seq::new(cs.len(), |i: int| (rs[i], path, i)),
        ),
{
    assert forall|i: int| 0 <= i < cs.len() implies sealed(key, #[trigger] cs[i]) by {}
    lemma_segment_complete(key, path, cs);
    let s = decode_segment(key, path, log_of(cs))->0;
    assert(s =~= Seq::new(cs.len(), |i: int| (rs[i], path, i))) by {
        assert forall|i: int| 0 <= i < cs.len() implies #[trigger] s[i] == (rs[i], path, i) by {
            assert(decoded(key, cs[i]) == Some(rs[i]));
        }
    }
}

proof fn lemma_log_ascii(key: Seq<char>, cs: Seq<Seq<char>>)
    requires
        forall|i: int| 0 <= i < cs.len() ==> sealed(key, #[trigger] cs[i]),
    ensures
        is_ascii_chars(log_of(cs)),
    decreases cs.len(),
{
    if cs.len() > 0 {
        let pre = cs.drop_last();
        assert forall|i: int| 0 <= i < pre.len() implies sealed(key, #[trigger] pre[i]) by {
            assert(pre[i] == cs[i]);
        }
        lemma_log_ascii(key, pre);
        let a = log_of(pre);
        let c = cs.last();
        assert(sealed(key, c));
        let all = log_of(cs);
        assert forall|j: int| 0 <= j < all.len() implies '\0' <= #[trigger] all[j] <= '\u{7f}' by {
            if j < a.len() {
                assert(all[j] == a[j]);
            } else if j < a.len() + c.len() {
                assert(all[j] == c[j - a.len()]);
                assert(is_base64_char(c[j - a.len()]));
            }
        }
    }
}

/// The records of the segment at `path` holding `contents`;
/// `DecryptionError` when any non-empty line does not decrypt.
pub fn read_segment(enc: &DiskEnc, path: &str, contents: &str) -> (r: Result<
    Vec<RecordLine>,
    FmError,
>)
    ensures
        match decode_segment(enc@, path@, contents@) {
            Some(s) => r matches Ok(v) && line_views(v@) == s,
            None => r == Err::<Vec<RecordLine>, FmError>(FmError::DecryptionError),
        },
{
    if !contents.is_ascii() {
        return Err(FmError::DecryptionError);
    }
    let lines = FsApi::split_lines(contents);
    let ghost pieces = split_lines(contents@);
    let mut out: Vec<RecordLine> = Vec::new();
    let mut i: usize = 0;
    proof {
        assert(texts(lines@).take(0) =~= Seq::<Seq<char>>::empty());
        assert(line_views(out@) =~= Seq::<LineView>::empty());
    }
    while i < lines.len()
        invariant
            i <= lines@.len(),
            is_ascii_chars(contents@),
            pieces == split_lines(contents@),
            texts(lines@) == pieces,
            decode_lines(enc@, path@, pieces.take(i as int)) == Some(line_views(out@)),
        decreases lines@.len() - i,
    {
        proof {
            assert(pieces.take(i as int + 1).drop_last() =~= pieces.take(i as int));
            assert(pieces[i as int] == lines@[i as int]@);
        }
        if lines[i].unicode_len() > 0 {
            match enc.decrypt(lines[i].as_str()) {
                Ok(text) => {
                    let ghost prev = line_views(out@);
                    out.push(RecordLine { text, path: String::from_str(path), index: i });
                    proof {
                        assert(line_views(out@) =~= prev.push((text@, path@, i as int)));
                    }
                },
                Err(e) => {
                    proof {
                        lemma_decode_fails_on(enc@, path@, pieces, i as int + 1);
                    }
                    return Err(e);
                },
            }
        }
        i = i + 1;
    }
    proof {
        assert(pieces.take(i as int) =~= pieces);
    }
    Ok(out)
}

/// The records of every segment, given as (path, contents) pairs, segment
/// after segment; `DecryptionError` when any non-empty line of any of them
/// does not decrypt.
pub fn read_segments(enc: &DiskEnc, files: &Vec<(String, String)>) -> (r: Result<
    Vec<RecordLine>,
    FmError,
>)
    ensures
        match decode_segments(enc@, file_views(files@)) {
            Some(s) => r matches Ok(v) && line_views(v@) == s,
            None => r == Err::<Vec<RecordLine>, FmError>(FmError::DecryptionError),
        },
{
    let mut out: Vec<RecordLine> = Vec::new();
    let ghost fv = file_views(files@);
    let mut i: usize = 0;
    proof {
        assert(fv.take(0) =~= Seq::<(Seq<char>, Seq<char>)>::empty());
        assert(line_views(out@) =~= Seq::<LineView>::empty());
    }
    while i < files.len()
        invariant
            i <= files@.len(),
            fv == file_views(files@),
            decode_segments(enc@, fv.take(i as int)) == Some(line_views(out@)),
        decreases files@.len() - i,
    {
        proof {
            assert(fv.take(i as int + 1).drop_last() =~= fv.take(i as int));
            assert(fv[i as int] == (files@[i as int].0@, files@[i as int].1@));
        }
        match read_segment(enc, files[i].0.as_str(), files[i].1.as_str()) {
            Ok(mut found) => {
                let ghost prev = line_views(out@);
                let ghost more = line_views(found@);
                out.append(&mut found);
                proof {
                    assert(line_views(out@) =~= prev + more);
                }
            },
            Err(e) => {
                proof {
                    lemma_segments_fail_on(enc@, fv, i as int + 1);
                }
                return Err(e);
            },
        }
        i = i + 1;
    }
    proof {
        assert(fv.take(i as int) =~= fv);
    }
    Ok(out)
}

} // verus!
