//! The segment store's own logic: a segment is text of one encrypted record
//! per line, and a record is rewritten or removed in place by its line
//! index, by splitting the whole file, editing the line and joining again.
//! The caller writes the result to a sibling file and renames it over the
//! existing file, which stays intact until the rename succeeds.
use vstd::prelude::*;

use crate::err::FmError;
use crate::path::SEGMENT_EXT;

verus! {

/// The pieces of `s` between newline characters, in order; text without a
/// newline is one piece, and a trailing newline leaves an empty last piece.
pub open spec fn split_lines(s: Seq<char>) -> Seq<Seq<char>>
    decreases s.len(),
{
    if s.len() == 0 {
        seq![Seq::<char>::empty()]
    } else {
        let prev = split_lines(s.drop_last());
        if s.last() == '\n' {
            prev.push(Seq::<char>::empty())
        } else {
            prev.update(prev.len() - 1, prev.last().push(s.last()))
        }
    }
}

/// The pieces joined with a newline between each two.
pub open spec fn join_lines(ls: Seq<Seq<char>>) -> Seq<char>
    decreases ls.len(),
{
    if ls.len() == 0 {
        Seq::<char>::empty()
    } else if ls.len() == 1 {
        ls[0]
    } else {
        join_lines(ls.drop_last()) + seq!['\n'] + ls.last()
    }
}

/// The views of a sequence of strings.
pub open spec fn texts(v: Seq<String>) -> Seq<Seq<char>> {
    v.map_values(|s: String| s@)
}

/// Whether `name` ends with the segment extension.
pub open spec fn is_segment_name(name: Seq<char>) -> bool {
    name.len() >= SEGMENT_EXT@.len() && name.subrange(
        name.len() - SEGMENT_EXT@.len(),
        name.len() as int,
    ) == SEGMENT_EXT@
}

/// The segment names among directory entries, in their order.
pub open spec fn segments_among(entries: Seq<Seq<char>>) -> Seq<Seq<char>>
    decreases entries.len(),
{
    if entries.len() == 0 {
        Seq::<Seq<char>>::empty()
    } else if is_segment_name(entries.last()) {
        segments_among(entries.drop_last()).push(entries.last())
    } else {
        segments_among(entries.drop_last())
    }
}

/// The number of the segment the next record goes to, given how many
/// segments exist and the size of the newest one.
pub open spec fn target_segment(count: nat, active_size: nat, limit: nat) -> nat {
    if count == 0 {
        0
    } else if active_size >= limit {
        count
    } else {
        (count - 1) as nat
    }
}

/// Splitting never yields an empty sequence of pieces.
pub proof fn lemma_split_nonempty(s: Seq<char>)
    ensures
        split_lines(s).len() >= 1,
    decreases s.len(),
{
    if s.len() > 0 {
        lemma_split_nonempty(s.drop_last());
    }
}

/// `s` holds no newline character.
pub open spec fn no_newline(s: Seq<char>) -> bool {
    forall|i: int| 0 <= i < s.len() ==> #[trigger] s[i] != '\n'
}

/// No piece of a split holds a newline.
pub proof fn lemma_split_pieces(s: Seq<char>)
    ensures
        forall|i: int| 0 <= i < split_lines(s).len() ==> no_newline(#[trigger] split_lines(s)[i]),
    decreases s.len(),
{
    if s.len() > 0 {
        lemma_split_pieces(s.drop_last());
        lemma_split_nonempty(s.drop_last());
        let prev = split_lines(s.drop_last());
        if s.last() != '\n' {
            let l = prev.last().push(s.last());
            assert(no_newline(prev[prev.len() - 1]));
            assert(no_newline(l));
        }
    }
}

/// Every piece of an ASCII text is ASCII.
pub proof fn lemma_split_ascii(s: Seq<char>)
    requires
        vstd::utf8::is_ascii_chars(s),
    ensures
        forall|i: int|
            0 <= i < split_lines(s).len() ==> vstd::utf8::is_ascii_chars(#[trigger] split_lines(s)[i]),
    decreases s.len(),
{
    if s.len() > 0 {
        let t = s.drop_last();
        assert(vstd::utf8::is_ascii_chars(t)) by {
            assert forall|i: int| 0 <= i < t.len() implies '\0' <= #[trigger] t[i] <= '\u{7f}' by {
                assert(t[i] == s[i]);
            }
        }
        lemma_split_ascii(t);
        lemma_split_nonempty(t);
        let prev = split_lines(t);
        if s.last() != '\n' {
            let l = prev.last().push(s.last());
            assert(vstd::utf8::is_ascii_chars(prev[prev.len() - 1]));
            assert(vstd::utf8::is_ascii_chars(l)) by {
                assert forall|i: int| 0 <= i < l.len() implies '\0' <= #[trigger] l[i] <= '\u{7f}' by {
                    if i < l.len() - 1 {
                        assert(l[i] == prev.last()[i]);
                    } else {
                        assert(l[i] == s[s.len() - 1]);
                    }
                }
            }
        }
    }
}

/// Joining ASCII pieces gives ASCII text.
pub proof fn lemma_join_ascii(ls: Seq<Seq<char>>)
    requires
        forall|i: int| 0 <= i < ls.len() ==> vstd::utf8::is_ascii_chars(#[trigger] ls[i]),
    ensures
        vstd::utf8::is_ascii_chars(join_lines(ls)),
    decreases ls.len(),
{
    if ls.len() > 1 {
        let pre = ls.drop_last();
        assert forall|i: int| 0 <= i < pre.len() implies vstd::utf8::is_ascii_chars(#[trigger] pre[i]) by {
            assert(pre[i] == ls[i]);
        }
        lemma_join_ascii(pre);
        let j = join_lines(ls);
        let a = join_lines(pre);
        let l = ls.last();
        assert(vstd::utf8::is_ascii_chars(l));
        assert forall|i: int| 0 <= i < j.len() implies '\0' <= #[trigger] j[i] <= '\u{7f}' by {
            if i < a.len() {
                assert(j[i] == a[i]);
            } else if i > a.len() {
                assert(j[i] == l[i - a.len() - 1]);
            }
        }
    } else if ls.len() == 1 {
        assert(vstd::utf8::is_ascii_chars(ls[0]));
    }
}

/// A text without newlines is a single piece.
pub proof fn lemma_split_single(s: Seq<char>)
    requires
        no_newline(s),
    ensures
        split_lines(s) == seq![s],
    decreases s.len(),
{
    if s.len() > 0 {
        let t = s.drop_last();
        lemma_split_single(t);
        assert(s.last() == s[s.len() - 1]);
        assert(t.push(s.last()) == s);
        assert(seq![t].update(0, t.push(s.last())) == seq![s]);
    } else {
        assert(s == Seq::<char>::empty());
    }
}

/// Appending text without newlines extends the last piece.
pub proof fn lemma_split_extend(t: Seq<char>, l: Seq<char>)
    requires
        no_newline(l),
    ensures
        split_lines(t + l) == split_lines(t).update(
            split_lines(t).len() - 1,
            split_lines(t).last() + l,
        ),
    decreases l.len(),
{
    lemma_split_nonempty(t);
    let st = split_lines(t);
    if l.len() == 0 {
        assert(t + l == t);
        assert(st.last() + l == st.last());
        assert(st.update(st.len() - 1, st.last()) == st);
    } else {
        let l2 = l.drop_last();
        assert(no_newline(l2)) by {
            assert forall|i: int| 0 <= i < l2.len() implies #[trigger] l2[i] != '\n' by {
                assert(l2[i] == l[i]);
            }
        }
        lemma_split_extend(t, l2);
        let s = t + l;
        assert(s.drop_last() == t + l2);
        assert(s.last() == l[l.len() - 1]);
        let prev = split_lines(t + l2);
        lemma_split_nonempty(t + l2);
        assert(split_lines(s) == prev.update(prev.len() - 1, prev.last().push(s.last())));
        assert(prev.len() == st.len());
        assert(prev.last() == st.last() + l2);
        assert((st.last() + l2).push(s.last()) =~= st.last() + l);
        assert(split_lines(s) =~= st.update(st.len() - 1, st.last() + l));
    }
}

/// Splitting joined pieces that hold no newline gives the pieces back.
pub proof fn lemma_split_join(ls: Seq<Seq<char>>)
    requires
        ls.len() >= 1,
        forall|i: int| 0 <= i < ls.len() ==> no_newline(#[trigger] ls[i]),
    ensures
        split_lines(join_lines(ls)) == ls,
    decreases ls.len(),
{
    if ls.len() == 1 {
        assert(no_newline(ls[0]));
        lemma_split_single(ls[0]);
        assert(seq![ls[0]] == ls);
    } else {
        let pre = ls.drop_last();
        assert forall|i: int| 0 <= i < pre.len() implies no_newline(#[trigger] pre[i]) by {
            assert(pre[i] == ls[i]);
        }
        lemma_split_join(pre);
        let x = join_lines(pre);
        let l = ls.last();
        assert(no_newline(l));
        let xn = x + seq!['\n'];
        assert(xn.drop_last() == x);
        assert(split_lines(xn) == pre.push(Seq::<char>::empty()));
        lemma_split_extend(xn, l);
        assert(join_lines(ls) == xn + l);
        assert(Seq::<char>::empty() + l == l);
        assert(split_lines(join_lines(ls)) =~= ls);
    }
}

/// Operations on segment text and directory listings.
pub struct FsApi;

impl FsApi {
    /// The pieces of a text between its newlines.
    pub fn split_lines(s: &str) -> (r: Vec<String>)
        ensures
            texts(r@) == split_lines(s@),
    {
        if s.is_ascii() {
            FsApi::split_ascii(s)
        } else {
            FsApi::split_chars(s)
        }
    }

    /// The pieces of a text of any characters, found char by char.
    fn split_chars(s: &str) -> (r: Vec<String>)
        ensures
            texts(r@) == split_lines(s@),
    {
        let n = s.unicode_len();
        let mut lines: Vec<String> = Vec::new();
        let mut start: usize = 0;
        let mut i: usize = 0;
        proof {
            assert(s@.take(0) =~= Seq::<char>::empty());
            assert(s@.subrange(0, 0) =~= Seq::<char>::empty());
            assert(texts(lines@) =~= Seq::<Seq<char>>::empty());
        }
        while i < n
            invariant
                n == s@.len(),
                start <= i <= n,
                texts(lines@).push(s@.subrange(start as int, i as int)) == split_lines(
                    s@.take(i as int),
                ),
            decreases n - i,
        {
            let c = s.get_char(i);
            proof {
                assert(s@.take(i as int + 1).drop_last() == s@.take(i as int));
                assert(s@.take(i as int + 1).last() == c);
            }
            if c == '\n' {
                let line = String::from_str(s.substring_char(start, i));
                let ghost old_lines = texts(lines@);
                lines.push(line);
                start = i + 1;
                proof {
                    assert(texts(lines@) =~= old_lines.push(line@));
                    assert(s@.subrange(start as int, i as int + 1) =~= Seq::<char>::empty());
                    assert(split_lines(s@.take(i as int + 1)) =~= split_lines(s@.take(i as int)).push(
                        Seq::<char>::empty(),
                    ));
                }
            } else {
                proof {
                    let prev = split_lines(s@.take(i as int));
                    assert(s@.subrange(start as int, i as int + 1) =~= s@.subrange(
                        start as int,
                        i as int,
                    ).push(c));
                    assert(split_lines(s@.take(i as int + 1)) =~= prev.update(
                        prev.len() - 1,
                        prev.last().push(c),
                    ));
                    assert(texts(lines@).push(s@.subrange(start as int, i as int + 1)) =~= prev.update(
                        prev.len() - 1,
                        prev.last().push(c),
                    ));
                }
            }
            i = i + 1;
        }
        let last = String::from_str(s.substring_char(start, n));
        lines.push(last);
        proof {
            assert(s@.take(n as int) =~= s@);
            assert(texts(lines@) =~= texts(lines@.drop_last()).push(last@));
        }
        lines
    }

    /// The pieces of an ASCII text, found byte by byte.
    fn split_ascii(s: &str) -> (r: Vec<String>)
        requires
            s.is_ascii(),
        ensures
            texts(r@) == split_lines(s@),
    {
        let n = s.unicode_len();
        let mut lines: Vec<String> = Vec::new();
        let mut start: usize = 0;
        let mut i: usize = 0;
        proof {
            assert(s@.take(0) =~= Seq::<char>::empty());
            assert(s@.subrange(0, 0) =~= Seq::<char>::empty());
            assert(texts(lines@) =~= Seq::<Seq<char>>::empty());
        }
        while i < n
            invariant
                n == s@.len(),
                s.is_ascii(),
                start <= i <= n,
                texts(lines@).push(s@.subrange(start as int, i as int)) == split_lines(
                    s@.take(i as int),
                ),
            decreases n - i,
        {
            let b = s.get_ascii(i);
            let ghost c = s@[i as int];
            proof {
                assert('\0' <= c <= '\u{7f}');
                assert(s@.take(i as int + 1).drop_last() == s@.take(i as int));
                assert(s@.take(i as int + 1).last() == c);
                assert((c as u32) <= 0x7f);
                assert((c as u8) as int == c as int);
                assert((b == 10u8) == (c == '\n'));
            }
            if b == 10u8 {
                let line = String::from_str(s.substring_ascii(start, i));
                let ghost old_lines = texts(lines@);
                lines.push(line);
                start = i + 1;
                proof {
                    assert(texts(lines@) =~= old_lines.push(line@));
                    assert(s@.subrange(start as int, i as int + 1) =~= Seq::<char>::empty());
                    assert(split_lines(s@.take(i as int + 1)) =~= split_lines(s@.take(i as int)).push(
                        Seq::<char>::empty(),
                    ));
                }
            } else {
                proof {
                    let prev = split_lines(s@.take(i as int));
                    assert(s@.subrange(start as int, i as int + 1) =~= s@.subrange(
                        start as int,
                        i as int,
                    ).push(c));
                    assert(split_lines(s@.take(i as int + 1)) =~= prev.update(
                        prev.len() - 1,
                        prev.last().push(c),
                    ));
                    assert(texts(lines@).push(s@.subrange(start as int, i as int + 1)) =~= prev.update(
                        prev.len() - 1,
                        prev.last().push(c),
                    ));
                }
            }
            i = i + 1;
        }
        let last = String::from_str(s.substring_ascii(start, n));
        lines.push(last);
        proof {
            assert(s@.take(n as int) == s@);
            assert(texts(lines@) == texts(lines@.drop_last()).push(last@));
        }
        lines
    }

    /// The pieces joined with a newline between each two.
    pub fn join_lines(lines: &Vec<String>) -> (r: String)
        ensures
            r@ == join_lines(texts(lines@)),
    {
        let mut out = String::new();
        let mut i: usize = 0;
        while i < lines.len()
            invariant
                i <= lines@.len(),
                out@ == join_lines(texts(lines@.take(i as int))),
            decreases lines@.len() - i,
        {
            proof {
                reveal_strlit("\n");
                let next = texts(lines@.take(i as int + 1));
                assert(next.drop_last() =~= texts(lines@.take(i as int)));
                assert(next.last() == lines@[i as int]@);
                if i == 0 {
                    assert(next =~= seq![lines@[0]@]);
                }
            }
            if i > 0 {
                out.append("\n");
            }
            out.append(lines[i].as_str());
            proof {
                if i == 0 {
                    assert(out@ =~= lines@[0]@);
                }
            }
            i = i + 1;
        }
        proof {
            assert(lines@.take(i as int) == lines@);
        }
        out
    }

    /// Replaces the line at `index` of `contents` with `line`; `NotFound`
    /// when the text has no such line.
    pub fn update_line(contents: &str, index: usize, line: &str) -> (r: Result<String, FmError>)
        ensures
            index < split_lines(contents@).len() ==> (r matches Ok(t) && t@ == join_lines(
                split_lines(contents@).update(index as int, line@),
            )),
            index >= split_lines(contents@).len() ==> r == Err::<String, FmError>(
                FmError::NotFound,
            ),
    {
        let mut lines = FsApi::split_lines(contents);
        if index >= lines.len() {
            return Err(FmError::NotFound);
        }
        lines.set(index, String::from_str(line));
        proof {
            assert(texts(lines@) == split_lines(contents@).update(index as int, line@));
        }
        Ok(FsApi::join_lines(&lines))
    }

    /// Removes the line at `index` of `contents`; `NotFound` when the text
    /// has no such line.
    pub fn delete_line(contents: &str, index: usize) -> (r: Result<String, FmError>)
        ensures
            index < split_lines(contents@).len() ==> (r matches Ok(t) && t@ == join_lines(
                split_lines(contents@).remove(index as int),
            )),
            index >= split_lines(contents@).len() ==> r == Err::<String, FmError>(
                FmError::NotFound,
            ),
    {
        let mut lines = FsApi::split_lines(contents);
        if index >= lines.len() {
            return Err(FmError::NotFound);
        }
        lines.remove(index);
        proof {
            assert(texts(lines@) == split_lines(contents@).remove(index as int));
        }
        Ok(FsApi::join_lines(&lines))
    }

    /// Whether `name` ends with the segment extension.
    pub fn is_segment_name(name: &str) -> (r: bool)
        ensures
            r == is_segment_name(name@),
    {
        let n = name.unicode_len();
        let ext = SEGMENT_EXT;
        let m = ext.unicode_len();
        if n < m {
            return false;
        }
        let mut j: usize = 0;
        while j < m
            invariant
                n == name@.len(),
                m == ext@.len(),
                ext@ == SEGMENT_EXT@,
                m <= n,
                j <= m,
                forall|k: int| 0 <= k < j ==> name@[n - m + k] == ext@[k],
            decreases m - j,
        {
            if name.get_char(n - m + j) != ext.get_char(j) {
                proof {
                    assert(name@.subrange(n - m, n as int)[j as int] != ext@[j as int]);
                }
                return false;
            }
            j = j + 1;
        }
        proof {
            assert(name@.subrange(n - m, n as int) == ext@);
        }
        true
    }

    /// The segment names among the entries of a table directory.
    pub fn segment_names(entries: &Vec<String>) -> (r: Vec<String>)
        ensures
            texts(r@) == segments_among(texts(entries@)),
    {
        let mut out: Vec<String> = Vec::new();
        let mut i: usize = 0;
        while i < entries.len()
            invariant
                i <= entries@.len(),
                texts(out@) == segments_among(texts(entries@.take(i as int))),
            decreases entries@.len() - i,
        {
            proof {
                assert(texts(entries@.take(i as int + 1)).drop_last() == texts(
                    entries@.take(i as int),
                ));
            }
            if FsApi::is_segment_name(entries[i].as_str()) {
                out.push(entries[i].clone());
                proof {
                    assert(texts(out@) == texts(out@.drop_last()).push(entries@[i as int]@));
                }
            }
            i = i + 1;
        }
        proof {
            assert(entries@.take(i as int) == entries@);
        }
        out
    }

    /// The number of the segment the next record goes to: the first one when
    /// there is none, a new one when the newest has reached `limit` bytes,
    /// else the newest.
    pub fn target_segment(count: usize, active_size: u64, limit: u64) -> (r: usize)
        ensures
            r == target_segment(count as nat, active_size as nat, limit as nat),
    {
        if count == 0 {
            0
        } else if active_size >= limit {
            count
        } else {
            count - 1
        }
    }
}

} // verus!
