//! Where the bytes of a torrent lie on disk: the table of files with their
//! offsets in the content, and the cuts of a byte range along file borders.

use vstd::prelude::*;
use vstd::string::StringSliceAdditionalSpecFns;
use crate::data::{File, Mode, ModeModel, files_length, files_view, texts_view};
use crate::piece_manager::overwrite;

verus! {

/// One file of the content: its path below the download directory, its
/// length, and the offset of its first byte in the content.
#[derive(Clone, Debug, PartialEq, Eq)]
pub struct Entry {
    pub path: Vec<String>,
    pub length: u64,
    pub offset: u64,
}

/// The files of a torrent in content order.
#[derive(Clone, Debug, PartialEq, Eq)]
pub struct Layout {
    pub entries: Vec<Entry>,
}

/// A stretch of a byte range that lies in one file: `len` bytes that start
/// `begin` bytes into the range and go to `offset` in file number `file`.
#[derive(Clone, Copy, Debug, PartialEq, Eq, Structural)]
pub struct Span {
    pub file: usize,
    pub offset: u64,
    pub begin: usize,
    pub len: usize,
}

impl Layout {
    /// Each file starts where the one before it ends, the first at zero, and
    /// the content fits in 64 bits.
    pub open spec fn wf(&self) -> bool {
        &&& forall|i: int|
            0 <= i < self.entries@.len() ==> (#[trigger] self.entries@[i]).offset
                + self.entries@[i].length <= u64::MAX
        &&& self.entries@.len() > 0 ==> self.entries@[0].offset == 0
        &&& forall|i: int|
            0 <= i < self.entries@.len() - 1 ==> (#[trigger] self.entries@[i + 1]).offset
                == self.entries@[i].offset + self.entries@[i].length
    }

    /// The length of the content.
    pub open spec fn total(&self) -> int {
        if self.entries@.len() == 0 {
            0
        } else {
            self.entries@.last().offset + self.entries@.last().length
        }
    }

    /// Whether byte `g` of the content lies in file `i`.
    pub open spec fn holds(&self, i: int, g: int) -> bool {
        0 <= i < self.entries@.len() && self.entries@[i].offset <= g < self.entries@[i].offset
            + self.entries@[i].length
    }

    /// Whether the table is that of `mode`: one entry for a single file,
    /// under its name; for a directory one entry for each file, in their
    /// order, each under the directory's name and its own path.
    pub open spec fn lays_out(&self, mode: ModeModel) -> bool {
        match mode {
            ModeModel::Single { name, length, .. } => self.entries@.len() == 1 && texts_view(
                self.entries@[0].path@,
            ) == seq![name] && self.entries@[0].length == length,
            ModeModel::Multi { dir_name, files, .. } => self.entries@.len() == files.len()
                && forall|i: int|
                0 <= i < files.len() ==> texts_view((#[trigger] self.entries@[i]).path@) == seq![
                    dir_name,
                ] + files[i].path && self.entries@[i].length == files[i].length,
        }
    }

    /// The table for a single file, or for the files of a directory. `None`
    /// where the lengths do not sum up within 64 bits.
    pub fn new(mode: &Mode) -> (r: Option<Layout>)
        ensures
            r is Some <==> mode@.total_length() <= u64::MAX,
            r matches Some(l) ==> l.wf() && l.total() == mode@.total_length() && l.lays_out(
                mode@,
            ),
    {
        match mode {
            Mode::Single { name, length, .. } => {
                let mut path: Vec<String> = Vec::new();
                path.push(name.clone());
                assert(texts_view(path@) =~= seq![name@]);
                let mut entries: Vec<Entry> = Vec::new();
                entries.push(Entry { path, length: *length, offset: 0 });
                Some(Layout { entries })
            },
            Mode::Multi { dir_name, files, .. } => {
                let ghost model = files_view(files@);
                let mut entries: Vec<Entry> = Vec::new();
                let mut offset: u64 = 0;
                let mut i: usize = 0;
                while i < files.len()
                    invariant
                        i <= files@.len(),
                        model == files_view(files@),
                        mode@.total_length() == files_length(model, model.len() as int),
                        entries@.len() == i,
                        offset == files_length(model, i as int),
                        (Layout { entries }).wf(),
                        (Layout { entries }).total() == offset,
                        forall|j: int|
                            0 <= j < i ==> texts_view((#[trigger] entries@[j]).path@) == seq![
                                dir_name@,
                            ] + model[j].path && entries@[j].length == model[j].length,
                    decreases files@.len() - i,
                {
                    let file: &File = &files[i];
                    let length: u64 = file.length;
                    assert(model[i as int].length == length);
                    if length > u64::MAX - offset {
                        proof {
                            assert(files_length(model, i + 1) == offset + length);
                            crate::data::lemma_files_length_grows(
                                model,
                                i + 1,
                                model.len() as int,
                            );
                        }
                        return None;
                    }
                    let mut path: Vec<String> = Vec::new();
                    path.push(dir_name.clone());
                    let mut k: usize = 0;
                    while k < file.path.len()
                        invariant
                            k <= file.path@.len(),
                            texts_view(path@) == seq![dir_name@] + texts_view(file.path@).take(
                                k as int,
                            ),
                        decreases file.path@.len() - k,
                    {
                        let segment = file.path[k].clone();
                        proof {
                            let all = texts_view(file.path@);
                            assert(texts_view(path@.push(segment)) =~= texts_view(path@).push(
                                segment@,
                            ));
                            assert(all.take(k + 1) =~= all.take(k as int).push(all[k as int]));
                            assert(texts_view(path@.push(segment)) =~= seq![dir_name@]
                                + all.take(k + 1));
                        }
                        path.push(segment);
                        k += 1;
                    }
                    proof {
                        assert(texts_view(file.path@).take(file.path@.len() as int)
                            =~= texts_view(file.path@));
                        assert(model[i as int].path == texts_view(file.path@));
                    }
                    let ghost before = entries@;
                    entries.push(Entry { path, length, offset });
                    proof {
                        assert forall|j: int| 0 <= j < entries@.len() - 1 implies (
                        #[trigger] entries@[j + 1]).offset == entries@[j].offset
                            + entries@[j].length by {
                            if j + 1 < i {
                                assert(entries@[j + 1] == before[j + 1]);
                                assert(entries@[j] == before[j]);
                            } else {
                                assert(entries@[j] == before.last());
                            }
                        }
                    }
                    offset = offset + length;
                    i += 1;
                }
                Some(Layout { entries })
            },
        }
    }

    /// The length of the content.
    pub fn length(&self) -> (r: u64)
        requires
            self.wf(),
        ensures
            r == self.total(),
    {
        let n: usize = self.entries.len();
        if n == 0 {
            0
        } else {
            self.entries[n - 1].offset + self.entries[n - 1].length
        }
    }

    /// Offsets never go down along the table.
    pub proof fn lemma_offsets_ascend(&self, i: int, j: int)
        requires
            self.wf(),
            0 <= i <= j < self.entries@.len(),
        ensures
            self.entries@[i].offset + self.entries@[i].length <= self.entries@[j].offset
                + self.entries@[j].length,
            self.entries@[i].offset <= self.entries@[j].offset,
            i < j ==> self.entries@[i].offset + self.entries@[i].length
                <= self.entries@[j].offset,
        decreases j - i,
    {
        if i < j {
            self.lemma_offsets_ascend(i + 1, j);
            assert(self.entries@[i + 1].offset == self.entries@[i].offset
                + self.entries@[i].length);
        }
    }

    /// At most one file holds a byte.
    pub proof fn lemma_holder_unique(&self, i: int, j: int, g: int)
        requires
            self.wf(),
            self.holds(i, g),
            self.holds(j, g),
        ensures
            i == j,
    {
        if i < j {
            self.lemma_offsets_ascend(i, j);
        } else if j < i {
            self.lemma_offsets_ascend(j, i);
        }
    }

    /// The file that holds byte `offset` of the content, found by binary
    /// search; `None` where the content ends before it.
    pub fn locate(&self, offset: u64) -> (r: Option<usize>)
        requires
            self.wf(),
        ensures
            r is Some <==> offset < self.total(),
            r matches Some(i) ==> self.holds(i as int, offset as int),
    {
        let n: usize = self.entries.len();
        if n == 0 || offset >= self.length() {
            return None;
        }
        // The last file that starts at or before `offset`.
        let mut lo: usize = 0;
        let mut hi: usize = n;
        while hi - lo > 1
            invariant
                0 <= lo < hi <= n,
                n == self.entries@.len(),
                self.wf(),
                offset < self.total(),
                self.entries@[lo as int].offset <= offset,
                hi < n ==> self.entries@[hi as int].offset > offset,
            decreases hi - lo,
        {
            let mid: usize = lo + (hi - lo) / 2;
            if self.entries[mid].offset <= offset {
                lo = mid;
            } else {
                hi = mid;
            }
        }
        proof {
            if hi < n {
                assert(self.entries@[lo + 1].offset == self.entries@[lo as int].offset
                    + self.entries@[lo as int].length);
            }
        }
        Some(lo)
    }

    /// Whether span `k` of `spans` is in its place: it is not empty, starts
    /// where the one before it ends (the first at the start of the range),
    /// lies in a later file than the one before it, and lies in its file
    /// where the content has it.
    pub open spec fn span_fits(&self, offset: int, spans: Seq<Span>, k: int) -> bool {
        let s = spans[k];
        &&& s.len > 0
        &&& s.begin == (if k == 0 {
            0
        } else {
            spans[k - 1].begin + spans[k - 1].len
        })
        &&& k > 0 ==> spans[k - 1].file < s.file
        &&& 0 <= s.file < self.entries@.len()
        &&& self.entries@[s.file as int].offset + s.offset == offset + s.begin
        &&& s.offset + s.len <= self.entries@[s.file as int].length
    }

    /// Where the last of `spans` ends in the range.
    pub open spec fn spans_end(spans: Seq<Span>) -> int {
        if spans.len() == 0 {
            0
        } else {
            spans.last().begin + spans.last().len
        }
    }

    /// Whether `spans` cut the range of `len` bytes that starts at byte
    /// `offset` of the content along file borders, without gap and with one
    /// span for each file that the range touches.
    pub open spec fn cuts(&self, offset: int, len: int, spans: Seq<Span>) -> bool {
        &&& forall|k: int| 0 <= k < spans.len() ==> #[trigger] self.span_fits(offset, spans, k)
        &&& len == Self::spans_end(spans)
    }

    /// Cuts the range of `len` bytes that starts at byte `offset` of the
    /// content along file borders.
    pub fn spans(&self, offset: u64, len: usize) -> (r: Vec<Span>)
        requires
            self.wf(),
            offset + len <= self.total(),
        ensures
            self.cuts(offset as int, len as int, r@),
    {
        let mut out: Vec<Span> = Vec::new();
        let mut done: usize = 0;
        while done < len
            invariant
                done <= len,
                self.wf(),
                offset + len <= self.total(),
                self.cuts(offset as int, done as int, out@),
                out@.len() > 0 && done < len ==> out@.last().offset + out@.last().len
                    == self.entries@[out@.last().file as int].length,
            decreases len - done,
        {
            let at: u64 = offset + done as u64;
            match self.locate(at) {
                None => {
                    assert(false);
                    return out;
                },
                Some(file) => {
                    let entry = &self.entries[file];
                    let within: u64 = at - entry.offset;
                    let room: u64 = entry.length - within;
                    let rest: usize = len - done;
                    let take: usize = if room < rest as u64 {
                        room as usize
                    } else {
                        rest
                    };
                    let span = Span { file, offset: within, begin: done, len: take };
                    let ghost before = out@;
                    proof {
                        if before.len() > 0 {
                            let last = before.last();
                            let f = last.file as int;
                            assert(self.span_fits(offset as int, before, before.len() - 1));
                            // The span before ended where its file ends, so
                            // this byte lies in a later file.
                            assert(at == self.entries@[f].offset + self.entries@[f].length);
                            if file as int <= f {
                                self.lemma_offsets_ascend(file as int, f);
                            }
                        }
                    }
                    out.push(span);
                    proof {
                        assert forall|k: int| 0 <= k < out@.len() implies #[trigger] self.span_fits(
                            offset as int,
                            out@,
                            k,
                        ) by {
                            if k < before.len() {
                                assert(self.span_fits(offset as int, before, k));
                                assert(out@[k] == before[k]);
                                if k > 0 {
                                    assert(out@[k - 1] == before[k - 1]);
                                }
                            } else if k > 0 {
                                assert(out@[k - 1] == before.last());
                            }
                        }
                    }
                    done = done + take;
                },
            }
        }
        out
    }
}

/// The contents of the files after the first `n` of `spans` were written
/// with the bytes of `bytes` that they stand for.
pub open spec fn written(disk: Seq<Seq<u8>>, spans: Seq<Span>, bytes: Seq<u8>, n: int) -> Seq<
    Seq<u8>,
>
    decreases n,
{
    if n <= 0 {
        disk
    } else {
        let before = written(disk, spans, bytes, n - 1);
        let s = spans[n - 1];
        before.update(
            s.file as int,
            overwrite(
                before[s.file as int],
                s.offset as int,
                bytes.subrange(s.begin as int, s.begin + s.len),
            ),
        )
    }
}

impl Layout {
    /// Whether `disk` has each file of the table at its full length.
    pub open spec fn laid_out(&self, disk: Seq<Seq<u8>>) -> bool {
        disk.len() == self.entries@.len() && forall|i: int|
            0 <= i < disk.len() ==> (#[trigger] disk[i]).len() == self.entries@[i].length
    }

    /// Once the spans that cut a range of the content were written, the
    /// files hold the bytes in order: byte `p` of the range stands in the
    /// file that holds byte `offset + p` of the content, at its place there.
    pub proof fn lemma_written_in_order(
        &self,
        disk: Seq<Seq<u8>>,
        offset: int,
        spans: Seq<Span>,
        bytes: Seq<u8>,
        n: int,
    )
        requires
            self.wf(),
            self.laid_out(disk),
            0 <= offset,
            self.cuts(offset, bytes.len() as int, spans),
            0 <= n <= spans.len(),
        ensures
            self.laid_out(written(disk, spans, bytes, n)),
            forall|p: int, i: int|
                0 <= p < Self::spans_end(spans.take(n)) && #[trigger] self.holds(i, offset + p)
                    ==> written(disk, spans, bytes, n)[i][offset + p - self.entries@[i].offset]
                    == bytes[p],
        decreases n,
    {
        if n > 0 {
            self.lemma_written_in_order(disk, offset, spans, bytes, n - 1);
            let before = written(disk, spans, bytes, n - 1);
            let after = written(disk, spans, bytes, n);
            let s = spans[n - 1];
            let f = s.file as int;
            assert(self.span_fits(offset, spans, n - 1));
            self.lemma_spans_within(offset, bytes.len() as int, spans, n - 1);
            let chunk = bytes.subrange(s.begin as int, s.begin + s.len);
            assert(spans.take(n).last() == s);
            if n > 1 {
                assert(spans.take(n - 1).last() == spans[n - 2]);
            }
            assert(Self::spans_end(spans.take(n - 1)) == s.begin);
            assert forall|i: int| 0 <= i < after.len() implies (#[trigger] after[i]).len()
                == self.entries@[i].length by {
                assert(before[i].len() == self.entries@[i].length);
            }
            assert forall|p: int, i: int|
                0 <= p < Self::spans_end(spans.take(n)) && #[trigger] self.holds(
                    i,
                    offset + p,
                ) implies after[i][offset + p - self.entries@[i].offset] == bytes[p] by {
                let at = offset + p - self.entries@[i].offset;
                if p >= s.begin {
                    assert(self.holds(f, offset + p));
                    self.lemma_holder_unique(i, f, offset + p);
                    assert(at == s.offset + (p - s.begin));
                    assert(chunk[p - s.begin] == bytes[p]);
                } else {
                    if i == f {
                        assert(at < s.offset);
                    }
                    assert(before[i][at] == bytes[p]);
                }
            }
        }
    }

    /// The spans that cut a range end within the range.
    pub proof fn lemma_spans_within(&self, offset: int, len: int, spans: Seq<Span>, k: int)
        requires
            self.cuts(offset, len, spans),
            0 <= k < spans.len(),
        ensures
            spans[k].begin + spans[k].len <= len,
        decreases spans.len() - k,
    {
        if k < spans.len() - 1 {
            self.lemma_spans_within(offset, len, spans, k + 1);
            assert(self.span_fits(offset, spans, k + 1));
        }
    }
}

/// Whether a segment of a path names something inside the directory that it
/// stands in: it is not empty, neither `.` nor `..`, and holds no separator
/// and no NUL.
pub open spec fn plain_segment(s: Seq<char>) -> bool {
    &&& s.len() > 0
    &&& s != seq!['.']
    &&& s != seq!['.', '.']
    &&& forall|i: int| 0 <= i < s.len() ==> #[trigger] s[i] != '/' && s[i] != '\\' && s[i] != '\0'
}

/// Whether `segment` is a plain segment of a path.
pub fn is_plain(segment: &str) -> (r: bool)
    ensures
        r == plain_segment(segment@),
{
    let n: usize = segment.unicode_len();
    if n == 0 {
        return false;
    }
    let mut dots: bool = true;
    let mut i: usize = 0;
    while i < n
        invariant
            i <= n,
            n == segment@.len(),
            dots == (forall|j: int| 0 <= j < i ==> #[trigger] segment@[j] == '.'),
            forall|j: int|
                0 <= j < i ==> #[trigger] segment@[j] != '/' && segment@[j] != '\\' && segment@[j]
                    != '\0',
        decreases n - i,
    {
        let c = segment.get_char(i);
        if c == '/' || c == '\\' || c == '\0' {
            return false;
        }
        if c != '.' {
            dots = false;
        }
        i += 1;
    }
    if dots && n <= 2 {
        proof {
            if n == 1 {
                assert(segment@ =~= seq!['.']);
            } else {
                assert(segment@ =~= seq!['.', '.']);
            }
        }
        return false;
    }
    proof {
        if segment@ == seq!['.'] {
            assert(forall|j: int| 0 <= j < 1 ==> #[trigger] segment@[j] == '.');
        }
        if segment@ == seq!['.', '.'] {
            assert(forall|j: int| 0 <= j < 2 ==> #[trigger] segment@[j] == '.');
        }
    }
    true
}

impl Layout {
    /// Every file lies below the download directory: each segment of each
    /// path is plain.
    pub open spec fn confined(&self) -> bool {
        forall|i: int, j: int|
            0 <= i < self.entries@.len() && 0 <= j < self.entries@[i].path@.len()
                ==> plain_segment(#[trigger] self.entries@[i].path@[j]@)
    }

    /// Whether every file lies below the download directory.
    pub fn is_confined(&self) -> (r: bool)
        ensures
            r == self.confined(),
    {
        let mut i: usize = 0;
        while i < self.entries.len()
            invariant
                i <= self.entries@.len(),
                forall|a: int, b: int|
                    0 <= a < i && 0 <= b < self.entries@[a].path@.len() ==> plain_segment(
                        #[trigger] self.entries@[a].path@[b]@,
                    ),
            decreases self.entries@.len() - i,
        {
            let path = &self.entries[i].path;
            let mut j: usize = 0;
            while j < path.len()
                invariant
                    j <= path@.len(),
                    i < self.entries@.len(),
                    path@ == self.entries@[i as int].path@,
                    forall|b: int| 0 <= b < j ==> plain_segment(#[trigger] path@[b]@),
                decreases path@.len() - j,
            {
                if !is_plain(path[j].as_str()) {
                    return false;
                }
                j += 1;
            }
            i += 1;
        }
        true
    }
}

} // verus!
