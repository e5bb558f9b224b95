//! Maps a flat byte stream onto one or more output files.
//!
//! The BitTorrent protocol treats a multi-file torrent as one contiguous byte
//! stream.  When a piece is verified we compute which file(s) it overlaps and
//! write each slice at the correct offset.

use vstd::prelude::*;
use vstd::string::StringSliceAdditionalSpecFns;

use crate::bencode::torrent_of;
use crate::metainfo::{
    file_entries, lemma_files_contiguous, metainfo_of, FileEntry, FileInfo,
};

verus! {

/// A part of a range of the stream that lies in one file.
#[derive(Debug, Clone, Copy, PartialEq, Eq, Structural)]
pub struct Segment {
    /// Index of the file.
    pub file: usize,
    /// Where the part stands in the file.
    pub seek: u64,
    /// Where the part starts in the range.
    pub start: u64,
    /// Where the part ends in the range.
    pub end: u64,
}

/// The content of a [`Segment`].
pub struct Span {
    pub file: int,
    pub seek: int,
    pub start: int,
    pub end: int,
}

impl View for Segment {
    type V = Span;

    open spec fn view(&self) -> Span {
        Span {
            file: self.file as int,
            seek: self.seek as int,
            start: self.start as int,
            end: self.end as int,
        }
    }
}

/// The contents of a sequence of segments.
pub open spec fn spans(s: Seq<Segment>) -> Seq<Span> {
    s.map_values(|x: Segment| x@)
}

pub open spec fn max(a: int, b: int) -> int {
    if a >= b {
        a
    } else {
        b
    }
}

pub open spec fn min(a: int, b: int) -> int {
    if a <= b {
        a
    } else {
        b
    }
}

/// The part of the range of `len` bytes at `flat` that lies in a file, if any.
pub open spec fn span_in(f: FileEntry, i: int, flat: int, len: int) -> Option<Span> {
    let lo = max(flat, f.offset as int);
    let hi = min(flat + len, f.offset + f.length);
    if lo < hi {
        Some(Span { file: i, seek: lo - f.offset, start: lo - flat, end: hi - flat })
    } else {
        None
    }
}

/// The parts of the range of `len` bytes at `flat`, in the order of the files.
pub open spec fn plan(files: Seq<FileEntry>, flat: int, len: int) -> Seq<Span>
    decreases files.len(),
{
    if files.len() == 0 {
        seq![]
    } else {
        match span_in(files.last(), files.len() - 1, flat, len) {
            Some(s) => plan(files.drop_last(), flat, len).push(s),
            None => plan(files.drop_last(), flat, len),
        }
    }
}

/// Whether every file ends within the addressable stream.
pub open spec fn ends_fit(files: Seq<FileEntry>) -> bool {
    forall|i: int| 0 <= i < files.len() ==> (#[trigger] files[i]).offset + files[i].length <= u64::MAX
}

/// The parts of the range of `len` bytes at `flat_offset`: where to write them,
/// or where to read them from.
pub fn plan_segments(files: &[FileInfo], flat_offset: u64, len: usize) -> (r: Vec<Segment>)
    requires
        flat_offset + len <= u64::MAX,
        ends_fit(file_entries(files@)),
    ensures
        spans(r@) == plan(file_entries(files@), flat_offset as int, len as int),
        forall|i: int|
            0 <= i < r@.len() ==> (#[trigger] r@[i]).file < files@.len() && r@[i].start < r@[i].end
                <= len,
{
    let ghost entries = file_entries(files@);
    let data_end: u64 = flat_offset + len as u64;
    let mut out: Vec<Segment> = Vec::new();
    let mut i: usize = 0;
    assert(entries.take(0) =~= seq![]);
    assert(spans(out@) =~= seq![]);
    while i < files.len()
        invariant
            i <= files.len(),
            entries == file_entries(files@),
            ends_fit(entries),
            flat_offset + len <= u64::MAX,
            data_end == flat_offset + len,
            spans(out@) == plan(entries.take(i as int), flat_offset as int, len as int),
            forall|j: int|
                0 <= j < out@.len() ==> (#[trigger] out@[j]).file < files@.len() && out@[j].start
                    < out@[j].end <= len,
        decreases files.len() - i,
    {
        let file = &files[i];
        proof {
            assert(entries[i as int] == file@);
            assert(entries.take(i + 1).drop_last() =~= entries.take(i as int));
            assert(entries.take(i + 1).last() == file@);
        }
        let file_start: u64 = file.offset;
        let file_end: u64 = file.offset + file.length;
        let from: u64 = if flat_offset >= file_start {
            flat_offset
        } else {
            file_start
        };
        let to: u64 = if data_end <= file_end {
            data_end
        } else {
            file_end
        };
        if from < to {
            let ghost before = out@;
            let seg = Segment {
                file: i,
                seek: from - file_start,
                start: from - flat_offset,
                end: to - flat_offset,
            };
            out.push(seg);
            assert(spans(out@) =~= spans(before).push(seg@));
        }
        i = i + 1;
    }
    assert(entries.take(i as int) =~= entries);
    out
}

// The stream that the files hold

/// The bytes of all files, by file and position.
pub type Disk = spec_fn(int, int) -> u8;

/// Whether the files follow each other without a gap from the start of the stream.
pub open spec fn contiguous(files: Seq<FileEntry>) -> bool {
    &&& files.len() > 0 ==> files[0].offset == 0
    &&& forall|i: int|
        0 < i < files.len() ==> (#[trigger] files[i]).offset == files[i - 1].offset + files[i
            - 1].length
}

/// The length of the stream that contiguous files hold.
pub open spec fn stream_len(files: Seq<FileEntry>) -> int {
    if files.len() == 0 {
        0
    } else {
        files.last().offset + files.last().length
    }
}

/// Whether a position of the stream lies in a file.
pub open spec fn lies_in(f: FileEntry, x: int) -> bool {
    f.offset <= x < f.offset + f.length
}

/// The file that a position of the stream lies in.
pub open spec fn file_at(files: Seq<FileEntry>, x: int) -> int {
    choose|i: int| 0 <= i < files.len() && lies_in(#[trigger] files[i], x)
}

/// The byte at a position of the stream.
pub open spec fn stream_byte(disk: Disk, files: Seq<FileEntry>, x: int) -> u8 {
    disk(file_at(files, x), x - files[file_at(files, x)].offset)
}

/// Whether a part covers a position of a file.
pub open spec fn covers(s: Span, file: int, pos: int) -> bool {
    s.file == file && s.seek <= pos < s.seek + (s.end - s.start)
}

/// The disk after data has been written according to a plan.
pub open spec fn written(disk: Disk, parts: Seq<Span>, data: Seq<u8>) -> Disk {
    |file: int, pos: int|
        if exists|k: int| 0 <= k < parts.len() && covers(#[trigger] parts[k], file, pos) {
            let k = choose|k: int| 0 <= k < parts.len() && covers(#[trigger] parts[k], file, pos);
            data[parts[k].start + (pos - parts[k].seek)]
        } else {
            disk(file, pos)
        }
}

/// What is read according to a plan: the parts one after the other.
pub open spec fn read(disk: Disk, parts: Seq<Span>) -> Seq<u8>
    decreases parts.len(),
{
    if parts.len() == 0 {
        seq![]
    } else {
        let s = parts.last();
        read(disk, parts.drop_last()) + Seq::new(
            (s.end - s.start) as nat,
            |k: int| disk(s.file, s.seek + k),
        )
    }
}

// Laws

proof fn lemma_files_ascend(files: Seq<FileEntry>, i: int, j: int)
    requires
        contiguous(files),
        0 <= i < j < files.len(),
    ensures
        files[i].offset + files[i].length <= files[j].offset,
    decreases j - i,
{
    assert(files[j].offset == files[j - 1].offset + files[j - 1].length);
    if i < j - 1 {
        lemma_files_ascend(files, i, j - 1);
    }
}

proof fn lemma_file_exists(files: Seq<FileEntry>, x: int)
    requires
        contiguous(files),
        0 <= x < stream_len(files),
    ensures
        exists|i: int| 0 <= i < files.len() && lies_in(#[trigger] files[i], x),
    decreases files.len(),
{
    let last = files.last();
    if x >= last.offset {
        assert(lies_in(files[files.len() - 1], x));
    } else {
        let head = files.drop_last();
        assert(files[files.len() - 1].offset == files[files.len() - 2].offset + files[files.len()
            - 2].length);
        assert(contiguous(head)) by {
            assert forall|i: int| 0 < i < head.len() implies (#[trigger] head[i]).offset == head[i
                - 1].offset + head[i - 1].length by {
                assert(files[i].offset == files[i - 1].offset + files[i - 1].length);
            }
        }
        lemma_file_exists(head, x);
        let i = choose|i: int| 0 <= i < head.len() && lies_in(#[trigger] head[i], x);
        assert(lies_in(files[i], x));
    }
}

proof fn lemma_file_at(files: Seq<FileEntry>, x: int, i: int)
    requires
        contiguous(files),
        0 <= i < files.len(),
        lies_in(files[i], x),
    ensures
        file_at(files, x) == i,
{
    let k = file_at(files, x);
    assert(0 <= k < files.len() && lies_in(files[k], x));
    if k < i {
        lemma_files_ascend(files, k, i);
    } else if i < k {
        lemma_files_ascend(files, i, k);
    }
}

/// Every part of a plan is the overlap of the range with the part's file, and a
/// file that the range overlaps has a part.
proof fn lemma_plan_parts(files: Seq<FileEntry>, flat: int, len: int)
    ensures
        forall|k: int|
            0 <= k < plan(files, flat, len).len() ==> {
                let s = #[trigger] plan(files, flat, len)[k];
                0 <= s.file < files.len() && span_in(files[s.file], s.file, flat, len) == Some(s)
            },
        forall|i: int|
            0 <= i < files.len() && span_in(#[trigger] files[i], i, flat, len) is Some ==> exists|
                k: int,
            |
                0 <= k < plan(files, flat, len).len() && #[trigger] plan(files, flat, len)[k]
                    == span_in(files[i], i, flat, len).unwrap(),
    decreases files.len(),
{
    if files.len() > 0 {
        let head = files.drop_last();
        lemma_plan_parts(head, flat, len);
        let p = plan(files, flat, len);
        let q = plan(head, flat, len);
        assert forall|k: int| 0 <= k < p.len() implies {
            let s = #[trigger] p[k];
            0 <= s.file < files.len() && span_in(files[s.file], s.file, flat, len) == Some(s)
        } by {
            if k < q.len() {
                assert(p[k] == q[k]);
                assert(files[q[k].file] == head[q[k].file]);
            }
        }
        assert forall|i: int|
            0 <= i < files.len() && span_in(#[trigger] files[i], i, flat, len) is Some implies exists|
            k: int,
        | 0 <= k < p.len() && #[trigger] p[k] == span_in(files[i], i, flat, len).unwrap() by {
            if i < head.len() {
                assert(head[i] == files[i]);
                let k = choose|k: int|
                    0 <= k < q.len() && #[trigger] q[k] == span_in(head[i], i, flat, len).unwrap();
                assert(p[k] == q[k]);
            } else {
                assert(p[p.len() - 1] == span_in(files[i], i, flat, len).unwrap());
            }
        }
    }
}

/// Writing at `flat` changes exactly the bytes of the stream in that range, to
/// those that are written.
#[verifier::spinoff_prover]
#[verifier::rlimit(40)]
pub proof fn lemma_write_changes_range(
    disk: Disk,
    files: Seq<FileEntry>,
    flat: int,
    data: Seq<u8>,
    x: int,
)
    requires
        contiguous(files),
        0 <= flat,
        0 <= x < stream_len(files),
    ensures
        stream_byte(written(disk, plan(files, flat, data.len() as int), data), files, x) == if flat
            <= x < flat + data.len() {
            data[x - flat]
        } else {
            stream_byte(disk, files, x)
        },
{
    let len = data.len() as int;
    let parts = plan(files, flat, len);
    lemma_file_exists(files, x);
    let i = file_at(files, x);
    assert(0 <= i < files.len() && lies_in(files[i], x));
    let pos = x - files[i].offset;
    lemma_plan_parts(files, flat, len);
    if flat <= x < flat + len {
        let s = span_in(files[i], i, flat, len).unwrap();
        let k = choose|k: int| 0 <= k < parts.len() && #[trigger] parts[k] == s;
        assert(covers(parts[k], i, pos));
        let c = choose|c: int| 0 <= c < parts.len() && covers(#[trigger] parts[c], i, pos);
        assert(parts[c].file == i);
        assert(span_in(files[i], i, flat, len) == Some(parts[c]));
    } else {
        assert forall|k: int| 0 <= k < parts.len() implies !covers(#[trigger] parts[k], i, pos) by {
            let s = parts[k];
            if covers(s, i, pos) {
                assert(span_in(files[i], i, flat, len) == Some(s));
            }
        }
    }
}

/// The bytes of a range that lie in the first files are read in order.
proof fn lemma_read_prefix(disk: Disk, files: Seq<FileEntry>, flat: int, len: int, n: int)
    requires
        contiguous(files),
        0 <= flat,
        0 <= len,
        0 <= n <= files.len(),
    ensures
        read(disk, plan(files.take(n), flat, len)) == Seq::new(
            max(0, min(len, stream_len(files.take(n)) - flat)) as nat,
            |k: int| stream_byte(disk, files, flat + k),
        ),
    decreases n,
{
    let head = files.take(n);
    if n == 0 {
        assert(read(disk, plan(head, flat, len)) =~= Seq::new(
            max(0, min(len, stream_len(head) - flat)) as nat,
            |k: int| stream_byte(disk, files, flat + k),
        ));
    } else {
        lemma_read_prefix(disk, files, flat, len, n - 1);
        let before = files.take(n - 1);
        assert(head.drop_last() =~= before);
        let f = head.last();
        assert(f == files[n - 1]);
        let start = stream_len(before);
        assert(start == f.offset) by {
            if n > 1 {
                assert(before.last() == files[n - 2]);
                assert(files[n - 1].offset == files[n - 2].offset + files[n - 2].length);
            }
        }
        let all = Seq::new(
            max(0, min(len, stream_len(head) - flat)) as nat,
            |k: int| stream_byte(disk, files, flat + k),
        );
        let old_part = Seq::new(
            max(0, min(len, stream_len(before) - flat)) as nat,
            |k: int| stream_byte(disk, files, flat + k),
        );
        match span_in(f, n - 1, flat, len) {
            Some(s) => {
                let new_part = Seq::new(
                    (s.end - s.start) as nat,
                    |k: int| disk(s.file, s.seek + k),
                );
                assert(plan(head, flat, len).drop_last() =~= plan(before, flat, len));
                assert(plan(head, flat, len).last() == s);
                assert forall|k: int| 0 <= k < all.len() implies all[k] == (old_part + new_part)[k] by {
                    if k >= old_part.len() {
                        let x = flat + k;
                        assert(lies_in(files[n - 1], x));
                        lemma_file_at(files, x, n - 1);
                    }
                }
                assert(all =~= old_part + new_part);
            },
            None => {
                assert(all =~= old_part);
            },
        }
    }
}

/// Reading a range of the stream gives its bytes.
pub proof fn lemma_read_gives_stream(disk: Disk, files: Seq<FileEntry>, flat: int, len: int)
    requires
        contiguous(files),
        0 <= flat,
        0 <= len,
        flat + len <= stream_len(files),
    ensures
        read(disk, plan(files, flat, len)) == Seq::new(
            len as nat,
            |k: int| stream_byte(disk, files, flat + k),
        ),
{
    lemma_read_prefix(disk, files, flat, len, files.len() as int);
    assert(files.take(files.len() as int) =~= files);
}

/// What was written is read back.
pub proof fn lemma_read_after_write(disk: Disk, files: Seq<FileEntry>, flat: int, data: Seq<u8>)
    requires
        contiguous(files),
        0 <= flat,
        flat + data.len() <= stream_len(files),
    ensures
        ({
            let parts = plan(files, flat, data.len() as int);
            read(written(disk, parts, data), parts) == data
        }),
{
    let len = data.len() as int;
    let parts = plan(files, flat, len);
    let after = written(disk, parts, data);
    lemma_read_gives_stream(after, files, flat, len);
    let got = read(after, parts);
    assert forall|k: int| 0 <= k < len implies got[k] == data[k] by {
        lemma_write_changes_range(disk, files, flat, data, flat + k);
    }
    assert(got =~= data);
}

/// The files of a torrent file make up its stream.
pub proof fn lemma_torrent_files(data: Seq<u8>)
    ensures
        metainfo_of(data) matches Ok(t) ==> contiguous(t.files) && stream_len(t.files)
            == t.total_length && ends_fit(t.files),
{
    if let Ok(t) = metainfo_of(data) {
        let (root, range) = torrent_of(data)->Ok_0;
        let info = root.get("info".spec_bytes()).unwrap();
        if info.get("length".spec_bytes()) is None {
            let list = info.get_list("files".spec_bytes()).unwrap();
            lemma_files_contiguous(t.name, list);
            assert forall|i: int| 0 <= i < t.files.len() implies (#[trigger] t.files[i]).offset
                + t.files[i].length <= u64::MAX by {
                if i < t.files.len() - 1 {
                    assert(t.files[i + 1].offset == t.files[i].offset + t.files[i].length);
                }
            }
        }
    }
}

} // verus!
