//! Table-file descriptors and a version: the set of live table files, level by
//! level.

use vstd::prelude::*;
use crate::key_types::{
    bytes_lt, copy_bytes, extract_user_key, internal_le, lemma_lex_transitive,
    lemma_lex_trichotomy, lex_le, lex_lt, user_key_of,
};
use crate::types::{Options, MAX_MEM_COMPACT_LEVEL, NUM_LEVELS};

verus! {

/// Number of a file; log, manifest and table files share one counter.
pub type FileNum = u64;

/// Descriptor of one table file.
#[derive(Clone, Debug, PartialEq, Eq)]
pub struct FileMetaData {
    /// Reads that may still miss in this file before it is due for compaction.
    pub allowed_seeks: u64,
    /// The file's number.
    pub num: FileNum,
    /// Size of the file in bytes.
    pub size: u64,
    /// Smallest internal key in the file.
    pub smallest: Vec<u8>,
    /// Largest internal key in the file.
    pub largest: Vec<u8>,
}

/// What a descriptor holds, as plain values.
pub ghost struct FileMetaView {
    pub allowed_seeks: u64,
    pub num: u64,
    pub size: u64,
    pub smallest: Seq<u8>,
    pub largest: Seq<u8>,
}

impl View for FileMetaData {
    type V = FileMetaView;

    open spec fn view(&self) -> FileMetaView {
        FileMetaView {
            allowed_seeks: self.allowed_seeks,
            num: self.num,
            size: self.size,
            smallest: self.smallest@,
            largest: self.largest@,
        }
    }
}

impl FileMetaView {
    /// Smallest user key in the file.
    pub open spec fn lo(self) -> Seq<u8> {
        user_key_of(self.smallest)
    }

    /// Largest user key in the file.
    pub open spec fn hi(self) -> Seq<u8> {
        user_key_of(self.largest)
    }

    /// The file holds bytes, and its smallest key does not sort behind its
    /// largest.
    pub open spec fn sound(self) -> bool {
        self.size > 0 && internal_le(self.smallest, self.largest)
    }

    /// Whether the file's user-key range meets `[begin, end]`.
    pub open spec fn overlaps(self, begin: Seq<u8>, end: Seq<u8>) -> bool {
        !lex_lt(self.hi(), begin) && !lex_lt(end, self.lo())
    }

    /// Whether the file's user-key range holds `ukey`.
    pub open spec fn covers(self, ukey: Seq<u8>) -> bool {
        self.overlaps(ukey, ukey)
    }

    /// Whether the file's user-key range lies inside `[begin, end]`.
    pub open spec fn within(self, begin: Seq<u8>, end: Seq<u8>) -> bool {
        lex_le(begin, self.lo()) && lex_le(self.hi(), end)
    }
}

impl FileMetaData {
    /// A descriptor with number 0, size 0 and empty keys.
    pub fn new() -> (r: FileMetaData)
        ensures
            r@ == (FileMetaView {
                allowed_seeks: 0,
                num: 0,
                size: 0,
                smallest: Seq::empty(),
                largest: Seq::empty(),
            }),
    {
        FileMetaData {
            allowed_seeks: 0,
            num: 0,
            size: 0,
            smallest: Vec::new(),
            largest: Vec::new(),
        }
    }

    /// A second descriptor that holds the same values.
    pub fn copy(&self) -> (r: FileMetaData)
        ensures
            r@ == self@,
    {
        FileMetaData {
            allowed_seeks: self.allowed_seeks,
            num: self.num,
            size: self.size,
            smallest: copy_bytes(self.smallest.as_slice()),
            largest: copy_bytes(self.largest.as_slice()),
        }
    }

    /// Whether the file's user-key range meets `[begin, end]`.
    pub fn overlaps_range(&self, begin: &[u8], end: &[u8]) -> (r: bool)
        ensures
            r == self@.overlaps(begin@, end@),
    {
        !bytes_lt(extract_user_key(self.largest.as_slice()), begin) && !bytes_lt(
            end,
            extract_user_key(self.smallest.as_slice()),
        )
    }
}

/// The descriptors of a list of files, as plain values.
pub open spec fn metas(files: Seq<FileMetaData>) -> Seq<FileMetaView> {
    Seq::new(files.len(), |i: int| files[i]@)
}

/// Sum of the sizes of the files.
pub open spec fn total_size(files: Seq<FileMetaView>) -> int
    decreases files.len(),
{
    if files.len() == 0 {
        0
    } else {
        total_size(files.drop_last()) + files.last().size
    }
}

/// The files among `files` whose user-key range meets `[begin, end]`, in the
/// order in which they are listed.
pub open spec fn overlapping(files: Seq<FileMetaView>, begin: Seq<u8>, end: Seq<u8>) -> Seq<
    FileMetaView,
> {
    files.filter(|f: FileMetaView| f.overlaps(begin, end))
}

/// Each file holds bytes, and its smallest key does not sort behind its
/// largest.
pub open spec fn all_sound(files: Seq<FileMetaView>) -> bool {
    forall|i: int| 0 <= i < files.len() ==> (#[trigger] files[i]).sound()
}

/// The files are pairwise disjoint in user-key space and listed by ascending
/// key: each file ends before the next one starts.
pub open spec fn sorted_disjoint(files: Seq<FileMetaView>) -> bool {
    forall|i: int, j: int|
        0 <= i < j < files.len() ==> lex_lt((#[trigger] files[i]).hi(), (#[trigger] files[j]).lo())
}

/// Files that are disjoint and listed by ascending key, each with its keys in
/// order, are listed by ascending smallest key, and no two of them hold a
/// user key in common.
pub proof fn lemma_level_sorted_by_smallest(files: Seq<FileMetaView>, i: int, j: int)
    requires
        all_sound(files),
        sorted_disjoint(files),
        0 <= i < j < files.len(),
    ensures
        crate::key_types::internal_lt(files[i].smallest, files[j].smallest),
        forall|ukey: Seq<u8>| !(files[i].covers(ukey) && files[j].covers(ukey)),
{
    assert(files[i].sound());
    assert(lex_lt(files[i].hi(), files[j].lo()));
    lemma_lex_transitive(files[i].lo(), files[i].hi(), files[j].lo());
    assert forall|ukey: Seq<u8>| !(files[i].covers(ukey) && files[j].covers(ukey)) by {
        if files[i].covers(ukey) && files[j].covers(ukey) {
            lemma_lex_transitive(ukey, files[i].hi(), files[j].lo());
            lemma_lex_trichotomy(ukey, files[j].lo());
        }
    }
}

/// The numbers of the files, in the order in which they are listed.
pub open spec fn numbers(files: Seq<FileMetaView>) -> Seq<u64> {
    Seq::new(files.len(), |i: int| files[i].num)
}

/// The numbers of the files, in the order in which they are listed.
pub fn file_numbers(files: &Vec<FileMetaData>) -> (r: Vec<FileNum>)
    ensures
        r@ == numbers(metas(files@)),
{
    let mut out: Vec<FileNum> = Vec::new();
    let mut i: usize = 0;
    while i < files.len()
        invariant
            i <= files@.len(),
            out@ == numbers(metas(files@)).subrange(0, i as int),
        decreases files.len() - i,
    {
        out.push(files[i].num);
        i += 1;
        assert(out@ =~= numbers(metas(files@)).subrange(0, i as int));
    }
    assert(numbers(metas(files@)).subrange(0, i as int) =~= numbers(metas(files@)));
    out
}

/// Sum of the sizes of the files.
pub fn total_file_size(files: &Vec<FileMetaData>) -> (r: u128)
    ensures
        r == total_size(metas(files@)),
{
    let mut sum: u128 = 0;
    let mut i: usize = 0;
    while i < files.len()
        invariant
            i <= files.len(),
            sum == total_size(metas(files@).subrange(0, i as int)),
            sum <= i * 0xffff_ffff_ffff_ffff,
        decreases files.len() - i,
    {
        proof {
            let next = metas(files@).subrange(0, i + 1);
            assert(next.drop_last() =~= metas(files@).subrange(0, i as int));
            assert(next.last() == files@[i as int]@);
        }
        sum = sum + (files[i].size as u128);
        i += 1;
    }
    assert(metas(files@).subrange(0, i as int) =~= metas(files@));
    sum
}

/// Copies of the files among `files` whose user-key range meets
/// `[begin, end]`, in the order in which they are listed.
pub fn files_overlapping(files: &Vec<FileMetaData>, begin: &[u8], end: &[u8]) -> (r: Vec<
    FileMetaData,
>)
    ensures
        metas(r@) == overlapping(metas(files@), begin@, end@),
{
    let mut out: Vec<FileMetaData> = Vec::new();
    let mut i: usize = 0;
    let ghost pred = |f: FileMetaView| f.overlaps(begin@, end@);
    while i < files.len()
        invariant
            i <= files.len(),
            pred == (|f: FileMetaView| f.overlaps(begin@, end@)),
            metas(out@) == metas(files@).subrange(0, i as int).filter(pred),
        decreases files.len() - i,
    {
        proof {
            let next = metas(files@).subrange(0, i + 1);
            assert(next.drop_last() =~= metas(files@).subrange(0, i as int));
            assert(next.last() == files@[i as int]@);
            reveal(Seq::filter);
        }
        if files[i].overlaps_range(begin, end) {
            let ghost before = metas(out@);
            out.push(files[i].copy());
            assert(metas(out@) =~= before.push(files@[i as int]@));
        }
        i += 1;
    }
    assert(metas(files@).subrange(0, i as int) =~= metas(files@));
    out
}

/// Number of marks that are set.
pub open spec fn count_true(m: Seq<bool>) -> nat
    decreases m.len(),
{
    if m.len() == 0 {
        0
    } else {
        count_true(m.drop_last()) + if m.last() {
            1nat
        } else {
            0nat
        }
    }
}

/// There are no more marks set than there are marks.
pub proof fn lemma_count_bound(m: Seq<bool>)
    ensures
        count_true(m) <= m.len(),
    decreases m.len(),
{
    if m.len() > 0 {
        lemma_count_bound(m.drop_last());
    }
}

/// Setting a mark that was not set adds one to the number of marks set.
pub proof fn lemma_count_set(m: Seq<bool>, i: int)
    requires
        0 <= i < m.len(),
        !m[i],
    ensures
        count_true(m.update(i, true)) == count_true(m) + 1,
    decreases m.len(),
{
    if i == m.len() - 1 {
        assert(m.update(i, true).drop_last() =~= m.drop_last());
    } else {
        assert(m.update(i, true).drop_last() =~= m.drop_last().update(i, true));
        lemma_count_set(m.drop_last(), i);
    }
}

/// Whether the range `[lo, hi]` holds `[begin, end]` and every file that
/// meets it lies inside it.
pub open spec fn closed_range(
    files: Seq<FileMetaView>,
    begin: Seq<u8>,
    end: Seq<u8>,
    lo: Seq<u8>,
    hi: Seq<u8>,
) -> bool {
    &&& lex_le(lo, begin)
    &&& lex_le(end, hi)
    &&& forall|i: int|
        0 <= i < files.len() && (#[trigger] files[i]).overlaps(lo, hi) ==> files[i].within(lo, hi)
}

/// What the widening of a key range over overlapping files ends in: the
/// range `[lo, hi]` holds `[begin, end]`, every chosen file lies inside it,
/// the chosen files are those that meet it, and it is the least such range:
/// it lies inside every range that holds `[begin, end]` and every file that
/// meets it.
pub open spec fn closed_over(
    files: Seq<FileMetaView>,
    chosen: Seq<FileMetaView>,
    begin: Seq<u8>,
    end: Seq<u8>,
    lo: Seq<u8>,
    hi: Seq<u8>,
) -> bool {
    &&& lex_le(lo, begin)
    &&& lex_le(end, hi)
    &&& chosen == overlapping(files, lo, hi)
    &&& forall|i: int| 0 <= i < chosen.len() ==> (#[trigger] chosen[i]).within(lo, hi)
    &&& lo == begin || exists|i: int| 0 <= i < chosen.len() && (#[trigger] chosen[i]).lo() == lo
    &&& hi == end || exists|i: int| 0 <= i < chosen.len() && (#[trigger] chosen[i]).hi() == hi
    &&& inside_every_closed_range(files, begin, end, lo, hi)
}

/// Whether `[lo, hi]` lies inside every range that holds `[begin, end]` and
/// every file that meets it.
pub open spec fn inside_every_closed_range(
    files: Seq<FileMetaView>,
    begin: Seq<u8>,
    end: Seq<u8>,
    lo: Seq<u8>,
    hi: Seq<u8>,
) -> bool {
    forall|lo2: Seq<u8>, hi2: Seq<u8>| #[trigger]
        closed_range(files, begin, end, lo2, hi2) ==> lex_le(lo2, lo) && lex_le(hi, hi2)
}

/// The files among `files` that meet the user-key range `[begin, end]`
/// after the range is widened, again and again, by every file that meets it,
/// until no further file does: the least range that holds `[begin, end]` and
/// every file that meets it. Returns the files and the widened range.
pub fn expand_overlapping(files: &Vec<FileMetaData>, begin: &[u8], end: &[u8]) -> (r: (
    Vec<FileMetaData>,
    Vec<u8>,
    Vec<u8>,
))
    requires
        all_sound(metas(files@)),
    ensures
        closed_over(metas(files@), metas(r.0@), begin@, end@, r.1@, r.2@),
{
    let n = files.len();
    let ghost m = metas(files@);
    let mut marks: Vec<bool> = Vec::new();
    let mut k: usize = 0;
    while k < n
        invariant
            k <= n,
            marks@.len() == k,
            forall|j: int| 0 <= j < k ==> !marks@[j],
            count_true(marks@) == 0,
        decreases n - k,
    {
        let ghost before = marks@;
        marks.push(false);
        assert(marks@.drop_last() =~= before);
        k += 1;
    }
    let mut lo = copy_bytes(begin);
    let mut hi = copy_bytes(end);
    let mut marked: usize = 0;
    let mut go = true;
    proof {
        lemma_lex_trichotomy(begin@, begin@);
        lemma_lex_trichotomy(end@, end@);
        assert(inside_every_closed_range(m, begin@, end@, begin@, end@));
    }
    while go
        invariant
            n == files@.len(),
            m == metas(files@),
            all_sound(m),
            marks@.len() == n,
            marked == count_true(marks@),
            lex_le(lo@, begin@),
            lex_le(end@, hi@),
            inside_every_closed_range(m, begin@, end@, lo@, hi@),
            forall|j: int| 0 <= j < n && marks@[j] ==> (#[trigger] m[j]).within(lo@, hi@),
            lo@ == begin@ || exists|j: int| 0 <= j < n && marks@[j] && (#[trigger] m[j]).lo() == lo@,
            hi@ == end@ || exists|j: int| 0 <= j < n && marks@[j] && (#[trigger] m[j]).hi() == hi@,
            !go ==> forall|j: int| 0 <= j < n && !marks@[j] ==> !(#[trigger] m[j]).overlaps(lo@, hi@),
        decreases
                (n - marked) + if go {
                    1int
                } else {
                    0int
                },
    {
        let before = marked;
        let ghost lo0 = lo@;
        let ghost hi0 = hi@;
        let mut i: usize = 0;
        while i < n
            invariant
                i <= n,
                n == files@.len(),
                m == metas(files@),
                all_sound(m),
                marks@.len() == n,
                marked == count_true(marks@),
                before <= marked,
                lex_le(lo@, begin@),
                lex_le(end@, hi@),
                inside_every_closed_range(m, begin@, end@, lo@, hi@),
                forall|j: int| 0 <= j < n && marks@[j] ==> (#[trigger] m[j]).within(lo@, hi@),
                lo@ == begin@ || exists|j: int|
                    0 <= j < n && marks@[j] && (#[trigger] m[j]).lo() == lo@,
                hi@ == end@ || exists|j: int|
                    0 <= j < n && marks@[j] && (#[trigger] m[j]).hi() == hi@,
                marked == before ==> lo@ == lo0 && hi@ == hi0 && forall|j: int|
                    0 <= j < i && !marks@[j] ==> !(#[trigger] m[j]).overlaps(lo@, hi@),
            decreases n - i,
        {
            if !marks[i] && files[i].overlaps_range(lo.as_slice(), hi.as_slice()) {
                let f = &files[i];
                let ghost fv = m[i as int];
                let ghost old_lo = lo@;
                let ghost old_hi = hi@;
                let ghost old_marks = marks@;
                proof {
                    lemma_count_set(marks@, i as int);
                    lemma_count_bound(marks@.update(i as int, true));
                    assert(fv.sound());
                }
                marks.set(i, true);
                marked += 1;
                let flo = extract_user_key(f.smallest.as_slice());
                let fhi = extract_user_key(f.largest.as_slice());
                if bytes_lt(flo, lo.as_slice()) {
                    lo = copy_bytes(flo);
                }
                if bytes_lt(hi.as_slice(), fhi) {
                    hi = copy_bytes(fhi);
                }
                proof {
                    lemma_lex_trichotomy(fv.lo(), fv.lo());
                    lemma_lex_trichotomy(fv.hi(), fv.hi());
                    lemma_lex_transitive(lo@, old_lo, begin@);
                    lemma_lex_transitive(end@, old_hi, hi@);
                    assert(lex_le(lo@, old_lo)) by {
                        lemma_lex_trichotomy(lo@, old_lo);
                    }
                    assert(lex_le(old_hi, hi@)) by {
                        lemma_lex_trichotomy(old_hi, hi@);
                    }
                    assert(fv.within(lo@, hi@));
                    assert forall|lo2: Seq<u8>, hi2: Seq<u8>| #[trigger]
                        closed_range(m, begin@, end@, lo2, hi2) implies lex_le(lo2, lo@) && lex_le(
                        hi@,
                        hi2,
                    ) by {
                        assert(lex_le(lo2, old_lo) && lex_le(old_hi, hi2));
                        lemma_lex_transitive(lo2, old_lo, fv.hi());
                        lemma_lex_transitive(fv.lo(), old_hi, hi2);
                        assert(fv.overlaps(lo2, hi2));
                        assert(m[i as int].within(lo2, hi2));
                    }
                    assert forall|j: int| 0 <= j < n && marks@[j] implies (#[trigger] m[j]).within(
                        lo@,
                        hi@,
                    ) by {
                        if j != i {
                            assert(old_marks[j]);
                            assert(m[j].within(old_lo, old_hi));
                            lemma_lex_transitive(lo@, old_lo, m[j].lo());
                            lemma_lex_transitive(m[j].hi(), old_hi, hi@);
                        }
                    }
                    if lo@ != begin@ {
                        if lo@ == old_lo {
                            let j = choose|j: int|
                                0 <= j < n && old_marks[j] && (#[trigger] m[j]).lo() == old_lo;
                            assert(marks@[j] && m[j].lo() == lo@);
                        } else {
                            assert(marks@[i as int] && m[i as int].lo() == lo@);
                        }
                    }
                    if hi@ != end@ {
                        if hi@ == old_hi {
                            let j = choose|j: int|
                                0 <= j < n && old_marks[j] && (#[trigger] m[j]).hi() == old_hi;
                            assert(marks@[j] && m[j].hi() == hi@);
                        } else {
                            assert(marks@[i as int] && m[i as int].hi() == hi@);
                        }
                    }
                }
            }
            i += 1;
        }
        go = marked > before;
        proof {
            lemma_count_bound(marks@);
        }
    }
    let mut out: Vec<FileMetaData> = Vec::new();
    let ghost pred = |f: FileMetaView| f.overlaps(lo@, hi@);
    proof {
        assert forall|j: int| 0 <= j < n implies marks@[j] == (#[trigger] m[j]).overlaps(
            lo@,
            hi@,
        ) by {
            if marks@[j] {
                assert(m[j].within(lo@, hi@));
                assert(m[j].sound());
                lemma_lex_transitive(lo@, m[j].lo(), m[j].hi());
                lemma_lex_transitive(m[j].lo(), m[j].hi(), hi@);
            }
        }
    }
    let mut i: usize = 0;
    while i < n
        invariant
            i <= n,
            n == files@.len(),
            m == metas(files@),
            marks@.len() == n,
            pred == (|f: FileMetaView| f.overlaps(lo@, hi@)),
            forall|j: int| 0 <= j < n ==> marks@[j] == (#[trigger] m[j]).overlaps(lo@, hi@),
            metas(out@) == m.subrange(0, i as int).filter(pred),
        decreases n - i,
    {
        proof {
            let next = m.subrange(0, i + 1);
            assert(next.drop_last() =~= m.subrange(0, i as int));
            assert(next.last() == m[i as int]);
            reveal(Seq::filter);
        }
        if marks[i] {
            let ghost before = metas(out@);
            out.push(files[i].copy());
            assert(metas(out@) =~= before.push(m[i as int]));
        }
        i += 1;
    }
    proof {
        assert(m.subrange(0, i as int) =~= m);
        let chosen = metas(out@);
        assert(chosen == overlapping(m, lo@, hi@));
        assert forall|j: int| 0 <= j < chosen.len() implies (#[trigger] chosen[j]).within(
            lo@,
            hi@,
        ) by {
            m.lemma_filter_contains_rev(pred, chosen[j]);
            let ix = choose|ix: int| 0 <= ix < m.len() && m[ix] == chosen[j];
            assert(marks@[ix]);
        }
        if lo@ != begin@ {
            let j = choose|j: int| 0 <= j < n && marks@[j] && (#[trigger] m[j]).lo() == lo@;
            lemma_filter_has(m, pred, j);
        }
        if hi@ != end@ {
            let j = choose|j: int| 0 <= j < n && marks@[j] && (#[trigger] m[j]).hi() == hi@;
            lemma_filter_has(m, pred, j);
        }
    }
    (out, lo, hi)
}

/// An element that meets the test stands in the filtered list.
pub proof fn lemma_filter_has(s: Seq<FileMetaView>, pred: spec_fn(FileMetaView) -> bool, j: int)
    requires
        0 <= j < s.len(),
        pred(s[j]),
    ensures
        exists|i: int| 0 <= i < s.filter(pred).len() && #[trigger] s.filter(pred)[i] == s[j],
{
    s.lemma_filter_contains(pred, j);
    let f = s.filter(pred);
    assert(f.contains(s[j]));
}

/// What a read found in one place: a write buffer or a table.
#[derive(Debug)]
pub enum Lookup {
    /// The value of the key.
    Found(Vec<u8>),
    /// A tombstone: the key is deleted.
    Deleted,
    /// No entry of the key.
    Missing,
}

/// The place of the first result, from `from` on, that is not `Missing`; the
/// number of results where there is none.
pub open spec fn first_hit(results: Seq<Lookup>, from: int) -> int
    decreases results.len() - from,
{
    if from < 0 || from >= results.len() {
        results.len() as int
    } else if !(results[from] is Missing) {
        from
    } else {
        first_hit(results, from + 1)
    }
}

/// What a read through the tables comes to. `candidates` are the files to
/// consult, in order, and `results` what the first of them said, in the same
/// order. The first result that is not `Missing` decides: a value is
/// returned, a tombstone hides the key. The read is charged to the first
/// file where that file was consulted and did not hold the key.
#[verifier::loop_isolation(false)]
pub fn resolve_get(candidates: &Vec<(usize, usize)>, results: &Vec<Lookup>) -> (r: (
    Option<Vec<u8>>,
    GetStats,
))
    requires
        results@.len() <= candidates@.len(),
    ensures
        ({
            let d = first_hit(results@, 0);
            &&& d < results@.len() && results@[d] is Found ==> r.0.is_some() && r.0.unwrap()@
                == results@[d]->Found_0@
            &&& !(d < results@.len() && results@[d] is Found) ==> r.0.is_none()
        }),
        r.1.file == if results@.len() > 0 && results@[0] is Missing {
            Some(candidates@[0])
        } else {
            None
        },
{
    let file = if results.len() > 0 {
        match &results[0] {
            Lookup::Missing => Some(candidates[0]),
            _ => None,
        }
    } else {
        None
    };
    let mut i: usize = 0;
    while i < results.len()
        invariant
            i <= results@.len(),
            first_hit(results@, 0) == first_hit(results@, i as int),
        decreases results.len() - i,
    {
        match &results[i] {
            Lookup::Found(v) => {
                return (Some(copy_bytes(v.as_slice())), GetStats { file });
            },
            Lookup::Deleted => {
                return (None, GetStats { file });
            },
            Lookup::Missing => {},
        }
        i += 1;
    }
    (None, GetStats { file })
}

/// The place of the first file that does not end before `ukey`, found by
/// halving; the number of files where every file ends before it. Among files
/// that are disjoint and sorted, this is the one file that can hold `ukey`.
pub fn find_file(files: &Vec<FileMetaData>, ukey: &[u8]) -> (r: usize)
    requires
        all_sound(metas(files@)),
        sorted_disjoint(metas(files@)),
    ensures
        r <= files@.len(),
        forall|k: int| 0 <= k < r ==> lex_lt((#[trigger] metas(files@)[k]).hi(), ukey@),
        forall|k: int| r <= k < files@.len() ==> !lex_lt((#[trigger] metas(files@)[k]).hi(), ukey@),
{
    let ghost m = metas(files@);
    let mut lo: usize = 0;
    let mut hi: usize = files.len();
    while lo < hi
        invariant
            lo <= hi <= files@.len(),
            m == metas(files@),
            all_sound(m),
            sorted_disjoint(m),
            forall|k: int| 0 <= k < lo ==> lex_lt((#[trigger] m[k]).hi(), ukey@),
            forall|k: int| hi <= k < m.len() ==> !lex_lt((#[trigger] m[k]).hi(), ukey@),
        decreases hi - lo,
    {
        let mid: usize = lo + (hi - lo) / 2;
        assert(m[mid as int] == files@[mid as int]@);
        if bytes_lt(extract_user_key(files[mid].largest.as_slice()), ukey) {
            proof {
                assert forall|k: int| 0 <= k < mid + 1 implies lex_lt(
                    (#[trigger] m[k]).hi(),
                    ukey@,
                ) by {
                    if k < mid {
                        assert(lex_lt(m[k].hi(), m[mid as int].lo()));
                        assert(m[mid as int].sound());
                        lemma_lex_transitive(m[k].hi(), m[mid as int].lo(), m[mid as int].hi());
                        lemma_lex_transitive(m[k].hi(), m[mid as int].hi(), ukey@);
                    }
                }
            }
            lo = mid + 1;
        } else {
            proof {
                assert forall|k: int| mid <= k < m.len() implies !lex_lt(
                    (#[trigger] m[k]).hi(),
                    ukey@,
                ) by {
                    if k > mid {
                        assert(lex_lt(m[mid as int].hi(), m[k].lo()));
                        assert(m[k].sound());
                        lemma_lex_transitive(m[mid as int].hi(), m[k].lo(), m[k].hi());
                        lemma_lex_transitive(ukey@, m[mid as int].hi(), m[k].hi());
                        lemma_lex_trichotomy(ukey@, m[k].hi());
                    }
                }
            }
            hi = mid;
        }
    }
    lo
}

/// Which file a read consulted without finding the key: its level and its
/// place in the level.
#[derive(Clone, Copy, Debug)]
pub struct GetStats {
    pub file: Option<(usize, usize)>,
}

/// The set of live table files, level by level.
#[derive(Debug)]
pub struct Version {
    /// The files of each level. From level 1 on they are disjoint and listed
    /// by ascending key; level 0 may overlap.
    pub files: Vec<Vec<FileMetaData>>,
    /// Number of the file that reads have marked for compaction.
    pub file_to_compact: Option<FileNum>,
    /// Level of the file that reads have marked for compaction.
    pub file_to_compact_lvl: usize,
    /// The level with the highest score.
    pub compaction_level: Option<usize>,
    /// The highest score, in units of `1 / SCORE_ONE`.
    pub compaction_score: u128,
}

impl Version {
    /// The descriptors of level `l`.
    pub open spec fn level(&self, l: int) -> Seq<FileMetaView> {
        metas(self.files@[l]@)
    }

    /// The levels are all there, every file is sound, and from
    /// level 1 on the files are disjoint and sorted.
    pub open spec fn wf(&self) -> bool {
        &&& self.files@.len() == NUM_LEVELS
        &&& forall|l: int| 0 <= l < NUM_LEVELS ==> all_sound(#[trigger] self.level(l))
        &&& forall|l: int| 1 <= l < NUM_LEVELS ==> sorted_disjoint(#[trigger] self.level(l))
    }

    /// A version without files.
    pub fn new() -> (r: Version)
        ensures
            r.wf(),
            forall|l: int| 0 <= l < NUM_LEVELS ==> (#[trigger] r.level(l)).len() == 0,
            r.file_to_compact.is_none(),
            r.compaction_level.is_none(),
            r.compaction_score == 0,
    {
        let mut files: Vec<Vec<FileMetaData>> = Vec::new();
        let mut l: usize = 0;
        while l < NUM_LEVELS
            invariant
                l <= NUM_LEVELS,
                files@.len() == l,
                forall|k: int| 0 <= k < l ==> (#[trigger] files@[k])@.len() == 0,
            decreases NUM_LEVELS - l,
        {
            files.push(Vec::new());
            l += 1;
        }
        Version {
            files,
            file_to_compact: None,
            file_to_compact_lvl: 0,
            compaction_level: None,
            compaction_score: 0,
        }
    }

    /// Number of files at `level`.
    pub fn num_level_files(&self, level: usize) -> (r: usize)
        requires
            self.wf(),
            level < NUM_LEVELS,
        ensures
            r == self.level(level as int).len(),
    {
        self.files[level].len()
    }

    /// Whether some file at `level` meets the user-key range `[begin, end]`.
    pub fn overlap_in_level(&self, level: usize, begin: &[u8], end: &[u8]) -> (r: bool)
        requires
            self.wf(),
            level < NUM_LEVELS,
        ensures
            r == exists|i: int|
                0 <= i < self.level(level as int).len() && (#[trigger] self.level(
                    level as int,
                )[i]).overlaps(begin@, end@),
    {
        let files = &self.files[level];
        let mut i: usize = 0;
        while i < files.len()
            invariant
                i <= files.len(),
                files == &self.files@[level as int],
                forall|k: int|
                    0 <= k < i ==> !(#[trigger] self.level(level as int)[k]).overlaps(
                        begin@,
                        end@,
                    ),
            decreases files.len() - i,
        {
            if files[i].overlaps_range(begin, end) {
                assert(self.level(level as int)[i as int].overlaps(begin@, end@));
                return true;
            }
            i += 1;
        }
        false
    }

    /// The files at `level` whose user-key range meets `[begin, end]`. At
    /// level 0, where files may overlap each other, the range is first
    /// widened by every file that meets it until no further file does.
    pub fn overlapping_inputs(&self, level: usize, begin: &[u8], end: &[u8]) -> (r: Vec<
        FileMetaData,
    >)
        requires
            self.wf(),
            level < NUM_LEVELS,
        ensures
            level >= 1 ==> metas(r@) == overlapping(self.level(level as int), begin@, end@),
            level == 0 ==> exists|lo: Seq<u8>, hi: Seq<u8>|
                closed_over(self.level(0), metas(r@), begin@, end@, lo, hi),
    {
        if level == 0 {
            assert(all_sound(self.level(0)));
            let (files, lo, hi) = expand_overlapping(&self.files[0], begin, end);
            assert(closed_over(self.level(0), metas(files@), begin@, end@, lo@, hi@));
            files
        } else {
            files_overlapping(&self.files[level], begin, end)
        }
    }

    /// The files to read for an iterator over the whole version: the numbers
    /// of the level-0 files, each to be read by itself, the file listed last
    /// first; and for each deeper level the numbers of its files, to be read
    /// one behind the other.
    pub fn new_iters(&self) -> (r: (Vec<FileNum>, Vec<Vec<FileNum>>))
        requires
            self.wf(),
        ensures
            r.0@ == numbers(self.level(0)).reverse(),
            r.1@.len() == NUM_LEVELS - 1,
            forall|k: int|
                0 <= k < NUM_LEVELS - 1 ==> (#[trigger] r.1@[k])@ == numbers(self.level(k + 1)),
    {
        let listed = file_numbers(&self.files[0]);
        let mut level0: Vec<FileNum> = Vec::new();
        let mut i: usize = listed.len();
        while i > 0
            invariant
                i <= listed@.len(),
                level0@ == listed@.reverse().subrange(0, listed@.len() - i),
            decreases i,
        {
            i -= 1;
            level0.push(listed[i]);
            assert(level0@ =~= listed@.reverse().subrange(0, listed@.len() - i));
        }
        assert(listed@.reverse().subrange(0, listed@.len() as int) =~= listed@.reverse());
        let mut deeper: Vec<Vec<FileNum>> = Vec::new();
        let mut l: usize = 1;
        while l < NUM_LEVELS
            invariant
                1 <= l <= NUM_LEVELS,
                self.wf(),
                deeper@.len() == l - 1,
                forall|k: int|
                    0 <= k < l - 1 ==> (#[trigger] deeper@[k])@ == numbers(self.level(k + 1)),
            decreases NUM_LEVELS - l,
        {
            deeper.push(file_numbers(&self.files[l]));
            l += 1;
        }
        (level0, deeper)
    }

    /// Whether the file at place `p.1` of level `p.0` holds `ukey` in its
    /// user-key range.
    pub open spec fn covers_at(&self, p: (usize, usize), ukey: Seq<u8>) -> bool {
        &&& p.0 < NUM_LEVELS
        &&& p.1 < self.level(p.0 as int).len()
        &&& self.level(p.0 as int)[p.1 as int].covers(ukey)
    }

    /// The number of the file at place `p.1` of level `p.0`.
    pub open spec fn num_at(&self, p: (usize, usize)) -> u64 {
        self.level(p.0 as int)[p.1 as int].num
    }

    /// Whether two or more files hold `ukey` in their user-key range.
    pub open spec fn held_by_several(&self, ukey: Seq<u8>) -> bool {
        exists|p: (usize, usize), q: (usize, usize)|
            p != q && #[trigger] self.covers_at(p, ukey) && #[trigger] self.covers_at(q, ukey)
    }

    /// Whether the file at `p` is the one that a read of `ukey` consults
    /// first: it holds the key, no file at a level above it does, and at
    /// level 0 no file that holds the key has a higher number.
    pub open spec fn consulted_first(&self, p: (usize, usize), ukey: Seq<u8>) -> bool {
        &&& self.covers_at(p, ukey)
        &&& forall|q: (usize, usize)| #[trigger]
            self.covers_at(q, ukey) ==> p.0 <= q.0 && (q.0 == 0 ==> self.num_at(p)
                >= self.num_at(q))
    }

    /// Whether `after` is this version with one read charged to the file at
    /// `p`, and `r` tells whether that asks for a compaction: the file's
    /// allowance is one less, unless it was used up already; where it is
    /// used up now and no file was marked, the file is marked for compaction
    /// and `r` holds; nothing else changes.
    pub open spec fn charged(&self, p: (usize, usize), after: Version, r: bool) -> bool {
        let f = self.level(p.0 as int)[p.1 as int];
        let left = if f.allowed_seeks > 0 {
            (f.allowed_seeks - 1) as u64
        } else {
            0
        };
        &&& r == (left == 0 && self.file_to_compact.is_none())
        &&& forall|k: int|
            0 <= k < NUM_LEVELS && k != p.0 ==> #[trigger] after.level(k) == self.level(k)
        &&& after.level(p.0 as int) == self.level(p.0 as int).update(
            p.1 as int,
            FileMetaView { allowed_seeks: left, ..f },
        )
        &&& r ==> after.file_to_compact == Some(f.num) && after.file_to_compact_lvl == p.0
        &&& !r ==> after.file_to_compact == self.file_to_compact && after.file_to_compact_lvl
            == self.file_to_compact_lvl
        &&& after.compaction_level == self.compaction_level
        &&& after.compaction_score == self.compaction_score
    }

    /// The files to consult for a read of `ukey`, each as its level and its
    /// place in the level, in the order in which they are to be consulted:
    /// the files whose range holds the key, level by level, and at level 0
    /// the newest, which has the highest number, first. Below level 0 a
    /// level has at most one such file, which is found by halving.
    #[verifier::loop_isolation(false)]
    pub fn files_for_key(&self, ukey: &[u8]) -> (r: Vec<(usize, usize)>)
        requires
            self.wf(),
        ensures
            forall|k: int| 0 <= k < r@.len() ==> self.covers_at(#[trigger] r@[k], ukey@),
            forall|l: usize, i: usize| self.covers_at((l, i), ukey@) ==> r@.contains((l, i)),
            forall|k: int, j: int|
                0 <= k < j < r@.len() ==> (#[trigger] r@[k]).0 <= (#[trigger] r@[j]).0,
            forall|k: int, j: int|
                0 <= k < j < r@.len() && (#[trigger] r@[j]).0 == 0 ==> self.num_at(
                    #[trigger] r@[k],
                ) >= self.num_at(r@[j]),
            forall|k: int, j: int| 0 <= k < j < r@.len() ==> #[trigger] r@[k] != #[trigger] r@[j],
    {
        let mut out: Vec<(usize, usize)> = Vec::new();
        let l0 = &self.files[0];
        let mut i: usize = 0;
        while i < l0.len()
            invariant
                i <= l0@.len(),
                forall|k: int|
                    0 <= k < out@.len() ==> (#[trigger] out@[k]).0 == 0 && self.covers_at(
                        out@[k],
                        ukey@,
                    ),
                forall|x: usize| x < i && self.covers_at((0usize, x), ukey@) ==> out@.contains((0usize, x)),
                forall|k: int, j: int|
                    0 <= k < j < out@.len() ==> self.num_at(#[trigger] out@[k]) >= self.num_at(
                        #[trigger] out@[j],
                    ),
                forall|k: int| 0 <= k < out@.len() ==> (#[trigger] out@[k]).1 < i,
                forall|k: int, j: int|
                    0 <= k < j < out@.len() ==> #[trigger] out@[k] != #[trigger] out@[j],
            decreases l0.len() - i,
        {
            if l0[i].overlaps_range(ukey, ukey) {
                assert(self.level(0)[i as int].covers(ukey@));
                let num = l0[i].num;
                let mut p: usize = 0;
                while p < out.len() && l0[out[p].1].num >= num
                    invariant
                        p <= out@.len(),
                        forall|k: int| 0 <= k < p ==> self.num_at(#[trigger] out@[k]) >= num,
                    decreases out.len() - p,
                {
                    p += 1;
                }
                let ghost before = out@;
                out.insert(p, (0, i));
                proof {
                    assert forall|x: usize|
                        x < i + 1 && self.covers_at((0usize, x), ukey@) implies out@.contains(
                        (0usize, x),
                    ) by {
                        if x < i {
                            assert(before.contains((0usize, x)));
                            let k = choose|k: int| 0 <= k < before.len() && before[k] == (0usize, x);
                            if k < p {
                                assert(out@[k] == (0usize, x));
                            } else {
                                assert(out@[k + 1] == (0usize, x));
                            }
                        } else {
                            assert(out@[p as int] == (0usize, x));
                        }
                    }
                    assert forall|k: int, j: int| 0 <= k < j < out@.len() implies self.num_at(
                        #[trigger] out@[k],
                    ) >= self.num_at(#[trigger] out@[j]) by {
                        let bk = if k < p {
                            k
                        } else {
                            k - 1
                        };
                        let bj = if j < p {
                            j
                        } else {
                            j - 1
                        };
                        if k != p && j != p {
                            assert(self.num_at(before[bk]) >= self.num_at(before[bj]));
                        }
                    }
                    assert forall|k: int| 0 <= k < out@.len() implies (#[trigger] out@[k]).1 < i
                        + 1 by {
                        if k < p {
                            assert(before[k].1 < i);
                        } else if k > p {
                            assert(before[k - 1].1 < i);
                        }
                    }
                    assert forall|k: int, j: int| 0 <= k < j < out@.len() implies #[trigger] out@[k]
                        != #[trigger] out@[j] by {
                        let bk = if k < p {
                            k
                        } else {
                            k - 1
                        };
                        let bj = if j < p {
                            j
                        } else {
                            j - 1
                        };
                        if k != p && j != p {
                            assert(before[bk] != before[bj]);
                        } else if k == p {
                            assert(before[bj].1 < i);
                        } else {
                            assert(before[bk].1 < i);
                        }
                    }
                }
            }
            i += 1;
        }
        let ghost head = out@;
        let mut l: usize = 1;
        while l < NUM_LEVELS
            invariant
                1 <= l <= NUM_LEVELS,
                head.len() <= out@.len(),
                out@.subrange(0, head.len() as int) == head,
                forall|k: int| head.len() <= k < out@.len() ==> 1 <= (#[trigger] out@[k]).0 < l,
                forall|k: int| 0 <= k < out@.len() ==> self.covers_at(#[trigger] out@[k], ukey@),
                forall|a: usize, x: usize|
                    a < l && self.covers_at((a, x), ukey@) ==> out@.contains((a, x)),
                forall|k: int, j: int|
                    0 <= k < j < out@.len() ==> (#[trigger] out@[k]).0 <= (#[trigger] out@[j]).0,
                forall|k: int| 0 <= k < out@.len() ==> (#[trigger] out@[k]).0 < l,
                forall|k: int, j: int|
                    0 <= k < j < out@.len() ==> #[trigger] out@[k] != #[trigger] out@[j],
            decreases NUM_LEVELS - l,
        {
            let files = &self.files[l];
            let ghost m = self.level(l as int);
            assert(all_sound(m) && sorted_disjoint(m));
            let i = find_file(files, ukey);
            let ghost before = out@;
            let hit = i < files.len() && files[i].overlaps_range(ukey, ukey);
            if hit {
                out.push((l, i));
            }
            proof {
                assert(out@.subrange(0, head.len() as int) =~= head);
                assert forall|a: usize, x: usize|
                    a < l + 1 && self.covers_at((a, x), ukey@) implies out@.contains((a, x)) by {
                    if a == l {
                        assert(m[x as int].covers(ukey@));
                        if (x as int) < i {
                            assert(lex_lt(m[x as int].hi(), ukey@));
                        } else if x > i {
                            assert(lex_lt(m[i as int].hi(), m[x as int].lo()));
                            lemma_lex_transitive(m[i as int].hi(), m[x as int].lo(), ukey@);
                        }
                        assert(x == i);
                        assert(hit);
                        assert(out@[before.len() as int] == (a, x));
                    } else {
                        assert(before.contains((a, x)));
                        let k = choose|k: int| 0 <= k < before.len() && before[k] == (a, x);
                        assert(out@[k] == (a, x));
                    }
                }
                assert forall|k: int, j: int| 0 <= k < j < out@.len() implies (
                #[trigger] out@[k]).0 <= (#[trigger] out@[j]).0 by {
                    if j == before.len() {
                        if k < head.len() {
                            assert(out@[k] == head[k]);
                        }
                    } else {
                        assert(before[k].0 <= before[j].0);
                    }
                }
                assert forall|k: int| 0 <= k < out@.len() implies (#[trigger] out@[k]).0 < l
                    + 1 by {
                    if k < before.len() {
                        assert(before[k].0 < l);
                    }
                }
                assert forall|k: int, j: int| 0 <= k < j < out@.len() implies #[trigger] out@[k]
                    != #[trigger] out@[j] by {
                    if j == before.len() {
                        assert(before[k].0 < l);
                    } else {
                        assert(before[k] != before[j]);
                    }
                }
            }
            l += 1;
        }
        proof {
            assert forall|k: int, j: int|
                0 <= k < j < out@.len() && (#[trigger] out@[j]).0 == 0 implies self.num_at(
                #[trigger] out@[k],
            ) >= self.num_at(out@[j]) by {
                assert(j < head.len());
                assert(out@[j] == head[j] && out@[k] == head[k]);
            }
        }
        out
    }

    /// Takes a sample of the reads. Where two or more files hold the user
    /// key of `ikey` in their range, the read is charged to the file that a
    /// read of the key consults first, as `update_stats` charges it, and the
    /// result tells whether that asks for a compaction. Where fewer do,
    /// nothing changes and the result is false.
    pub fn record_read_sample(&mut self, ikey: &[u8]) -> (r: bool)
        requires
            old(self).wf(),
        ensures
            final(self).wf(),
            !old(self).held_by_several(user_key_of(ikey@)) ==> !r && *final(self) == *old(self),
            old(self).held_by_several(user_key_of(ikey@)) ==> exists|p: (usize, usize)|
                #[trigger] old(self).consulted_first(p, user_key_of(ikey@)) && old(self).charged(
                    p,
                    *final(self),
                    r,
                ),
    {
        let ghost ukey = user_key_of(ikey@);
        let found = self.files_for_key(extract_user_key(ikey));
        if found.len() >= 2 {
            let first = found[0];
            proof {
                assert(found@[0] != found@[1]);
                assert(self.covers_at(found@[0], ukey) && self.covers_at(found@[1], ukey));
                assert(self.held_by_several(ukey));
                assert forall|q: (usize, usize)| #[trigger] self.covers_at(q, ukey) implies first.0
                    <= q.0 && (q.0 == 0 ==> self.num_at(first) >= self.num_at(q)) by {
                    assert(found@.contains(q));
                    let j = choose|j: int| 0 <= j < found@.len() && found@[j] == q;
                    if j > 0 {
                        assert(found@[0].0 <= found@[j].0);
                    }
                }
                assert(self.consulted_first(first, ukey));
            }
            let r = self.update_stats(GetStats { file: Some(first) });
            assert(old(self).consulted_first(first, ukey) && old(self).charged(first, *self, r));
            r
        } else {
            proof {
                if self.held_by_several(ukey) {
                    let (p, q) = choose|p: (usize, usize), q: (usize, usize)|
                        p != q && #[trigger] self.covers_at(p, ukey) && #[trigger] self.covers_at(
                            q,
                            ukey,
                        );
                    assert(found@.contains(p) && found@.contains(q));
                    let a = choose|a: int| 0 <= a < found@.len() && found@[a] == p;
                    let b = choose|b: int| 0 <= b < found@.len() && found@[b] == q;
                    assert(a != b);
                }
            }
            false
        }
    }

    /// Bytes of the files at `level` that meet the user-key range
    /// `[begin, end]`.
    pub open spec fn overlap_bytes(&self, level: int, begin: Seq<u8>, end: Seq<u8>) -> int {
        total_size(overlapping(self.level(level), begin, end))
    }

    /// Whether a flushed write buffer with user keys in `[begin, end]` may be
    /// placed at `level`: no file there meets the range, and the files two
    /// levels further down that meet it hold no more bytes than one output
    /// file may overlap.
    pub open spec fn admits_flush(
        &self,
        opt: Options,
        level: int,
        begin: Seq<u8>,
        end: Seq<u8>,
    ) -> bool {
        &&& overlapping(self.level(level), begin, end).len() == 0
        &&& level + 2 < NUM_LEVELS ==> self.overlap_bytes(level + 2, begin, end)
            <= opt.spec_max_grandparent_overlap_bytes()
    }

    /// The level that a flushed write buffer with user keys in
    /// `[begin, end]` goes to: the deepest level, at most
    /// `MAX_MEM_COMPACT_LEVEL`, such that it and every level above it admit
    /// the flush; level 0 where level 0 itself does not.
    pub open spec fn flush_level(&self, opt: Options, begin: Seq<u8>, end: Seq<u8>) -> int {
        if !self.admits_flush(opt, 0, begin, end) {
            0
        } else if !self.admits_flush(opt, 1, begin, end) {
            0
        } else if !self.admits_flush(opt, 2, begin, end) {
            1
        } else {
            2
        }
    }

    fn level_admits_flush(&self, opt: &Options, level: usize, begin: &[u8], end: &[u8]) -> (r:
        bool)
        requires
            self.wf(),
            level <= MAX_MEM_COMPACT_LEVEL,
        ensures
            r == self.admits_flush(*opt, level as int, begin@, end@),
    {
        let here = files_overlapping(&self.files[level], begin, end);
        if here.len() > 0 {
            return false;
        }
        let below = files_overlapping(&self.files[level + 2], begin, end);
        total_file_size(&below) <= opt.max_grandparent_overlap_bytes()
    }

    /// The level at which to place a flushed write buffer whose user keys
    /// span `[smallest_user, largest_user]`.
    pub fn pick_memtable_output_level(
        &self,
        opt: &Options,
        smallest_user: &[u8],
        largest_user: &[u8],
    ) -> (r: usize)
        requires
            self.wf(),
        ensures
            r == self.flush_level(*opt, smallest_user@, largest_user@),
            r <= MAX_MEM_COMPACT_LEVEL,
    {
        let mut level: usize = 0;
        if !self.level_admits_flush(opt, 0, smallest_user, largest_user) {
            return 0;
        }
        while level < MAX_MEM_COMPACT_LEVEL
            invariant
                self.wf(),
                level <= MAX_MEM_COMPACT_LEVEL,
                forall|l: int|
                    0 <= l <= level ==> self.admits_flush(
                        *opt,
                        l,
                        smallest_user@,
                        largest_user@,
                    ),
                level < MAX_MEM_COMPACT_LEVEL ==> level == 0,
            decreases MAX_MEM_COMPACT_LEVEL - level,
        {
            if !self.level_admits_flush(opt, level + 1, smallest_user, largest_user) {
                return level;
            }
            level += 1;
            if level < MAX_MEM_COMPACT_LEVEL {
                if !self.level_admits_flush(opt, level + 1, smallest_user, largest_user) {
                    return level;
                }
                level += 1;
            }
        }
        level
    }

    /// Takes one read off the allowance of the file that `stats` names. When
    /// the allowance is used up and no file is marked yet, marks the file for
    /// compaction and asks for one.
    pub fn update_stats(&mut self, stats: GetStats) -> (r: bool)
        requires
            old(self).wf(),
            stats.file.is_some() ==> stats.file.unwrap().0 < NUM_LEVELS && stats.file.unwrap().1
                < old(self).level(stats.file.unwrap().0 as int).len(),
        ensures
            final(self).wf(),
            final(self).compaction_level == old(self).compaction_level,
            final(self).compaction_score == old(self).compaction_score,
            stats.file.is_none() ==> !r && *final(self) == *old(self),
            stats.file.is_some() ==> old(self).charged(stats.file.unwrap(), *final(self), r),
            stats.file.is_some() ==> {
                let (l, i) = stats.file.unwrap();
                let f = old(self).level(l as int)[i as int];
                let left = if f.allowed_seeks > 0 {
                    (f.allowed_seeks - 1) as u64
                } else {
                    0
                };
                &&& r == (left == 0 && old(self).file_to_compact.is_none())
                &&& forall|k: int|
                    0 <= k < NUM_LEVELS && k != l ==> final(self).level(k) == old(self).level(k)
                &&& final(self).level(l as int) == old(self).level(l as int).update(
                    i as int,
                    FileMetaView { allowed_seeks: left, ..f },
                )
                &&& r ==> final(self).file_to_compact == Some(f.num) && final(self).file_to_compact_lvl == l
                &&& !r ==> final(self).file_to_compact == old(self).file_to_compact && final(self).file_to_compact_lvl == old(self).file_to_compact_lvl
            },
    {
        match stats.file {
            None => false,
            Some((l, i)) => {
                let ghost before = self.level(l as int);
                let ghost all = self.files@;
                let mut level_files: Vec<FileMetaData> = Vec::new();
                let empty: Vec<FileMetaData> = Vec::new();
                let mut taken = self.files.remove(l);
                level_files.append(&mut taken);
                assert(level_files@ =~= all[l as int]@);
                let mut f = level_files.remove(i);
                let left: u64 = if f.allowed_seeks > 0 {
                    f.allowed_seeks - 1
                } else {
                    0
                };
                f.allowed_seeks = left;
                let num = f.num;
                level_files.insert(i, f);
                self.files.insert(l, level_files);
                let marked = left == 0 && self.file_to_compact.is_none();
                if marked {
                    self.file_to_compact = Some(num);
                    self.file_to_compact_lvl = l;
                }
                proof {
                    assert(self.files@.len() == NUM_LEVELS);
                    assert(self.level(l as int) =~= before.update(
                        i as int,
                        FileMetaView { allowed_seeks: left, ..before[i as int] },
                    ));
                    assert forall|k: int| 0 <= k < NUM_LEVELS && k != l implies self.level(k)
                        == old(self).level(k) by {
                        assert(self.files@[k] == all[k]);
                    }
                    assert forall|k: int| 0 <= k < NUM_LEVELS implies all_sound(
                        #[trigger] self.level(k),
                    ) by {
                        assert(all_sound(old(self).level(k)));
                        assert(self.files@[k] == all[k] || k == l);
                        if k == l {
                            assert forall|j: int| 0 <= j < self.level(k).len() implies (
                            #[trigger] self.level(k)[j]).sound() by {
                                assert(before[j].sound());
                            }
                        }
                    }
                    assert forall|k: int| 1 <= k < NUM_LEVELS implies sorted_disjoint(
                        #[trigger] self.level(k),
                    ) by {
                        assert(sorted_disjoint(old(self).level(k)));
                        assert(self.files@[k] == all[k] || k == l);
                        if k == l {
                            assert forall|a: int, b: int|
                                0 <= a < b < self.level(k).len() implies lex_lt(
                                (#[trigger] self.level(k)[a]).hi(),
                                (#[trigger] self.level(k)[b]).lo(),
                            ) by {
                                assert(lex_lt(before[a].hi(), before[b].lo()));
                            }
                        }
                    }
                }
                marked
            },
        }
    }
}

} // verus!
