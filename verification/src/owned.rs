//! A logical volume reader that owns its physical-volume reader and carries
//! its own copy of the volume's mapping onto the device, so it does not
//! borrow the parsed [`Lvm2`].
//!
//! The mapping is resolved when the reader is built: for each segment, the
//! range of volume bytes it covers and the device offset where that range
//! begins. Seeking only moves the position; reading looks up the segment
//! that holds the position.
use vstd::prelude::*;

use crate::header::DataAreaDescriptor;
use crate::lv::{
    area_index, area_offset, area_offset_exec, find_segment, is_linear, is_seek_fail, lemma_find_segment_found,
    lemma_floor_mul, lemma_in_segment, locate, seek_target, seek_target_exec, spec_plan_seek,
    AreaFail, OpenLvError, SeekFail, SeekPlan, SeekPos, SpecOpenLV, LV,
};
use crate::metadata::{SegmentDesc, SpecSegment};
use crate::namemap::{pairs_view, str_eq};
use crate::{find_lv_by_id, segment_end, Lvm2};
use crate::namemap::map_get;

verus! {

broadcast use {vstd::string::group_string_axioms, vstd::seq_lib::group_to_multiset_ensures};

/// One segment's mapping: volume bytes `[lv_start, lv_end)` lie on the
/// device from byte `pv_base` on.
#[derive(Clone, Copy, Debug, PartialEq, Eq, Structural)]
pub struct SegmentMap {
    pub lv_start: u64,
    pub lv_end: u64,
    pub pv_base: u64,
}

/// The mapping of one segment with extents of `eb` bytes, on the physical
/// volume `pv_name` whose data areas are `dds`. The segment's first and last
/// bytes must lie in the same data area.
pub open spec fn map_segment(
    s: SpecSegment,
    eb: u64,
    pv_name: Seq<char>,
    dds: Seq<DataAreaDescriptor>,
) -> Result<SegmentMap, SeekFail> {
    if !is_linear(s) {
        Err(SeekFail::Unsupported("segment is not linear"@))
    } else {
        match s.stripes {
            None => Err(SeekFail::Unsupported("segment has no stripes"@)),
            Some((pv, loc)) => if pv != pv_name {
                Err(SeekFail::Unsupported("segment data is on a different PV than the one opened"@))
            } else if s.start_extent * eb > u64::MAX || s.extent_count * eb > u64::MAX
                || s.start_extent * eb + s.extent_count * eb > u64::MAX || loc * eb > u64::MAX {
                Err(SeekFail::SeekOverflow)
            } else {
                let first = (loc * eb) as u64;
                let bytes = s.extent_count * eb;
                let map = SegmentMap {
                    lv_start: (s.start_extent * eb) as u64,
                    lv_end: (s.start_extent * eb + bytes) as u64,
                    pv_base: 0,
                };
                match area_offset(dds, first, 0) {
                    Err(AreaFail::Overflow) => Err(SeekFail::SeekOverflow),
                    Err(AreaFail::Beyond) => Err(
                        SeekFail::Unsupported("data is beyond the end of this PV"@),
                    ),
                    Ok(base) => if bytes == 0 {
                        Ok(SegmentMap { pv_base: base, ..map })
                    } else if first + bytes - 1 > u64::MAX {
                        Err(SeekFail::SeekOverflow)
                    } else {
                        let last = (first + bytes - 1) as u64;
                        match area_offset(dds, last, 0) {
                            Err(AreaFail::Overflow) => Err(SeekFail::SeekOverflow),
                            Err(AreaFail::Beyond) => Err(
                                SeekFail::Unsupported("data is beyond the end of this PV"@),
                            ),
                            Ok(_) => if area_index(dds, last, 0) != area_index(dds, first, 0) {
                                Err(SeekFail::Unsupported("data is beyond the end of this PV"@))
                            } else {
                                Ok(SegmentMap { pv_base: base, ..map })
                            },
                        }
                    },
                }
            },
        }
    }
}

/// The mappings of all segments, in order; the first segment that cannot be
/// mapped is the error.
pub open spec fn map_segments(
    segs: Seq<(Seq<char>, SpecSegment)>,
    eb: u64,
    pv_name: Seq<char>,
    dds: Seq<DataAreaDescriptor>,
) -> Result<Seq<SegmentMap>, SeekFail>
    decreases segs.len(),
{
    if segs.len() == 0 {
        Ok(Seq::empty())
    } else {
        match map_segments(segs.drop_last(), eb, pv_name, dds) {
            Err(f) => Err(f),
            Ok(ms) => match map_segment(segs.last().1, eb, pv_name, dds) {
                Err(f) => Err(f),
                Ok(m) => Ok(ms.push(m)),
            },
        }
    }
}

pub proof fn lemma_map_segments_err_stays(
    segs: Seq<(Seq<char>, SpecSegment)>,
    eb: u64,
    pv_name: Seq<char>,
    dds: Seq<DataAreaDescriptor>,
    n: int,
)
    requires
        0 <= n <= segs.len(),
        map_segments(segs.take(n), eb, pv_name, dds) is Err,
    ensures
        map_segments(segs, eb, pv_name, dds) == map_segments(segs.take(n), eb, pv_name, dds),
    decreases segs.len() - n,
{
    if n < segs.len() {
        assert(segs.take(n + 1).drop_last() =~= segs.take(n));
        lemma_map_segments_err_stays(segs, eb, pv_name, dds, n + 1);
    } else {
        assert(segs.take(n) =~= segs);
    }
}

/// Segment mappings in order of their first volume byte.
pub open spec fn sorted_by_start(s: Seq<SegmentMap>) -> bool {
    forall|i: int, j: int| 0 <= i < j < s.len() ==> (#[trigger] s[i]).lv_start <= (#[trigger] s[j]).lv_start
}

/// Each mapping covers a range whose end is not below its start.
pub open spec fn ranges_wf(s: Seq<SegmentMap>) -> bool {
    forall|i: int| 0 <= i < s.len() ==> (#[trigger] s[i]).lv_start <= s[i].lv_end
}

/// The length of a volume whose sorted mappings are `s`: the end of the
/// last one, or zero.
pub open spec fn mapped_len(s: Seq<SegmentMap>) -> u64 {
    if s.len() == 0 {
        0
    } else {
        s.last().lv_end
    }
}

/// `k` splits `s` into the mappings that start at or before `pos` and
/// those that start after it.
pub open spec fn is_split(s: Seq<SegmentMap>, pos: u64, k: int) -> bool {
    &&& 0 <= k <= s.len()
    &&& forall|j: int| 0 <= j < k ==> (#[trigger] s[j]).lv_start <= pos
    &&& forall|j: int| k <= j < s.len() ==> (#[trigger] s[j]).lv_start > pos
}

/// The mapping that holds volume byte `pos`: the last one that starts at or
/// before `pos`, when `pos` lies before its end.
pub open spec fn segment_index(s: Seq<SegmentMap>, pos: u64) -> Option<int> {
    let k = choose|k: int| is_split(s, pos, k);
    if k == 0 {
        None
    } else if pos < s[k - 1].lv_end {
        Some(k - 1)
    } else {
        None
    }
}

pub proof fn lemma_split_unique(s: Seq<SegmentMap>, pos: u64, k: int)
    requires
        is_split(s, pos, k),
    ensures
        (choose|k2: int| is_split(s, pos, k2)) == k,
{
    let k2 = choose|k2: int| is_split(s, pos, k2);
    assert(is_split(s, pos, k2));
    if k2 < k {
        assert(s[k2].lv_start > pos);
    } else if k < k2 {
        assert(s[k].lv_start > pos);
    }
}

/// The mappings of the segments `segs` of a volume of `lvm`; an extent size
/// beyond `u64` is an overflow.
pub open spec fn build_maps(lvm: crate::SpecLvm2, segs: Seq<(Seq<char>, SpecSegment)>) -> Result<
    Seq<SegmentMap>,
    SeekFail,
> {
    match crate::extent_bytes(lvm) {
        None => Err(SeekFail::SeekOverflow),
        Some(eb) => map_segments(segs, eb, lvm.pv_name, lvm.pvh.data_descriptors),
    }
}

/// A reader just built from the mappings `ms`: the same mappings, sorted by
/// their first volume byte, each ending no earlier than it starts, the
/// length being the end of the last one, and the position at zero.
pub open spec fn fresh_reader(w: SpecOwned, ms: Seq<SegmentMap>) -> bool {
    &&& w.segments.to_multiset() == ms.to_multiset()
    &&& sorted_by_start(w.segments)
    &&& ranges_wf(w.segments)
    &&& w.lv_len == mapped_len(w.segments)
    &&& w.position == 0
}

/// The reader as the specification sees it (without its physical-volume reader).
pub struct SpecOwned {
    pub segments: Seq<SegmentMap>,
    pub lv_len: u64,
    pub position: u64,
}

/// The sorted mappings of a volume and its length.
struct SegmentTable {
    segments: Vec<SegmentMap>,
    lv_len: u64,
}

impl SegmentTable {
    #[verifier::type_invariant]
    spec fn inv(self) -> bool {
        &&& sorted_by_start(self.segments@)
        &&& ranges_wf(self.segments@)
        &&& self.lv_len == mapped_len(self.segments@)
    }
}

impl SegmentTable {
    /// The mapping that holds volume byte `lv_pos`.
    fn find_segment(&self, lv_pos: u64) -> (r: Option<&SegmentMap>)
        ensures
            match (r, segment_index(self.segments@, lv_pos)) {
                (Some(m), Some(i)) => 0 <= i < self.segments@.len() && *m == self.segments@[i],
                (None, None) => true,
                _ => false,
            },
            r matches Some(m) ==> m.lv_start <= lv_pos && lv_pos < m.lv_end,
    {
        proof {
            use_type_invariant(self);
        }
        // Binary search for the number of mappings that start at or before `lv_pos`.
        let mut lo: usize = 0;
        let mut hi: usize = self.segments.len();
        while lo < hi
            invariant
                0 <= lo <= hi <= self.segments@.len(),
                sorted_by_start(self.segments@),
                forall|j: int| 0 <= j < lo ==> (#[trigger] self.segments@[j]).lv_start <= lv_pos,
                forall|j: int| hi <= j < self.segments@.len() ==> (#[trigger] self.segments@[j]).lv_start > lv_pos,
            decreases hi - lo,
        {
            let mid = lo + (hi - lo) / 2;
            if self.segments[mid].lv_start <= lv_pos {
                lo = mid + 1;
            } else {
                hi = mid;
            }
        }
        proof {
            lemma_split_unique(self.segments@, lv_pos, lo as int);
        }
        if lo == 0 {
            return None;
        }
        let s = &self.segments[lo - 1];
        if lv_pos < s.lv_end {
            Some(s)
        } else {
            None
        }
    }
}

/// A lifetime-free, owning reader of a logical volume.
pub struct OwnedLvReader<T> {
    reader: T,
    table: SegmentTable,
    position: u64,
}

impl<T> View for OwnedLvReader<T> {
    type V = SpecOwned;

    closed spec fn view(&self) -> SpecOwned {
        SpecOwned {
            segments: self.table.segments@,
            lv_len: self.table.lv_len,
            position: self.position,
        }
    }
}

/// Inserts `m` after every mapping that starts at or before it.
fn insert_sorted(v: &mut Vec<SegmentMap>, m: SegmentMap)
    requires
        sorted_by_start(old(v)@),
    ensures
        sorted_by_start(final(v)@),
        final(v)@.to_multiset() == old(v)@.to_multiset().insert(m),
        final(v)@.len() == old(v)@.len() + 1,
        final(v)@.len() > 0,
        forall|i: int| 0 <= i < final(v)@.len() ==> (#[trigger] final(v)@[i] == m || old(v)@.contains(final(v)@[i])),
{
    let mut i: usize = v.len();
    while i > 0 && v[i - 1].lv_start > m.lv_start
        invariant
            i <= v@.len(),
            v@ == old(v)@,
            sorted_by_start(v@),
            forall|j: int| i <= j < v@.len() ==> (#[trigger] v@[j]).lv_start > m.lv_start,
        decreases i,
    {
        i = i - 1;
    }
    let ghost before = v@;
    v.insert(i, m);
    proof {
        assert(v@ == before.insert(i as int, m));
        assert forall|a: int, b: int| 0 <= a < b < v@.len() implies (#[trigger] v@[a]).lv_start
            <= (#[trigger] v@[b]).lv_start by {
            if b < i {
            } else if b == i {
                if a < i {
                    assert(v@[a] == before[a]);
                    if i > 0 {
                        assert(before[i - 1].lv_start <= m.lv_start);
                        assert(before[a].lv_start <= before[i - 1].lv_start);
                    }
                }
            } else if a == i {
                assert(v@[b] == before[b - 1]);
            } else if a < i {
                assert(v@[a] == before[a]);
                assert(v@[b] == before[b - 1]);
            } else {
                assert(v@[a] == before[a - 1]);
                assert(v@[b] == before[b - 1]);
            }
        }
        assert forall|j: int| 0 <= j < v@.len() implies (#[trigger] v@[j] == m || old(v)@.contains(v@[j])) by {
            if j < i {
                assert(v@[j] == before[j]);
            } else if j > i {
                assert(v@[j] == before[j - 1]);
            }
        }
    }
}

impl<T> OwnedLvReader<T> {
    /// Builds a reader of `lv`, a logical volume of `lvm`, over the
    /// physical-volume reader `reader`: maps every segment, then orders the
    /// mappings by their first volume byte. Fails with the first segment that
    /// is not linear, has no stripes, lies on another physical volume or
    /// beyond the data areas, or whose offsets overflow.
    pub(crate) fn build<E>(lvm: &Lvm2, lv: LV<'_>, reader: T) -> (r: Result<Self, OpenLvError<E>>)
        ensures
            match (r, build_maps(lvm@, lv@.1.segments)) {
                (Ok(o), Ok(ms)) => fresh_reader(o@, ms) && o.reader_spec() == reader,
                (Err(e), Err(f)) => is_seek_fail(e, f),
                _ => false,
            },
    {
        let eb = match lvm.extent_size() {
            Some(eb) => eb,
            None => return Err(OpenLvError::SeekOverflow),
        };
        let pv_name = lvm.pv_name();
        let dds = &lvm.pv_header().data_descriptors;
        let segs = &lv.raw_metadata().segments.entries;
        let ghost sv = lv@.1.segments;
        assert(sv == pairs_view(segs@));
        let mut out: Vec<SegmentMap> = Vec::new();
        let ghost mut mapped: Seq<SegmentMap> = Seq::empty();
        let mut i: usize = 0;
        assert(sv.take(0) =~= Seq::<(Seq<char>, SpecSegment)>::empty());
        while i < segs.len()
            invariant
                sv == pairs_view(segs@),
                sv == lv@.1.segments,
                crate::extent_bytes(lvm@) == Some(eb),
                pv_name@ == lvm@.pv_name,
                dds@ == lvm@.pvh.data_descriptors,
                i <= segs@.len(),
                map_segments(sv.take(i as int), eb, pv_name@, dds@) == Ok::<_, SeekFail>(mapped),
                out@.to_multiset() == mapped.to_multiset(),
                sorted_by_start(out@),
                ranges_wf(out@),
            decreases segs@.len() - i,
        {
            assert(sv.take(i + 1).drop_last() =~= sv.take(i as int));
            assert(sv.take(i + 1).last() == sv[i as int]);
            assert(sv[i as int].1 == segs@[i as int].1@);
            let m = match map_segment_exec(&segs[i].1, eb, pv_name, dds) {
                Ok(m) => m,
                Err(e) => {
                    proof {
                        let f = map_segment(sv[i as int].1, eb, pv_name@, dds@)->Err_0;
                        assert(map_segments(sv.take(i + 1), eb, pv_name@, dds@) == Err::<Seq<SegmentMap>, SeekFail>(f));
                        lemma_map_segments_err_stays(sv, eb, pv_name@, dds@, i + 1);
                        assert(map_segments(sv, eb, pv_name@, dds@) == Err::<Seq<SegmentMap>, SeekFail>(f));
                    }
                    return Err(e);
                },
            };
            let ghost before = out@;
            insert_sorted(&mut out, m);
            proof {
                mapped = mapped.push(m);
                assert forall|j: int| 0 <= j < out@.len() implies (#[trigger] out@[j]).lv_start <= out@[j].lv_end by {
                    if out@[j] != m {
                        assert(before.contains(out@[j]));
                        let k = choose|k: int| 0 <= k < before.len() && before[k] == out@[j];
                        assert(before[k].lv_start <= before[k].lv_end);
                    }
                }
            }
            i = i + 1;
        }
        assert(sv.take(segs@.len() as int) =~= sv);
        let lv_len = if out.len() == 0 {
            0
        } else {
            out[out.len() - 1].lv_end
        };
        Ok(OwnedLvReader { reader, table: SegmentTable { segments: out, lv_len }, position: 0 })
    }

    /// The physical-volume reader.
    pub closed spec fn reader_spec(&self) -> T {
        self.reader
    }

    /// The length of the volume in bytes: the end of the last mapping.
    pub fn len(&self) -> (r: u64)
        ensures
            r == self@.lv_len,
    {
        self.table.lv_len
    }

    pub fn is_empty(&self) -> (r: bool)
        ensures
            r == (self@.lv_len == 0),
    {
        self.table.lv_len == 0
    }

    /// Gives back the physical-volume reader.
    pub fn into_inner(self) -> (r: T)
        ensures
            r == self.reader_spec(),
    {
        self.reader
    }

    /// The current position in the volume.
    pub fn position(&self) -> (r: u64)
        ensures
            r == self@.position,
    {
        self.position
    }

}

fn map_segment_exec<E>(s: &SegmentDesc, eb: u64, pv_name: &str, dds: &Vec<DataAreaDescriptor>) -> (r: Result<SegmentMap, OpenLvError<E>>)
    ensures
        match (r, map_segment(s@, eb, pv_name@, dds@)) {
            (Ok(m), Ok(sm)) => m == sm,
            (Err(e), Err(f)) => is_seek_fail(e, f),
            _ => false,
        },
{
    if !(str_eq(s.seg_type.as_str(), "striped") && s.stripe_count == Some(1u64)) {
        return Err(OpenLvError::Unsupported("segment is not linear"));
    }
    let (pv, loc) = match &s.stripes {
        None => return Err(OpenLvError::Unsupported("segment has no stripes")),
        Some(x) => x,
    };
    if !str_eq(pv.as_str(), pv_name) {
        return Err(OpenLvError::Unsupported("segment data is on a different PV than the one opened"));
    }
    let lv_start = match s.start_extent.checked_mul(eb) {
        Some(x) => x,
        None => return Err(OpenLvError::SeekOverflow),
    };
    let seg_bytes = match s.extent_count.checked_mul(eb) {
        Some(x) => x,
        None => return Err(OpenLvError::SeekOverflow),
    };
    let lv_end = match lv_start.checked_add(seg_bytes) {
        Some(x) => x,
        None => return Err(OpenLvError::SeekOverflow),
    };
    let t = match loc.checked_mul(eb) {
        Some(x) => x,
        None => return Err(OpenLvError::SeekOverflow),
    };
    let (first_area, base) = match area_offset_exec(dds, t) {
        Ok(x) => x,
        Err(AreaFail::Overflow) => return Err(OpenLvError::SeekOverflow),
        Err(AreaFail::Beyond) => return Err(OpenLvError::Unsupported("data is beyond the end of this PV")),
    };
    if seg_bytes == 0 {
        return Ok(SegmentMap { lv_start, lv_end, pv_base: base });
    }
    // The segment's last byte must lie in the same data area as its first.
    let last = match t.checked_add(seg_bytes - 1) {
        Some(x) => x,
        None => return Err(OpenLvError::SeekOverflow),
    };
    match area_offset_exec(dds, last) {
        Ok((last_area, _)) => if last_area != first_area {
            Err(OpenLvError::Unsupported("data is beyond the end of this PV"))
        } else {
            Ok(SegmentMap { lv_start, lv_end, pv_base: base })
        },
        Err(AreaFail::Overflow) => Err(OpenLvError::SeekOverflow),
        Err(AreaFail::Beyond) => Err(OpenLvError::Unsupported("data is beyond the end of this PV")),
    }
}


/// A read of up to `buf_len` bytes at the reader's position: nothing for an
/// empty buffer or a position that no mapping holds; otherwise the device
/// offset of the position and how many bytes to read there, up to the end
/// of the mapping.
pub open spec fn spec_plan_read(o: SpecOwned, buf_len: usize) -> Result<Option<(u64, usize)>, SeekFail> {
    if buf_len == 0 {
        Ok(None)
    } else {
        match segment_index(o.segments, o.position) {
            None => Ok(None),
            Some(i) => {
                let s = o.segments[i];
                let rem = s.lv_end - o.position;
                let len = if buf_len <= rem {
                    buf_len as int
                } else {
                    rem
                };
                let off = s.pv_base + (o.position - s.lv_start);
                if off > u64::MAX {
                    Err(SeekFail::SeekOverflow)
                } else {
                    Ok(Some((off as u64, len as usize)))
                }
            },
        }
    }
}

impl<T> OwnedLvReader<T> {
    /// Decides the next read: `Ok(None)` means the read yields no bytes;
    /// `Ok(Some((offset, len)))` means the caller seeks its reader to
    /// `offset`, reads at most `len` bytes, and reports the count to
    /// [`Self::advance`].
    pub fn plan_read<E>(&self, buf_len: usize) -> (r: Result<Option<(u64, usize)>, OpenLvError<E>>)
        ensures
            match (r, spec_plan_read(self@, buf_len)) {
                (Ok(x), Ok(sx)) => x == sx,
                (Err(e), Err(f)) => is_seek_fail(e, f),
                _ => false,
            },
            r matches Ok(Some((_, n))) ==> 0 < n <= buf_len,
            self@.position >= self@.lv_len ==> r matches Ok(None),
    {
        proof {
            use_type_invariant(&self.table);
            if self@.position >= self@.lv_len {
                law_read_past_end_is_empty(self@, buf_len);
            }
        }
        if buf_len == 0 {
            return Ok(None);
        }
        let seg = match self.table.find_segment(self.position) {
            Some(s) => s,
            None => return Ok(None),
        };
        let remaining = seg.lv_end - self.position;
        let len: usize = if (buf_len as u64) > remaining {
            remaining as usize
        } else {
            buf_len
        };
        match seg.pv_base.checked_add(self.position - seg.lv_start) {
            Some(off) => Ok(Some((off, len))),
            None => Err(OpenLvError::SeekOverflow),
        }
    }

    /// Moves the position; seeking past the end is allowed.
    pub fn seek<E>(&mut self, pos: SeekPos) -> (r: Result<u64, OpenLvError<E>>)
        ensures
            match seek_target(old(self)@.lv_len, old(self)@.position, pos) {
                Some(p) => r == Ok::<u64, OpenLvError<E>>(p) && final(self)@ == (SpecOwned {
                    position: p,
                    ..old(self)@
                }),
                None => r matches Err(OpenLvError::SeekOverflow) && final(self)@ == old(self)@,
            },
            final(self).reader_spec() == old(self).reader_spec(),
    {
        match seek_target_exec(self.table.lv_len, self.position, pos) {
            Some(p) => {
                self.position = p;
                Ok(p)
            },
            None => Err(OpenLvError::SeekOverflow),
        }
    }

    /// Records that a read has taken `n` bytes.
    pub fn advance(&mut self, n: usize)
        ensures
            final(self)@ == (SpecOwned {
                position: if old(self)@.position + n > u64::MAX {
                    u64::MAX
                } else {
                    (old(self)@.position + n) as u64
                },
                ..old(self)@
            }),
            final(self).reader_spec() == old(self).reader_spec(),
    {
        self.position = self.position.saturating_add(n as u64);
    }

    /// The physical-volume reader, to carry out planned reads.
    pub fn reader_mut(&mut self) -> (r: &mut T)
        ensures
            *r == old(self).reader_spec(),
            final(self).reader_spec() == *final(r),
            final(self)@ == old(self)@,
    {
        &mut self.reader
    }
}

impl Lvm2 {
    /// Builds an owning reader of the logical volume named `name`: `Ok(None)`
    /// when there is no such volume.
    pub fn open_lv_owned_by_name<T, E>(&self, name: &str, reader: T) -> (r: Result<Option<OwnedLvReader<T>>, OpenLvError<E>>)
        ensures
            match map_get(self@.vg.logical_volumes, name@) {
                None => r matches Ok(None),
                Some(d) => match (r, build_maps(self@, d.segments)) {
                    (Ok(Some(o)), Ok(ms)) => fresh_reader(o@, ms) && o.reader_spec() == reader,
                    (Err(e), Err(f)) => is_seek_fail(e, f),
                    _ => false,
                },
            },
    {
        match self.vg_config_lookup(name) {
            None => Ok(None),
            Some(lv) => Ok(Some(OwnedLvReader::build(self, lv, reader)?)),
        }
    }

    /// Builds an owning reader of the first logical volume, in name order,
    /// whose identifier is `id`: `Ok(None)` when there is none.
    pub fn open_lv_owned_by_id<T, E>(&self, id: &str, reader: T) -> (r: Result<Option<OwnedLvReader<T>>, OpenLvError<E>>)
        ensures
            match find_lv_by_id(self@.vg.logical_volumes, id@, 0) {
                None => r matches Ok(None),
                Some(i) => match (r, build_maps(self@, self@.vg.logical_volumes[i].1.segments)) {
                    (Ok(Some(o)), Ok(ms)) => fresh_reader(o@, ms) && o.reader_spec() == reader,
                    (Err(e), Err(f)) => is_seek_fail(e, f),
                    _ => false,
                },
            },
    {
        match self.lv_by_id(id) {
            None => Ok(None),
            Some(lv) => Ok(Some(OwnedLvReader::build(self, lv, reader)?)),
        }
    }
}


// ---------------------------------------------------------------------------
// The owning reader agrees with the borrowed one

/// The segments cover pairwise disjoint, non-empty extent ranges, each
/// ending within `u64`.
pub open spec fn segments_disjoint(segs: Seq<(Seq<char>, SpecSegment)>) -> bool {
    &&& forall|i: int| 0 <= i < segs.len() ==> (#[trigger] segs[i].1).extent_count > 0
    &&& forall|i: int| 0 <= i < segs.len() ==> segment_end(#[trigger] segs[i].1) <= u64::MAX
    &&& forall|i: int, j: int|
        0 <= i < segs.len() && 0 <= j < segs.len() && i != j ==> segment_end(#[trigger] segs[i].1)
            <= segs[j].1.start_extent || segment_end(#[trigger] segs[j].1) <= segs[i].1.start_extent
}

proof fn lemma_map_segments_each(
    segs: Seq<(Seq<char>, SpecSegment)>,
    eb: u64,
    pv_name: Seq<char>,
    dds: Seq<DataAreaDescriptor>,
)
    ensures
        map_segments(segs, eb, pv_name, dds) matches Ok(ms) ==> {
            &&& ms.len() == segs.len()
            &&& forall|j: int|
                0 <= j < segs.len() ==> map_segment(#[trigger] segs[j].1, eb, pv_name, dds) == Ok::<SegmentMap, SeekFail>(ms[j])
        },
    decreases segs.len(),
{
    if segs.len() > 0 {
        let d = segs.drop_last();
        lemma_map_segments_each(d, eb, pv_name, dds);
        if let Ok(ms) = map_segments(segs, eb, pv_name, dds) {
            assert forall|j: int| 0 <= j < segs.len() implies map_segment(#[trigger] segs[j].1, eb, pv_name, dds)
                == Ok::<SegmentMap, SeekFail>(ms[j]) by {
                if j < d.len() {
                    assert(d[j] == segs[j]);
                }
            }
        }
    }
}

proof fn lemma_split_exists(s: Seq<SegmentMap>, pos: u64)
    requires
        sorted_by_start(s),
    ensures
        exists|k: int| is_split(s, pos, k),
    decreases s.len(),
{
    if s.len() == 0 {
        assert(is_split(s, pos, 0));
    } else {
        let d = s.drop_last();
        assert(sorted_by_start(d)) by {
            assert forall|i: int, j: int| 0 <= i < j < d.len() implies (#[trigger] d[i]).lv_start
                <= (#[trigger] d[j]).lv_start by {
                assert(d[i] == s[i] && d[j] == s[j]);
            }
        }
        lemma_split_exists(d, pos);
        let k0 = choose|k: int| is_split(d, pos, k);
        if s.last().lv_start <= pos {
            if k0 < d.len() {
                assert(d[k0] == s[k0]);
                assert(s[k0].lv_start <= s[s.len() - 1].lv_start);
            }
            assert forall|j: int| 0 <= j < s.len() implies (#[trigger] s[j]).lv_start <= pos by {
                if j < d.len() {
                    assert(d[j] == s[j]);
                }
            }
            assert(is_split(s, pos, s.len() as int));
        } else {
            assert forall|j: int| 0 <= j < k0 implies (#[trigger] s[j]).lv_start <= pos by {
                assert(d[j] == s[j]);
            }
            assert forall|j: int| k0 <= j < s.len() implies (#[trigger] s[j]).lv_start > pos by {
                if j < d.len() {
                    assert(d[j] == s[j]);
                }
            }
            assert(is_split(s, pos, k0));
        }
    }
}

proof fn lemma_scaled(a: int, b: int, c: int, p: int, eb: int)
    by (nonlinear_arith)
    requires
        eb > 0,
        a >= 0,
        b >= 0,
        c >= 0,
        p >= 0,
    ensures
        a * eb <= b * eb ==> a <= b,
        a * eb <= p ==> a <= p / eb,
        (a + c) * eb == a * eb + c * eb,
        a * eb >= 0,
{
}

/// What a successful mapping of a segment is made of.
proof fn lemma_map_segment_ok(
    s: SpecSegment,
    eb: u64,
    pv_name: Seq<char>,
    dds: Seq<DataAreaDescriptor>,
)
    ensures
        map_segment(s, eb, pv_name, dds) matches Ok(m) ==> s.stripes matches Some((_, loc)) && {
            &&& loc * eb <= u64::MAX
            &&& m.lv_start == s.start_extent * eb
            &&& m.lv_end == s.start_extent * eb + s.extent_count * eb
            &&& area_offset(dds, (loc * eb) as u64, 0) == Ok::<u64, AreaFail>(m.pv_base)
            &&& s.extent_count * eb > 0 ==> {
                &&& loc * eb + s.extent_count * eb - 1 <= u64::MAX
                &&& area_offset(dds, (loc * eb + s.extent_count * eb - 1) as u64, 0) is Ok
                &&& area_index(dds, (loc * eb + s.extent_count * eb - 1) as u64, 0) == area_index(
                    dds,
                    (loc * eb) as u64,
                    0,
                )
            }
        },
{
}

/// Between two bytes of the data areas that lie in the same area, every byte
/// lies in that area too, at the matching device offset.
proof fn lemma_area_between(dds: Seq<DataAreaDescriptor>, a: u64, b: u64, t: u64, i: int)
    requires
        0 <= i,
        a <= t <= b,
        area_offset(dds, a, i) is Ok,
        area_offset(dds, b, i) is Ok,
        area_index(dds, a, i) == area_index(dds, b, i),
    ensures
        area_offset(dds, a, i)->Ok_0 + (t - a) <= u64::MAX,
        area_offset(dds, t, i) == Ok::<u64, AreaFail>((area_offset(dds, a, i)->Ok_0 + (t - a)) as u64),
    decreases dds.len() - i,
{
    if i < dds.len() {
        let sz = dds[i].size;
        if sz == 0 || sz > a {
            if !(sz == 0 || sz > b) {
                // `a` stops at area `i` and `b` does not: their indexes differ.
                lemma_area_index_after(dds, (b - sz) as u64, i + 1);
            }
        } else if sz == 0 || sz > b {
            lemma_area_index_after(dds, (a - sz) as u64, i + 1);
        } else {
            lemma_area_between(dds, (a - sz) as u64, (b - sz) as u64, (t - sz) as u64, i + 1);
        }
    }
}

proof fn lemma_area_index_after(dds: Seq<DataAreaDescriptor>, t: u64, i: int)
    requires
        0 <= i <= dds.len(),
    ensures
        area_index(dds, t, i) >= i,
    decreases dds.len() - i,
{
    if 0 <= i < dds.len() && !(dds[i].size == 0 || dds[i].size > t) {
        lemma_area_index_after(dds, (t - dds[i].size) as u64, i + 1);
    }
}

/// Where the borrowed reader, sought to byte `p` of a volume whose segments
/// are disjoint and non-empty, would read `n > 0` bytes, the owning reader at
/// `p` reads the same bytes: at the same device offset, and as many, up to
/// the end of the segment. (With overlapping segments, or an empty segment
/// starting where another one does, the two readers may pick different
/// segments.)
pub proof fn law_owned_read_matches_borrowed(o: SpecOpenLV, w: SpecOwned, n: usize)
    requires
        segments_disjoint(o.lv.1.segments),
        build_maps(o.lvm, o.lv.1.segments) matches Ok(ms) && w.segments.to_multiset()
            == ms.to_multiset(),
        sorted_by_start(w.segments),
        spec_plan_seek(o, SeekPos::Start(w.position)) is Ok,
        n > 0,
    ensures
        ({
            let plan = spec_plan_seek(o, SeekPos::Start(w.position))->Ok_0;
            spec_plan_read(w, n) == Ok::<Option<(u64, usize)>, SeekFail>(
                Some(
                    (
                        plan.pv_offset,
                        if n <= plan.segment_end - w.position {
                            n
                        } else {
                            (plan.segment_end - w.position) as usize
                        },
                    ),
                ),
            )
        }),
{
    let segs = o.lv.1.segments;
    let eb = crate::extent_bytes(o.lvm)->Some_0;
    let pv_name = o.lvm.pv_name;
    let dds = o.lvm.pvh.data_descriptors;
    let p = w.position;
    let ms = map_segments(segs, eb, pv_name, dds)->Ok_0;
    let plan = spec_plan_seek(o, SeekPos::Start(p))->Ok_0;
    broadcast use vstd::seq_lib::group_to_multiset_ensures;

    lemma_map_segments_each(segs, eb, pv_name, dds);
    // The borrowed reader's segment.
    assert(locate(segs, eb, pv_name, dds, p) == Ok::<SeekPlan, SeekFail>(plan));
    assert(eb > 0);
    let i = find_segment(segs, (p / eb) as int, 0)->Some_0;
    lemma_find_segment_found(segs, (p / eb) as int, 0);
    let s = segs[i].1;
    let loc = s.stripes->Some_0.1;
    lemma_floor_mul(p as int, eb as int, s.start_extent as int);
    lemma_in_segment(p as int, eb as int, s.start_extent as int, s.extent_count as int);
    lemma_scaled(s.start_extent as int, 0, s.extent_count as int, p as int, eb as int);
    // Its mapping in the owning reader.
    let m = ms[i];
    lemma_map_segment_ok(s, eb, pv_name, dds);
    assert(s.extent_count * eb > 0) by (nonlinear_arith)
        requires
            s.extent_count > 0,
            eb > 0,
    ;
    let first = (loc * eb) as u64;
    let t = (loc * eb + (p - s.start_extent * eb)) as u64;
    assert(m.lv_start == s.start_extent * eb && m.lv_end == s.start_extent * eb + s.extent_count * eb);
    assert(p < m.lv_end);
    assert(first <= t <= loc * eb + s.extent_count * eb - 1);
    lemma_area_between(dds, first, (loc * eb + s.extent_count * eb - 1) as u64, t, 0);
    assert(area_offset(dds, t, 0) == Ok::<u64, AreaFail>((m.pv_base + (p - m.lv_start)) as u64));
    assert(t == (loc * eb + (p - s.start_extent * eb)) as u64);
    assert(plan.pv_offset == m.pv_base + (p - m.lv_start));
    assert(plan.segment_end == m.lv_end);
    assert(ms.contains(m));
    assert(w.segments.to_multiset().count(m) > 0);
    assert(w.segments.contains(m));
    let a = choose|a: int| 0 <= a < w.segments.len() && w.segments[a] == m;
    lemma_split_exists(w.segments, p);
    let k = choose|k: int| is_split(w.segments, p, k);
    lemma_split_unique(w.segments, p, k);
    assert(w.segments[a].lv_start <= p);
    assert(a < k);
    let x = w.segments[k - 1];
    assert(x == m) by {
        assert(w.segments.contains(x));
        assert(w.segments.to_multiset().count(x) > 0);
        assert(ms.to_multiset().count(x) > 0);
        assert(ms.contains(x));
        let j = choose|j: int| 0 <= j < ms.len() && ms[j] == x;
        if j != i {
            let t = segs[j].1;
            lemma_map_segment_ok(t, eb, pv_name, dds);
            assert(x.lv_start >= m.lv_start);
            lemma_scaled(s.start_extent as int, t.start_extent as int, 0, p as int, eb as int);
            lemma_scaled(t.start_extent as int, s.start_extent as int, 0, p as int, eb as int);
            assert(t.start_extent >= s.start_extent);
            assert(t.start_extent <= p / eb);
            assert(segment_end(segs[i].1) <= segs[j].1.start_extent || segment_end(segs[j].1)
                <= segs[i].1.start_extent);
            assert(false);
        }
    }
    assert(segment_index(w.segments, p) == Some(k - 1));
}

/// For a volume whose segments are disjoint, the owning reader's length is
/// the volume's size in extents times the extent size.
pub proof fn law_owned_len(lvm: crate::SpecLvm2, segs: Seq<(Seq<char>, SpecSegment)>, w: Seq<SegmentMap>)
    requires
        segments_disjoint(segs),
        build_maps(lvm, segs) matches Ok(ms) && w.to_multiset() == ms.to_multiset(),
        sorted_by_start(w),
    ensures
        mapped_len(w) == crate::lv::max_segment_end(segs) * crate::extent_bytes(lvm)->Some_0,
{
    let eb = crate::extent_bytes(lvm)->Some_0;
    let pv_name = lvm.pv_name;
    let dds = lvm.pvh.data_descriptors;
    let ms = map_segments(segs, eb, pv_name, dds)->Ok_0;
    broadcast use vstd::seq_lib::group_to_multiset_ensures;

    lemma_map_segments_each(segs, eb, pv_name, dds);
    crate::lv::lemma_max_segment_end_bound(segs);
    assert(w.to_multiset().len() == ms.to_multiset().len());
    assert(w.len() == ms.len());
    if segs.len() == 0 {
        assert(crate::lv::max_segment_end(segs) == 0);
    } else if eb == 0 {
        let last = w[w.len() - 1];
        assert(ms.contains(last)) by {
            assert(w.contains(last));
            assert(w.to_multiset().count(last) > 0);
            assert(ms.to_multiset().count(last) > 0);
        }
        let j = choose|j: int| 0 <= j < ms.len() && ms[j] == last;
        assert(map_segment(segs[j].1, eb, pv_name, dds) == Ok::<SegmentMap, SeekFail>(ms[j]));
        lemma_map_segment_ok(segs[j].1, eb, pv_name, dds);
        assert(segs[j].1.start_extent * eb == 0 && segs[j].1.extent_count * eb == 0) by (nonlinear_arith)
            requires
                eb == 0,
        ;
        assert(last.lv_end == 0);
    } else {
        let last = w[w.len() - 1];
        assert(ms.contains(last)) by {
            assert(w.contains(last));
            assert(w.to_multiset().count(last) > 0);
            assert(ms.to_multiset().count(last) > 0);
        }
        let jl = choose|j: int| 0 <= j < ms.len() && ms[j] == last;
        let sl = segs[jl].1;
        // Every segment ends no later than the one mapped last.
        assert forall|i: int| 0 <= i < segs.len() implies segment_end(#[trigger] segs[i].1) <= segment_end(sl) by {
            if i != jl {
                let si = segs[i].1;
                assert(w.contains(ms[i])) by {
                    assert(ms.contains(ms[i]));
                    assert(ms.to_multiset().count(ms[i]) > 0);
                    assert(w.to_multiset().count(ms[i]) > 0);
                }
                let a = choose|a: int| 0 <= a < w.len() && w[a] == ms[i];
                assert(w[a].lv_start <= last.lv_start);
                lemma_scaled(si.start_extent as int, sl.start_extent as int, 0, 0, eb as int);
                assert(si.start_extent <= sl.start_extent);
                assert(segment_end(segs[i].1) <= segs[jl].1.start_extent || segment_end(segs[jl].1)
                    <= segs[i].1.start_extent);
            }
        }
        let im = choose|i: int| 0 <= i < segs.len() && crate::lv::max_segment_end(segs) == segment_end(#[trigger] segs[i].1);
        assert(crate::lv::max_segment_end(segs) == segment_end(sl));
        lemma_scaled(sl.start_extent as int, 0, sl.extent_count as int, 0, eb as int);
    }
}

/// An owning reader exists only for volumes whose every segment is linear
/// and lies on the physical volume that was opened.
pub proof fn law_owned_only_linear(
    segs: Seq<(Seq<char>, SpecSegment)>,
    eb: u64,
    pv_name: Seq<char>,
    dds: Seq<DataAreaDescriptor>,
    i: int,
)
    requires
        map_segments(segs, eb, pv_name, dds) is Ok,
        0 <= i < segs.len(),
    ensures
        is_linear(segs[i].1),
        segs[i].1.stripes matches Some((pv, _)) && pv == pv_name,
{
    lemma_map_segments_each(segs, eb, pv_name, dds);
}

/// At or past the end of the volume a read yields nothing.
pub proof fn law_read_past_end_is_empty(w: SpecOwned, n: usize)
    requires
        sorted_by_start(w.segments),
        ranges_wf(w.segments),
        w.lv_len == mapped_len(w.segments),
        w.position >= w.lv_len,
    ensures
        spec_plan_read(w, n) == Ok::<Option<(u64, usize)>, SeekFail>(None),
{
    let s = w.segments;
    let p = w.position;
    lemma_split_exists(s, p);
    let k = choose|k: int| is_split(s, p, k);
    lemma_split_unique(s, p, k);
    if 0 < k < s.len() {
        assert(s[k].lv_start > p);
        assert(s[k].lv_start <= s[s.len() - 1].lv_start);
        assert(s[s.len() - 1].lv_start <= s[s.len() - 1].lv_end);
    }
}

/// Mappings that follow one another without overlapping (each ends at or
/// before the next one starts), and whose device bytes have offsets within
/// `u64`.
pub open spec fn mappings_ordered(s: Seq<SegmentMap>) -> bool {
    &&& ranges_wf(s)
    &&& forall|i: int, j: int| 0 <= i < j < s.len() ==> (#[trigger] s[i]).lv_end <= (#[trigger] s[j]).lv_start
    &&& forall|i: int| 0 <= i < s.len() ==> (#[trigger] s[i]).pv_base + (s[i].lv_end - s[i].lv_start) <= u64::MAX + 1
}

/// Some mapping of `s` holds volume byte `p`.
pub open spec fn covered(s: Seq<SegmentMap>, p: u64) -> bool {
    exists|i: int| 0 <= i < s.len() && (#[trigger] s[i]).lv_start <= p < s[i].lv_end
}

/// Every byte of the volume before its length lies in some mapping.
pub open spec fn mappings_cover(w: SpecOwned) -> bool {
    forall|p: u64| p < w.lv_len ==> #[trigger] covered(w.segments, p)
}

/// How many bytes reading with buffers of `n` bytes from the position of
/// `w` on yields, until a read yields nothing.
pub open spec fn bytes_read_to_end(w: SpecOwned, n: usize) -> int
    decreases u64::MAX - w.position,
{
    match spec_plan_read(w, n) {
        Ok(Some((_, l))) => if l > 0 && w.position + l <= u64::MAX {
            l + bytes_read_to_end(SpecOwned { position: (w.position + l) as u64, ..w }, n)
        } else {
            0
        },
        _ => 0,
    }
}

/// A volume whose mappings follow one another and leave no gap before its
/// length is read whole by reads from its start: reading from any position
/// up to the end yields exactly the bytes that remain.
pub proof fn law_reads_reach_the_end(w: SpecOwned, n: usize)
    requires
        mappings_ordered(w.segments),
        mappings_cover(w),
        w.lv_len == mapped_len(w.segments),
        w.position <= w.lv_len,
        n > 0,
    ensures
        bytes_read_to_end(w, n) == w.lv_len - w.position,
    decreases w.lv_len - w.position,
{
    let s = w.segments;
    let p = w.position;
    assert(sorted_by_start(s)) by {
        assert forall|i: int, j: int| 0 <= i < j < s.len() implies (#[trigger] s[i]).lv_start
            <= (#[trigger] s[j]).lv_start by {
            assert(s[i].lv_start <= s[i].lv_end);
        }
    }
    if p == w.lv_len {
        law_read_past_end_is_empty(w, n);
    } else {
        assert(covered(s, p));
        let i = choose|i: int| 0 <= i < s.len() && (#[trigger] s[i]).lv_start <= p < s[i].lv_end;
        lemma_split_exists(s, p);
        let k = choose|k: int| is_split(s, p, k);
        lemma_split_unique(s, p, k);
        assert(i < k);
        if i < k - 1 {
            assert(s[i].lv_end <= s[k - 1].lv_start);
        }
        assert(segment_index(s, p) == Some(i));
        // The mapping ends no later than the volume.
        if i < s.len() - 1 {
            assert(s[i].lv_end <= s[s.len() - 1].lv_start);
            assert(s[s.len() - 1].lv_start <= s[s.len() - 1].lv_end);
        }
        let l = if n <= s[i].lv_end - p { n as int } else { s[i].lv_end - p };
        assert(s[i].pv_base + (p - s[i].lv_start) <= u64::MAX);
        assert(spec_plan_read(w, n) == Ok::<Option<(u64, usize)>, SeekFail>(
            Some(((s[i].pv_base + (p - s[i].lv_start)) as u64, l as usize)),
        ));
        let next = SpecOwned { position: (p + l) as u64, ..w };
        law_reads_reach_the_end(next, n);
        assert(bytes_read_to_end(w, n) == l + bytes_read_to_end(next, n));
    }
}

proof fn lemma_two_entries<A>(w: Seq<A>, ms: Seq<A>, i: int, j: int)
    requires
        w.to_multiset() == ms.to_multiset(),
        0 <= i < j < w.len(),
    ensures
        exists|a: int, b: int| 0 <= a < ms.len() && 0 <= b < ms.len() && a != b && ms[a] == w[i] && ms[b] == w[j],
{
    broadcast use vstd::seq_lib::group_to_multiset_ensures;

    let x = w[i];
    let y = w[j];
    assert(w.contains(x) && w.contains(y));
    assert(ms.to_multiset().count(x) > 0 && ms.to_multiset().count(y) > 0);
    let a = choose|a: int| 0 <= a < ms.len() && ms[a] == x;
    if x != y {
        let b = choose|b: int| 0 <= b < ms.len() && ms[b] == y;
        assert(ms[a] == w[i] && ms[b] == w[j]);
    } else {
        let wr = w.remove(i);
        assert(wr[j - 1] == y);
        assert(wr.contains(x));
        assert(wr.to_multiset().count(x) > 0);
        assert(w.to_multiset().count(x) >= 2);
        let mr = ms.remove(a);
        assert(mr.to_multiset().count(x) > 0);
        assert(mr.contains(x));
        let c = choose|c: int| 0 <= c < mr.len() && mr[c] == x;
        let b = if c < a { c } else { c + 1 };
        assert(ms[b] == x);
        assert(ms[a] == w[i] && ms[b] == w[j]);
    }
}

/// No extent below the largest segment end is left out by the segments.
pub open spec fn extent_covered(segs: Seq<(Seq<char>, SpecSegment)>, e: int) -> bool {
    exists|i: int| 0 <= i < segs.len() && (#[trigger] segs[i].1).start_extent <= e < segment_end(segs[i].1)
}

pub open spec fn segments_contiguous(segs: Seq<(Seq<char>, SpecSegment)>) -> bool {
    forall|e: int| 0 <= e < crate::lv::max_segment_end(segs) ==> #[trigger] extent_covered(segs, e)
}

/// A freshly built owning reader of a volume whose segments are disjoint,
/// non-empty and leave no extent out below their end is read whole: reads
/// from its start yield exactly its length, the size in extents times the
/// extent size.
pub proof fn law_built_reader_reads_whole(
    lvm: crate::SpecLvm2,
    segs: Seq<(Seq<char>, SpecSegment)>,
    w: SpecOwned,
    n: usize,
)
    requires
        segments_disjoint(segs),
        segments_contiguous(segs),
        build_maps(lvm, segs) matches Ok(ms) && fresh_reader(w, ms),
        n > 0,
    ensures
        w.lv_len == crate::lv::max_segment_end(segs) * crate::extent_bytes(lvm)->Some_0,
        bytes_read_to_end(w, n) == w.lv_len,
{
    let eb = crate::extent_bytes(lvm)->Some_0;
    let pv_name = lvm.pv_name;
    let dds = lvm.pvh.data_descriptors;
    let ms = map_segments(segs, eb, pv_name, dds)->Ok_0;
    let s = w.segments;
    broadcast use vstd::seq_lib::group_to_multiset_ensures;

    law_owned_len(lvm, segs, s);
    lemma_map_segments_each(segs, eb, pv_name, dds);
    // Every mapping is the mapping of some segment.
    assert forall|i: int| 0 <= i < s.len() implies exists|a: int| 0 <= a < ms.len() && ms[a] == #[trigger] s[i] by {
        assert(s.contains(s[i]));
        assert(ms.to_multiset().count(s[i]) > 0);
    }
    // The mappings follow one another.
    assert forall|i: int, j: int| 0 <= i < j < s.len() implies (#[trigger] s[i]).lv_end <= (#[trigger] s[j]).lv_start by {
        lemma_two_entries(s, ms, i, j);
        let (a, b) = choose|a: int, b: int| 0 <= a < ms.len() && 0 <= b < ms.len() && a != b && ms[a] == s[i] && ms[b] == s[j];
        let sa = segs[a].1;
        let sb = segs[b].1;
        lemma_map_segment_ok(sa, eb, pv_name, dds);
        lemma_map_segment_ok(sb, eb, pv_name, dds);
        assert(segment_end(segs[a].1) <= segs[b].1.start_extent || segment_end(segs[b].1) <= segs[a].1.start_extent);
        if eb > 0 {
            lemma_scaled(sa.start_extent as int, sb.start_extent as int, 0, 0, eb as int);
            lemma_scaled(sa.start_extent as int, 0, sa.extent_count as int, 0, eb as int);
            lemma_scaled(segment_end(sa), sb.start_extent as int, 0, 0, eb as int);
            assert(segment_end(sa) * eb <= sb.start_extent * eb) by (nonlinear_arith)
                requires
                    segment_end(sa) <= sb.start_extent,
                    eb > 0,
            ;
        } else {
            assert(sa.start_extent * eb == 0 && sa.extent_count * eb == 0 && sb.start_extent * eb == 0) by (nonlinear_arith)
                requires
                    eb == 0,
            ;
        }
    }
    // The device offsets of every mapping fit `u64`.
    assert forall|i: int| 0 <= i < s.len() implies (#[trigger] s[i]).pv_base + (s[i].lv_end - s[i].lv_start) <= u64::MAX + 1 by {
        let a = choose|a: int| 0 <= a < ms.len() && ms[a] == s[i];
        let sa = segs[a].1;
        lemma_map_segment_ok(sa, eb, pv_name, dds);
        if sa.extent_count * eb > 0 {
            let loc = sa.stripes->Some_0.1;
            let first = (loc * eb) as u64;
            let last = (loc * eb + sa.extent_count * eb - 1) as u64;
            lemma_area_between(dds, first, last, last, 0);
        }
    }
    // Every byte before the end lies in a mapping.
    assert forall|p: u64| p < w.lv_len implies #[trigger] covered(s, p) by {
        let m = crate::lv::max_segment_end(segs);
        assert(eb > 0) by {
            if eb == 0 {
                assert(m * eb == 0) by (nonlinear_arith)
                    requires
                        eb == 0,
                ;
            }
        }
        lemma_scaled(m, 0, 0, p as int, eb as int);
        assert((p / eb) < m) by (nonlinear_arith)
            requires
                p < m * eb,
                eb > 0,
                m >= 0,
        ;
        assert(extent_covered(segs, (p / eb) as int));
        let e = (p / eb) as int;
        let a = choose|a: int| 0 <= a < segs.len() && (#[trigger] segs[a].1).start_extent <= e < segment_end(segs[a].1);
        let sa = segs[a].1;
        lemma_map_segment_ok(sa, eb, pv_name, dds);
        lemma_floor_mul(p as int, eb as int, sa.start_extent as int);
        lemma_in_segment(p as int, eb as int, sa.start_extent as int, sa.extent_count as int);
        lemma_scaled(sa.start_extent as int, 0, sa.extent_count as int, 0, eb as int);
        assert(ms.contains(ms[a]));
        assert(s.to_multiset().count(ms[a]) > 0);
        assert(s.contains(ms[a]));
        let k = choose|k: int| 0 <= k < s.len() && s[k] == ms[a];
        assert(s[k].lv_start <= p < s[k].lv_end);
    }
    law_reads_reach_the_end(w, n);
}

/// A segment that is linear, on the physical volume `pv_name`, and whose
/// volume and device byte offsets fit `u64`, with the first data area
/// running to the end of the device.
pub open spec fn maps_plainly(s: SpecSegment, eb: u64, pv_name: Seq<char>, dds: Seq<DataAreaDescriptor>) -> bool {
    &&& s.seg_type == "striped"@
    &&& s.stripe_count == Some(1u64)
    &&& s.stripes matches Some((pv, loc)) && pv == pv_name && loc * eb + s.extent_count * eb + dds[0].offset <= u64::MAX
    &&& s.start_extent * eb + s.extent_count * eb <= u64::MAX
}

proof fn lemma_maps_plainly_one(s: SpecSegment, eb: u64, pv_name: Seq<char>, dds: Seq<DataAreaDescriptor>)
    requires
        dds.len() > 0,
        dds[0].size == 0,
        maps_plainly(s, eb, pv_name, dds),
    ensures
        map_segment(s, eb, pv_name, dds) == Ok::<SegmentMap, SeekFail>(
            SegmentMap {
                lv_start: (s.start_extent * eb) as u64,
                lv_end: (s.start_extent * eb + s.extent_count * eb) as u64,
                pv_base: (s.stripes->Some_0.1 * eb + dds[0].offset) as u64,
            },
        ),
{
    let loc = s.stripes->Some_0.1;
    assert(0 <= s.start_extent * eb && 0 <= s.extent_count * eb && 0 <= loc * eb) by (nonlinear_arith);
    let first = (loc * eb) as u64;
    assert(area_offset(dds, first, 0) == Ok::<u64, AreaFail>((first + dds[0].offset) as u64));
    assert(area_index(dds, first, 0) == 0);
    if s.extent_count * eb > 0 {
        let last = (loc * eb + s.extent_count * eb - 1) as u64;
        assert(area_offset(dds, last, 0) == Ok::<u64, AreaFail>((last + dds[0].offset) as u64));
        assert(area_index(dds, last, 0) == 0);
    }
}

proof fn lemma_maps_plainly_all(
    segs: Seq<(Seq<char>, SpecSegment)>,
    eb: u64,
    pv_name: Seq<char>,
    dds: Seq<DataAreaDescriptor>,
)
    requires
        dds.len() > 0,
        dds[0].size == 0,
        forall|i: int| 0 <= i < segs.len() ==> maps_plainly(#[trigger] segs[i].1, eb, pv_name, dds),
    ensures
        map_segments(segs, eb, pv_name, dds) is Ok,
    decreases segs.len(),
{
    if segs.len() > 0 {
        let d = segs.drop_last();
        assert forall|i: int| 0 <= i < d.len() implies maps_plainly(#[trigger] d[i].1, eb, pv_name, dds) by {
            assert(d[i] == segs[i]);
        }
        lemma_maps_plainly_all(d, eb, pv_name, dds);
        lemma_maps_plainly_one(segs[segs.len() - 1].1, eb, pv_name, dds);
    }
}

/// Building is complete. When every segment of a volume is linear, on this
/// physical volume, and its volume and device byte offsets fit `u64`, and
/// the first data area runs to the end of the device, the owning reader is
/// built, mapping each segment to `[start * eb, (start + count) * eb)` from
/// device byte `loc * eb + data_offset`; with disjoint, non-empty segments
/// its length is the size in extents times the extent size.
pub proof fn law_build_complete(lvm: crate::SpecLvm2, segs: Seq<(Seq<char>, SpecSegment)>, w: SpecOwned)
    requires
        crate::extent_bytes(lvm) is Some,
        lvm.pvh.data_descriptors.len() > 0,
        lvm.pvh.data_descriptors[0].size == 0,
        forall|i: int|
            0 <= i < segs.len() ==> maps_plainly(
                #[trigger] segs[i].1,
                crate::extent_bytes(lvm)->Some_0,
                lvm.pv_name,
                lvm.pvh.data_descriptors,
            ),
    ensures
        build_maps(lvm, segs) matches Ok(ms) && {
            let eb = crate::extent_bytes(lvm)->Some_0;
            &&& ms.len() == segs.len()
            &&& forall|i: int|
                0 <= i < segs.len() ==> #[trigger] ms[i] == (SegmentMap {
                    lv_start: (segs[i].1.start_extent * eb) as u64,
                    lv_end: (segs[i].1.start_extent * eb + segs[i].1.extent_count * eb) as u64,
                    pv_base: (segs[i].1.stripes->Some_0.1 * eb + lvm.pvh.data_descriptors[0].offset) as u64,
                })
            &&& (segments_disjoint(segs) && fresh_reader(w, ms)) ==> w.lv_len == crate::lv::max_segment_end(segs) * eb
        },
{
    let eb = crate::extent_bytes(lvm)->Some_0;
    let dds = lvm.pvh.data_descriptors;
    lemma_maps_plainly_all(segs, eb, lvm.pv_name, dds);
    lemma_map_segments_each(segs, eb, lvm.pv_name, dds);
    let ms = map_segments(segs, eb, lvm.pv_name, dds)->Ok_0;
    assert forall|i: int| 0 <= i < segs.len() implies #[trigger] ms[i] == (SegmentMap {
        lv_start: (segs[i].1.start_extent * eb) as u64,
        lv_end: (segs[i].1.start_extent * eb + segs[i].1.extent_count * eb) as u64,
        pv_base: (segs[i].1.stripes->Some_0.1 * eb + dds[0].offset) as u64,
    }) by {
        lemma_maps_plainly_one(segs[i].1, eb, lvm.pv_name, dds);
    }
    if segments_disjoint(segs) && fresh_reader(w, ms) {
        law_owned_len(lvm, segs, w.segments);
    }
}

} // verus!
