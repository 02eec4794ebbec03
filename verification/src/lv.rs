//! Logical volumes, and the mapping of logical-volume byte offsets onto
//! physical-volume byte offsets through the segment table.
use vstd::prelude::*;

use crate::header::DataAreaDescriptor;
use crate::metadata::{LVDesc, SpecLV, SpecSegment};
use crate::namemap::str_eq;
use crate::{segment_end, Lvm2};

verus! {

broadcast use vstd::string::group_string_axioms;

/// The largest segment end of `segs`, or zero when there is none.
pub open spec fn max_segment_end(segs: Seq<(Seq<char>, SpecSegment)>) -> int
    decreases segs.len(),
{
    if segs.len() == 0 {
        0
    } else {
        let m = max_segment_end(segs.drop_last());
        let e = segment_end(segs.last().1);
        if e > m {
            e
        } else {
            m
        }
    }
}

/// The largest segment end bounds every segment end and is one of them;
/// it fits `u64` when every segment end does.
pub proof fn lemma_max_segment_end_bound(segs: Seq<(Seq<char>, SpecSegment)>)
    ensures
        0 <= max_segment_end(segs),
        (forall|i: int| 0 <= i < segs.len() ==> segment_end(#[trigger] segs[i].1) <= u64::MAX)
            ==> max_segment_end(segs) <= u64::MAX,
        forall|i: int| 0 <= i < segs.len() ==> segment_end(#[trigger] segs[i].1) <= max_segment_end(segs),
        segs.len() > 0 ==> exists|i: int| 0 <= i < segs.len() && max_segment_end(segs) == segment_end(#[trigger] segs[i].1),
    decreases segs.len(),
{
    if segs.len() > 0 {
        let d = segs.drop_last();
        lemma_max_segment_end_bound(d);
        if forall|i: int| 0 <= i < segs.len() ==> segment_end(#[trigger] segs[i].1) <= u64::MAX {
            assert forall|i: int| 0 <= i < d.len() implies segment_end(#[trigger] d[i].1) <= u64::MAX by {
                assert(d[i] == segs[i]);
            }
            assert(segment_end(segs[segs.len() - 1].1) <= u64::MAX);
        }
        assert forall|i: int| 0 <= i < segs.len() implies segment_end(#[trigger] segs[i].1)
            <= max_segment_end(segs) by {
            if i < d.len() {
                assert(d[i] == segs[i]);
            }
        }
        if segment_end(segs.last().1) > max_segment_end(d) || d.len() == 0 {
            assert(max_segment_end(segs) == segment_end(segs[segs.len() - 1].1));
        } else {
            let i = choose|i: int| 0 <= i < d.len() && max_segment_end(d) == segment_end(#[trigger] d[i].1);
            assert(d[i] == segs[i]);
            assert(max_segment_end(segs) == segment_end(segs[i].1));
        }
    }
}

/// A logical volume of a parsed physical volume: its name and its metadata.
#[derive(Clone, Copy)]
pub struct LV<'a> {
    pub(crate) name: &'a str,
    pub(crate) desc: &'a LVDesc,
}

impl<'a> View for LV<'a> {
    type V = (Seq<char>, SpecLV);

    closed spec fn view(&self) -> (Seq<char>, SpecLV) {
        (self.name@, self.desc@)
    }
}

impl<'a> LV<'a> {
    pub(crate) fn new(name: &'a str, desc: &'a LVDesc) -> (r: Self)
        ensures
            r@ == (name@, desc@),
    {
        LV { name, desc }
    }

    pub fn name(&self) -> (r: &'a str)
        ensures
            r@ == self@.0,
    {
        self.name
    }

    pub fn id(&self) -> (r: &'a str)
        ensures
            r@ == self@.1.id,
    {
        self.desc.id.as_str()
    }

    /// The number of extents the logical volume spans: the largest end of
    /// its segments, or zero when it has none; `None` when a segment end
    /// does not fit `u64`.
    pub fn size_in_extents(&self) -> (r: Option<u64>)
        ensures
            r == (if max_segment_end(self@.1.segments) > u64::MAX {
                None
            } else {
                Some(max_segment_end(self@.1.segments) as u64)
            }),
    {
        let segs = &self.desc.segments.entries;
        let ghost sv = self@.1.segments;
        let mut m: u64 = 0;
        let mut i: usize = 0;
        assert(sv.take(0) =~= Seq::<(Seq<char>, SpecSegment)>::empty());
        while i < segs.len()
            invariant
                sv == self@.1.segments,
                sv == crate::namemap::pairs_view(segs@),
                i <= segs@.len(),
                m == max_segment_end(sv.take(i as int)),
            decreases segs@.len() - i,
        {
            assert(sv.take(i + 1).drop_last() =~= sv.take(i as int));
            assert(sv[i as int].1 == segs@[i as int].1@);
            let e = match segs[i].1.start_extent.checked_add(segs[i].1.extent_count) {
                Some(e) => e,
                None => {
                    proof {
                        lemma_max_segment_end_bound(sv);
                    }
                    return None;
                },
            };
            if e > m {
                m = e;
            }
            i = i + 1;
        }
        assert(sv.take(segs@.len() as int) =~= sv);
        Some(m)
    }

    pub fn raw_metadata(&self) -> (r: &'a LVDesc)
        ensures
            r@ == self@.1,
    {
        self.desc
    }
}

/// Where a seek goes: an absolute position, or one relative to the end of the
/// volume or to the current position.
#[derive(Clone, Copy, Debug, PartialEq, Eq, Structural)]
pub enum SeekPos {
    Start(u64),
    End(i64),
    Current(i64),
}

/// Errors of reading and seeking in a logical volume.
#[derive(Debug)]
pub enum OpenLvError<E> {
    /// Error of the underlying physical-volume reader.
    Pv(E),
    /// The position is not covered by any segment.
    NoSegment,
    /// A segment type or layout that is not supported (not linear, without
    /// stripes, on another physical volume, or beyond the end of this one).
    Unsupported(&'static str),
    /// Overflow or underflow in the offset arithmetic.
    SeekOverflow,
}

/// The failures of resolving a position, as the specification sees them.
pub enum SeekFail {
    NoSegment,
    Unsupported(Seq<char>),
    SeekOverflow,
}

/// `e` is the error that `f` describes.
pub open spec fn is_seek_fail<E>(e: OpenLvError<E>, f: SeekFail) -> bool {
    match (e, f) {
        (OpenLvError::NoSegment, SeekFail::NoSegment) => true,
        (OpenLvError::Unsupported(m), SeekFail::Unsupported(sm)) => m@ == sm,
        (OpenLvError::SeekOverflow, SeekFail::SeekOverflow) => true,
        _ => false,
    }
}

/// The position `base + x`, when it is neither negative nor beyond `u64`.
pub open spec fn offset_from(base: int, x: i64) -> Option<u64> {
    if base + x < 0 || base + x > u64::MAX {
        None
    } else {
        Some((base + x) as u64)
    }
}

pub fn offset_from_exec(base: u64, x: i64) -> (r: Option<u64>)
    ensures
        r == offset_from(base as int, x),
{
    if x >= 0 {
        base.checked_add(x as u64)
    } else {
        let d: u64 = (-(x + 1)) as u64 + 1;
        if d > base {
            None
        } else {
            Some(base - d)
        }
    }
}

/// The target of a seek, given the volume's length and the current position.
pub open spec fn seek_target(len: u64, position: u64, pos: SeekPos) -> Option<u64> {
    match pos {
        SeekPos::Start(x) => Some(x),
        SeekPos::End(x) => offset_from(len as int, x),
        SeekPos::Current(x) => offset_from(position as int, x),
    }
}

pub fn seek_target_exec(len: u64, position: u64, pos: SeekPos) -> (r: Option<u64>)
    ensures
        r == seek_target(len, position, pos),
{
    match pos {
        SeekPos::Start(x) => Some(x),
        SeekPos::End(x) => offset_from_exec(len, x),
        SeekPos::Current(x) => offset_from_exec(position, x),
    }
}

/// Why a physical-volume offset could not be found for an offset into the
/// data areas.
#[derive(Clone, Copy, Debug, PartialEq, Eq, Structural)]
pub enum AreaFail {
    /// The byte offset on the device overflows `u64`.
    Overflow,
    /// The data areas end before the offset.
    Beyond,
}

/// The device offset of byte `t` of the concatenated data areas
/// `dds[i..]`: an area of size zero, or one larger than what remains of `t`,
/// holds it.
pub open spec fn area_offset(dds: Seq<DataAreaDescriptor>, t: u64, i: int) -> Result<u64, AreaFail>
    decreases dds.len() - i,
{
    if i < 0 || i >= dds.len() {
        Err(AreaFail::Beyond)
    } else if dds[i].size == 0 || dds[i].size > t {
        if t + dds[i].offset > u64::MAX {
            Err(AreaFail::Overflow)
        } else {
            Ok((t + dds[i].offset) as u64)
        }
    } else {
        area_offset(dds, (t - dds[i].size) as u64, i + 1)
    }
}

/// The position in `dds[i..]` of the data area that holds byte `t` of the
/// concatenated data areas, or the number of areas when none does.
pub open spec fn area_index(dds: Seq<DataAreaDescriptor>, t: u64, i: int) -> int
    decreases dds.len() - i,
{
    if i < 0 || i >= dds.len() {
        dds.len() as int
    } else if dds[i].size == 0 || dds[i].size > t {
        i
    } else {
        area_index(dds, (t - dds[i].size) as u64, i + 1)
    }
}

/// The data area that holds byte `t0` of the data areas, and the device
/// offset of that byte.
pub fn area_offset_exec(dds: &Vec<DataAreaDescriptor>, t0: u64) -> (r: Result<(usize, u64), AreaFail>)
    ensures
        match r {
            Ok((k, off)) => area_offset(dds@, t0, 0) == Ok::<u64, AreaFail>(off) && k == area_index(dds@, t0, 0),
            Err(f) => area_offset(dds@, t0, 0) == Err::<u64, AreaFail>(f),
        },
{
    let mut t = t0;
    let mut i: usize = 0;
    while i < dds.len()
        invariant
            i <= dds@.len(),
            area_offset(dds@, t, i as int) == area_offset(dds@, t0, 0),
            area_index(dds@, t, i as int) == area_index(dds@, t0, 0),
        decreases dds@.len() - i,
    {
        let dd = dds[i];
        if dd.size == 0 || dd.size > t {
            return match t.checked_add(dd.offset) {
                Some(x) => Ok((i, x)),
                None => Err(AreaFail::Overflow),
            };
        }
        t = t - dd.size;
        i = i + 1;
    }
    Err(AreaFail::Beyond)
}

/// The first segment from position `i` whose extents contain extent `t`.
pub open spec fn find_segment(segs: Seq<(Seq<char>, SpecSegment)>, t: int, i: int) -> Option<int>
    decreases segs.len() - i,
{
    if i < 0 || i >= segs.len() {
        None
    } else if segs[i].1.start_extent <= t < segment_end(segs[i].1) {
        Some(i)
    } else {
        find_segment(segs, t, i + 1)
    }
}

pub proof fn lemma_find_segment_found(segs: Seq<(Seq<char>, SpecSegment)>, t: int, j: int)
    requires
        0 <= j,
    ensures
        find_segment(segs, t, j) matches Some(i) ==> (0 <= j <= i < segs.len()
            && segs[i].1.start_extent <= t < segment_end(segs[i].1)),
        find_segment(segs, t, j) is None ==> forall|k: int|
            j <= k < segs.len() && 0 <= k ==> !(segs[k].1.start_extent <= t < segment_end(
                #[trigger] segs[k].1,
            )),
    decreases segs.len() - j,
{
    if 0 <= j < segs.len() {
        lemma_find_segment_found(segs, t, j + 1);
    }
}

/// A linear segment: type `striped` with exactly one stripe.
pub open spec fn is_linear(s: SpecSegment) -> bool {
    s.seg_type == "striped"@ && s.stripe_count == Some(1u64)
}

/// The outcome of a seek: the new position in the volume, the device
/// offset that holds it, and the end (in volume bytes) of its segment.
#[derive(Clone, Copy, Debug, PartialEq, Eq, Structural)]
pub struct SeekPlan {
    pub lv_pos: u64,
    pub pv_offset: u64,
    pub segment_end: u64,
}

/// Where byte `p` of the volume lies on the device, through the segment of
/// `segs` that holds it (the first one, in name order) and the data areas
/// `dds` of the physical volume `pv_name`, with extents of `extent_bytes` bytes.
pub open spec fn locate(
    segs: Seq<(Seq<char>, SpecSegment)>,
    extent_bytes: u64,
    pv_name: Seq<char>,
    dds: Seq<DataAreaDescriptor>,
    p: u64,
) -> Result<SeekPlan, SeekFail> {
    if extent_bytes == 0 {
        Err(SeekFail::NoSegment)
    } else {
        match find_segment(segs, (p / extent_bytes) as int, 0) {
            None => Err(SeekFail::NoSegment),
            Some(i) => {
                let s = segs[i].1;
                if !is_linear(s) {
                    Err(SeekFail::Unsupported("segment is not linear"@))
                } else {
                    match s.stripes {
                        None => Err(SeekFail::Unsupported("segment has no stripes"@)),
                        Some((pv, loc)) => if pv != pv_name {
                            Err(
                                SeekFail::Unsupported(
                                    "segment data is on a different PV than the one opened"@,
                                ),
                            )
                        } else {
                            let t = loc * extent_bytes + (p - s.start_extent * extent_bytes);
                            if t > u64::MAX {
                                Err(SeekFail::SeekOverflow)
                            } else {
                                match area_offset(dds, t as u64, 0) {
                                    Err(AreaFail::Overflow) => Err(SeekFail::SeekOverflow),
                                    Err(AreaFail::Beyond) => Err(
                                        SeekFail::Unsupported("data is beyond the end of this PV"@),
                                    ),
                                    Ok(off) => {
                                        let end = segment_end(s) * extent_bytes;
                                        if end > u64::MAX {
                                            Err(SeekFail::SeekOverflow)
                                        } else {
                                            Ok(
                                                SeekPlan {
                                                    lv_pos: p,
                                                    pv_offset: off,
                                                    segment_end: end as u64,
                                                },
                                            )
                                        }
                                    },
                                }
                            }
                        },
                    }
                }
            },
        }
    }
}

/// The size in bytes of an open logical volume: its size in extents times
/// the extent size, when both and the product fit `u64`.
pub open spec fn lv_size_bytes(o: SpecOpenLV) -> Option<u64> {
    match crate::extent_bytes(o.lvm) {
        None => None,
        Some(eb) => {
            let m = max_segment_end(o.lv.1.segments);
            if m > u64::MAX || m * eb > u64::MAX {
                None
            } else {
                Some((m * eb) as u64)
            }
        },
    }
}

/// The seek of an open logical volume: the target position is resolved
/// against the volume's size in bytes (which must fit `u64`) or the current
/// position, then located on the device.
pub open spec fn spec_plan_seek(o: SpecOpenLV, pos: SeekPos) -> Result<SeekPlan, SeekFail> {
    match lv_size_bytes(o) {
        None => Err(SeekFail::SeekOverflow),
        Some(size) => match seek_target(size, o.position, pos) {
            None => Err(SeekFail::SeekOverflow),
            Some(p) => locate(
                o.lv.1.segments,
                crate::extent_bytes(o.lvm)->Some_0,
                o.lvm.pv_name,
                o.lvm.pvh.data_descriptors,
                p,
            ),
        },
    }
}

/// One read of an open logical volume with a buffer of `buf_len` bytes: at
/// the end of the volume nothing; at the end of the current segment a seek
/// to the current position first; otherwise up to the end of the segment.
pub open spec fn spec_read_step(o: SpecOpenLV, buf_len: usize) -> Result<ReadStep, SeekFail> {
    if o.position < o.segment_end {
        Ok(ReadStep::Read(read_amount(buf_len, o.position, o.segment_end)))
    } else if lv_size_bytes(o) matches Some(s) && o.position >= s {
        Ok(ReadStep::Eof)
    } else {
        match spec_plan_seek(o, SeekPos::Current(0)) {
            Err(f) => Err(f),
            Ok(plan) => Ok(ReadStep::SeekThenRead(plan, read_amount(buf_len, plan.lv_pos, plan.segment_end))),
        }
    }
}

pub proof fn lemma_floor_mul(p: int, d: int, s: int)
    by (nonlinear_arith)
    requires
        d > 0,
        0 <= p,
        0 <= s <= p / d,
    ensures
        0 <= s * d <= p,
{
}

pub proof fn lemma_in_segment(p: int, d: int, s: int, c: int)
    by (nonlinear_arith)
    requires
        d > 0,
        0 <= p,
        0 <= s,
        p / d < s + c,
    ensures
        p < (s + c) * d,
{
}

/// The first segment of `segs` whose extents contain extent `t`.
pub fn find_segment_exec(segs: &Vec<(String, crate::metadata::SegmentDesc)>, t: u64) -> (r: Option<usize>)
    ensures
        r matches Some(i) ==> i < segs@.len(),
        r == (match find_segment(crate::namemap::pairs_view(segs@), t as int, 0) {
            Some(i) => Some(i as usize),
            None => None,
        }),
        r matches Some(i) ==> find_segment(crate::namemap::pairs_view(segs@), t as int, 0) == Some(i as int),
{
    let ghost sv = crate::namemap::pairs_view(segs@);
    let mut i: usize = 0;
    while i < segs.len()
        invariant
            sv == crate::namemap::pairs_view(segs@),
            i <= segs@.len(),
            find_segment(sv, t as int, 0) == find_segment(sv, t as int, i as int),
        decreases segs@.len() - i,
    {
        let s = &segs[i].1;
        assert(sv[i as int].1 == s@);
        if s.start_extent <= t && t - s.start_extent < s.extent_count {
            return Some(i);
        }
        i = i + 1;
    }
    None
}

/// Locates byte `p` of a volume with segments `segs` on the device.
pub fn locate_exec<E>(
    segs: &Vec<(String, crate::metadata::SegmentDesc)>,
    extent_bytes: u64,
    pv_name: &str,
    dds: &Vec<DataAreaDescriptor>,
    p: u64,
) -> (r: Result<SeekPlan, OpenLvError<E>>)
    ensures
        match (r, locate(crate::namemap::pairs_view(segs@), extent_bytes, pv_name@, dds@, p)) {
            (Ok(x), Ok(sx)) => x == sx,
            (Err(e), Err(se)) => is_seek_fail(e, se),
            _ => false,
        },
{
    let ghost sv = crate::namemap::pairs_view(segs@);
    if extent_bytes == 0 {
        return Err(OpenLvError::NoSegment);
    }
    let t = p / extent_bytes;
    let i = match find_segment_exec(segs, t) {
        Some(i) => i,
        None => return Err(OpenLvError::NoSegment),
    };
    let s = &segs[i].1;
    assert(sv[i as int].1 == s@);
    if !(str_eq(s.seg_type.as_str(), "striped") && s.stripe_count == Some(1u64)) {
        return Err(OpenLvError::Unsupported("segment is not linear"));
    }
    let (pv, loc) = match &s.stripes {
        None => return Err(OpenLvError::Unsupported("segment has no stripes")),
        Some(x) => x,
    };
    if !str_eq(pv.as_str(), pv_name) {
        return Err(OpenLvError::Unsupported("segment data is on a different PV than the one opened"));
    }
    proof {
        lemma_find_segment_found(sv, t as int, 0);
        lemma_floor_mul(p as int, extent_bytes as int, s.start_extent as int);
    }
    let base = s.start_extent * extent_bytes;
    let offs = p - base;
    let t2 = match loc.checked_mul(extent_bytes) {
        Some(x) => match x.checked_add(offs) {
            Some(y) => y,
            None => return Err(OpenLvError::SeekOverflow),
        },
        None => return Err(OpenLvError::SeekOverflow),
    };
    let off = match area_offset_exec(dds, t2) {
        Ok((_, off)) => off,
        Err(AreaFail::Overflow) => return Err(OpenLvError::SeekOverflow),
        Err(AreaFail::Beyond) => return Err(OpenLvError::Unsupported("data is beyond the end of this PV")),
    };
    let se = match s.start_extent.checked_add(s.extent_count) {
        Some(e) => e,
        None => {
            assert(segment_end(s@) * extent_bytes > u64::MAX) by (nonlinear_arith)
                requires
                    segment_end(s@) > u64::MAX,
                    extent_bytes >= 1,
            ;
            return Err(OpenLvError::SeekOverflow);
        },
    };
    let end = match se.checked_mul(extent_bytes) {
        Some(e) => e,
        None => return Err(OpenLvError::SeekOverflow),
    };
    Ok(SeekPlan { lv_pos: p, pv_offset: off, segment_end: end })
}

/// What one read of an open logical volume does.
#[derive(Clone, Copy, Debug, PartialEq, Eq, Structural)]
pub enum ReadStep {
    /// The volume is at its end: the read yields nothing.
    Eof,
    /// The current segment is used up: seek the reader by the plan, record
    /// it with `commit_seek`, then read at most this many bytes.
    SeekThenRead(SeekPlan, usize),
    /// Read at most this many bytes at the reader's position.
    Read(usize),
}

/// At most `buf_len` bytes, and no more than remain before `end` from `pos`.
pub open spec fn read_amount(buf_len: usize, pos: u64, end: u64) -> usize {
    if buf_len <= end - pos {
        buf_len
    } else {
        (end - pos) as usize
    }
}

/// An open logical volume as the specification sees it (without its reader).
pub struct SpecOpenLV {
    pub lv: (Seq<char>, SpecLV),
    pub lvm: crate::SpecLvm2,
    pub position: u64,
    pub segment_end: u64,
}

/// An open, byte-addressable view of a logical volume over a reader of the
/// physical volume. The caller performs the reads and seeks on the reader
/// that the methods here decide on.
pub struct OpenLV<'a, T> {
    pub(crate) lv: LV<'a>,
    pub(crate) lvm: &'a Lvm2,
    pub(crate) reader: T,
    pub(crate) position: u64,
    pub(crate) current_segment_end: u64,
}

impl<'a, T> View for OpenLV<'a, T> {
    type V = SpecOpenLV;

    closed spec fn view(&self) -> SpecOpenLV {
        SpecOpenLV {
            lv: self.lv@,
            lvm: self.lvm@,
            position: self.position,
            segment_end: self.current_segment_end,
        }
    }
}

impl<'a, T> OpenLV<'a, T> {
    /// The reader of the physical volume.
    pub closed spec fn reader_spec(&self) -> T {
        self.reader
    }

    pub(crate) fn new(lv: LV<'a>, lvm: &'a Lvm2, reader: T) -> (r: Self)
        ensures
            r@ == (SpecOpenLV { lv: lv@, lvm: lvm@, position: 0, segment_end: 0 }),
            r.reader_spec() == reader,
    {
        OpenLV { lv, lvm, reader, position: 0, current_segment_end: 0 }
    }

    /// Resolves a seek: where the new position lies on the device. The
    /// caller seeks its reader to `pv_offset`, then calls [`Self::commit_seek`].
    /// Planning changes nothing, so a seek that fails here, or whose reader
    /// seek fails before the commit, leaves the volume as it was; it never
    /// yields [`OpenLvError::Pv`].
    pub fn plan_seek<E>(&self, pos: SeekPos) -> (r: Result<SeekPlan, OpenLvError<E>>)
        ensures
            match (r, spec_plan_seek(self@, pos)) {
                (Ok(x), Ok(sx)) => x == sx,
                (Err(e), Err(se)) => is_seek_fail(e, se),
                _ => false,
            },
    {
        let size = match self.size_bytes() {
            Some(x) => x,
            None => return Err(OpenLvError::SeekOverflow),
        };
        let eb = self.lvm.extent_size().unwrap();
        let p = match seek_target_exec(size, self.position, pos) {
            Some(p) => p,
            None => return Err(OpenLvError::SeekOverflow),
        };
        locate_exec(&self.lv.desc.segments.entries, eb, self.lvm.pv_name(), &self.lvm.pv_header().data_descriptors, p)
    }

    /// The size of the volume in bytes, when it fits `u64`.
    pub fn size_bytes(&self) -> (r: Option<u64>)
        ensures
            r == lv_size_bytes(self@),
    {
        let eb = match self.lvm.extent_size() {
            Some(eb) => eb,
            None => return None,
        };
        match self.lv.size_in_extents() {
            Some(m) => m.checked_mul(eb),
            None => None,
        }
    }

    /// True when the position has reached the end of the volume, where a
    /// read yields nothing.
    pub fn at_end(&self) -> (r: bool)
        ensures
            r == (lv_size_bytes(self@) matches Some(s) && self@.position >= s),
    {
        match self.size_bytes() {
            Some(s) => self.position >= s,
            None => false,
        }
    }

    /// Records a seek whose plan the reader has carried out.
    pub fn commit_seek(&mut self, plan: SeekPlan) -> (r: u64)
        ensures
            r == plan.lv_pos,
            final(self)@ == (SpecOpenLV { position: plan.lv_pos, segment_end: plan.segment_end, ..old(self)@ }),
            final(self).reader_spec() == old(self).reader_spec(),
    {
        self.position = plan.lv_pos;
        self.current_segment_end = plan.segment_end;
        plan.lv_pos
    }

    /// True when the position has reached the end of the segment last sought
    /// into, so that a read must first seek to the current position.
    pub fn needs_seek(&self) -> (r: bool)
        ensures
            r == (self@.position >= self@.segment_end),
    {
        self.position >= self.current_segment_end
    }

    /// How many bytes a read into a buffer of `buf_len` bytes may take: no
    /// more than remain in the current segment.
    pub fn read_len(&self, buf_len: usize) -> (r: usize)
        requires
            self@.position < self@.segment_end,
        ensures
            r == if buf_len as int <= self@.segment_end - self@.position {
                buf_len as int
            } else {
                self@.segment_end - self@.position
            },
    {
        let max_read = self.current_segment_end - self.position;
        if (buf_len as u64) > max_read {
            max_read as usize
        } else {
            buf_len
        }
    }

    /// Decides one read with a buffer of `buf_len` bytes; see [`ReadStep`].
    pub fn read_step<E>(&self, buf_len: usize) -> (r: Result<ReadStep, OpenLvError<E>>)
        ensures
            match (r, spec_read_step(self@, buf_len)) {
                (Ok(x), Ok(sx)) => x == sx,
                (Err(e), Err(se)) => is_seek_fail(e, se),
                _ => false,
            },
    {
        if self.position < self.current_segment_end {
            return Ok(ReadStep::Read(self.read_len(buf_len)));
        }
        if self.at_end() {
            return Ok(ReadStep::Eof);
        }
        let plan = self.plan_seek(SeekPos::Current(0))?;
        proof {
            law_seek_lands_in_segment(self@, SeekPos::Current(0));
        }
        let max_read = plan.segment_end - plan.lv_pos;
        let n = if (buf_len as u64) > max_read {
            max_read as usize
        } else {
            buf_len
        };
        Ok(ReadStep::SeekThenRead(plan, n))
    }

    /// Records that a read has taken `n` bytes.
    pub fn advance(&mut self, n: usize)
        ensures
            final(self)@ == (SpecOpenLV {
                position: if old(self)@.position + n > u64::MAX {
                    u64::MAX
                } else {
                    (old(self)@.position + n) as u64
                },
                ..old(self)@
            }),
            final(self).reader_spec() == old(self).reader_spec(),
    {
        self.position = self.position.saturating_add(n as u64);
    }

    /// The current position in the volume.
    pub fn position(&self) -> (r: u64)
        ensures
            r == self@.position,
    {
        self.position
    }

    /// The logical volume this reads.
    pub fn lv(&self) -> (r: LV<'a>)
        ensures
            r@ == self@.lv,
    {
        self.lv
    }

    /// The reader of the physical volume, to carry out planned seeks and reads.
    pub fn reader_mut(&mut self) -> (r: &mut T)
        ensures
            *r == old(self).reader_spec(),
            final(self).reader_spec() == *final(r),
            final(self)@ == old(self)@,
    {
        &mut self.reader
    }
}


// ---------------------------------------------------------------------------
// Laws of seeking

/// A relative seek by `x` followed by one by `-x` comes back to where it
/// started.
pub proof fn law_seek_back(len: u64, position: u64, x: i64)
    requires
        x != i64::MIN,
        seek_target(len, position, SeekPos::Current(x)) is Some,
    ensures
        seek_target(
            len,
            seek_target(len, position, SeekPos::Current(x))->Some_0,
            SeekPos::Current((-x) as i64),
        ) == Some(position),
{
}

/// A seek that succeeds lands inside a segment: at the sought position,
/// before the end of the segment that holds it, so that the next read takes
/// at least one byte without seeking again.
pub proof fn law_seek_lands_in_segment(o: SpecOpenLV, pos: SeekPos)
    requires
        spec_plan_seek(o, pos) is Ok,
    ensures
        ({
            let plan = spec_plan_seek(o, pos)->Ok_0;
            &&& seek_target(lv_size_bytes(o)->Some_0, o.position, pos) == Some(plan.lv_pos)
            &&& plan.lv_pos < plan.segment_end
        }),
{
    let eb = crate::extent_bytes(o.lvm)->Some_0;
    let segs = o.lv.1.segments;
    let plan = spec_plan_seek(o, pos)->Ok_0;
    let p = plan.lv_pos;
    assert(eb > 0);
    lemma_find_segment_found(segs, (p / eb) as int, 0);
    let i = find_segment(segs, (p / eb) as int, 0)->Some_0;
    lemma_in_segment(p as int, eb as int, segs[i].1.start_extent as int, segs[i].1.extent_count as int);
}

/// Seeking again to where a seek landed, from the state that seek left,
/// whether to the current position or to the same target, gives the same
/// plan.
pub proof fn law_seek_again(o: SpecOpenLV, pos: SeekPos)
    requires
        spec_plan_seek(o, pos) is Ok,
    ensures
        ({
            let plan = spec_plan_seek(o, pos)->Ok_0;
            let after = SpecOpenLV { position: plan.lv_pos, segment_end: plan.segment_end, ..o };
            &&& spec_plan_seek(after, SeekPos::Current(0)) == Ok::<SeekPlan, SeekFail>(plan)
            &&& spec_plan_seek(after, SeekPos::Start(plan.lv_pos)) == Ok::<SeekPlan, SeekFail>(plan)
        }),
{
    law_seek_lands_in_segment(o, pos);
}

/// Seeking is complete. When extent `p / eb` of byte `p` lies in a segment
/// (and in no earlier one) that is linear and on this physical volume, the
/// first data area runs to the end of the device, and the device offset of
/// `p` fits `u64`, seeking to `p` lands there: at `loc * eb + (p - start *
/// eb)` bytes into the data area, before the end of that segment.
pub proof fn law_seek_complete(o: SpecOpenLV, p: u64, i: int, loc: u64)
    requires
        lv_size_bytes(o) is Some,
        crate::extent_bytes(o.lvm)->Some_0 > 0,
        0 <= i < o.lv.1.segments.len(),
        ({
            let eb = crate::extent_bytes(o.lvm)->Some_0;
            let segs = o.lv.1.segments;
            let s = segs[i].1;
            let dds = o.lvm.pvh.data_descriptors;
            &&& s.start_extent <= p / eb < s.start_extent + s.extent_count
            &&& forall|j: int| 0 <= j < i ==> !((#[trigger] segs[j].1).start_extent <= p / eb < segs[j].1.start_extent + segs[j].1.extent_count)
            &&& s.seg_type == "striped"@
            &&& s.stripe_count == Some(1u64)
            &&& s.stripes == Some((o.lvm.pv_name, loc))
            &&& dds.len() > 0
            &&& dds[0].size == 0
            &&& loc * eb + (p - s.start_extent * eb) + dds[0].offset <= u64::MAX
        }),
    ensures
        ({
            let eb = crate::extent_bytes(o.lvm)->Some_0;
            let s = o.lv.1.segments[i].1;
            spec_plan_seek(o, SeekPos::Start(p)) == Ok::<SeekPlan, SeekFail>(
                SeekPlan {
                    lv_pos: p,
                    pv_offset: (loc * eb + (p - s.start_extent * eb) + o.lvm.pvh.data_descriptors[0].offset) as u64,
                    segment_end: ((s.start_extent + s.extent_count) * eb) as u64,
                },
            )
        }),
{
    let eb = crate::extent_bytes(o.lvm)->Some_0;
    let segs = o.lv.1.segments;
    let s = segs[i].1;
    let t = (p / eb) as int;
    lemma_find_segment_found(segs, t, 0);
    lemma_find_first(segs, t, i, 0);
    lemma_floor_mul(p as int, eb as int, s.start_extent as int);
    lemma_max_segment_end_bound(segs);
    let m = max_segment_end(segs);
    assert(segment_end(s) <= m);
    assert(segment_end(s) * eb <= m * eb) by (nonlinear_arith)
        requires
            segment_end(s) <= m,
            eb > 0,
    ;
}

proof fn lemma_find_first(segs: Seq<(Seq<char>, SpecSegment)>, t: int, i: int, k: int)
    requires
        0 <= k <= i < segs.len(),
        segs[i].1.start_extent <= t < segment_end(segs[i].1),
        forall|j: int| 0 <= j < i ==> !((#[trigger] segs[j].1).start_extent <= t < segs[j].1.start_extent + segs[j].1.extent_count),
    ensures
        find_segment(segs, t, k) == Some(i),
    decreases i - k,
{
    if k < i {
        lemma_find_first(segs, t, i, k + 1);
    }
}

} // verus!
