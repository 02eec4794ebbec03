//! Read-only LVM2 logical volume reader.
//!
//! The on-disk structures of a physical volume (label, header, metadata area
//! header) and the volume group metadata text are parsed by verified
//! functions; the mapping of logical-volume byte offsets onto physical-volume
//! byte offsets is verified as well. Reading and seeking on an actual device
//! is left to the caller, which drives the verified decision functions.
//!
//! Vocabulary: a "sheet" is a block of exactly 512 bytes.
//!
//! Coverage: linear logical volumes on a single physical volume. Striped,
//! mirrored, thin, snapshot and cache segments, and segments on other
//! physical volumes, are refused with [`OpenLvError::Unsupported`].
use vstd::prelude::*;
use vstd::utf8::*;

pub mod header;
mod support;
pub mod text;
pub mod namemap;
pub mod metadata;
pub mod lv;
pub mod open;
pub mod owned;

pub use crate::lv::{OpenLV, OpenLvError, ReadStep, SeekPlan, SeekPos, LV};
pub use crate::open::{Lvm2Opener, OpenStep, ReadRequest};
pub use crate::owned::OwnedLvReader;

use crate::header::{PhysicalVolumeHeader, SpecPvHeader};
use crate::metadata::{LVDesc, MetadataRoot, SpecLV, SpecRoot, SpecSegment};
use crate::namemap::{map_get, names_sorted};
use crate::lv::SpecOpenLV;

verus! {

broadcast use vstd::string::group_string_axioms;

/// The error kinds of `embedded_io`, carried by [`Error::Io`].
#[verifier::external_type_specification]
#[verifier::external_body]
pub struct ExErrorKind(embedded_io::ErrorKind);

/// Errors of opening a physical volume.
#[derive(Debug, PartialEq, Eq)]
pub enum Error {
    /// I/O failure from the underlying reader.
    Io { kind: embedded_io::ErrorKind },
    /// The underlying reader ended before a read could complete.
    UnexpectedEof,
    /// The label header in sheet 1 does not carry the `LABELONE` magic.
    WrongMagic,
    /// A binary header, or the placement of the metadata, is malformed.
    Parse { reason: String },
    /// The metadata does not describe exactly one volume group.
    MultipleVGs,
    /// The metadata does not list the physical volume that was opened.
    PVDoesntContainItself,
    /// The metadata text does not have the shape of a volume group description.
    Serde { reason: String },
    /// The physical volume header has no metadata area descriptor.
    MissingMetadata,
    /// The metadata text is not valid UTF-8.
    MetadataNotUtf8,
}

/// [`Error`] as the specification sees it.
pub enum SpecError {
    Io(embedded_io::ErrorKind),
    UnexpectedEof,
    WrongMagic,
    Parse(Seq<char>),
    MultipleVGs,
    PVDoesntContainItself,
    Serde(Seq<char>),
    MissingMetadata,
    MetadataNotUtf8,
}

impl View for Error {
    type V = SpecError;

    open spec fn view(&self) -> SpecError {
        match self {
            Error::Io { kind } => SpecError::Io(*kind),
            Error::UnexpectedEof => SpecError::UnexpectedEof,
            Error::WrongMagic => SpecError::WrongMagic,
            Error::Parse { reason } => SpecError::Parse(reason@),
            Error::MultipleVGs => SpecError::MultipleVGs,
            Error::PVDoesntContainItself => SpecError::PVDoesntContainItself,
            Error::Serde { reason } => SpecError::Serde(reason@),
            Error::MissingMetadata => SpecError::MissingMetadata,
            Error::MetadataNotUtf8 => SpecError::MetadataNotUtf8,
        }
    }
}

/// A parsed physical volume as the specification sees it.
pub struct SpecLvm2 {
    pub pvh: SpecPvHeader,
    pub pv_name: Seq<char>,
    pub vg_name: Seq<char>,
    pub vg: SpecRoot,
}

/// The end (exclusive) of a segment's extents.
pub open spec fn segment_end(s: SpecSegment) -> int {
    s.start_extent + s.extent_count
}

/// The bytes of `b` other than `-`.
pub open spec fn strip_dashes(b: Seq<u8>) -> Seq<u8> {
    b.filter(|x: u8| x != 0x2d)
}

/// `id` with its dashes removed spells `ident`.
pub open spec fn id_matches(id: Seq<char>, ident: Seq<char>) -> bool {
    strip_dashes(encode_utf8(id)) == encode_utf8(ident)
}

/// The invariant of a parsed physical volume: its physical and logical
/// volumes are sorted by name, and it lists this physical volume under an
/// identifier that, without its dashes, spells the identifier in the
/// physical volume header.
pub open spec fn lvm_wf(l: SpecLvm2) -> bool {
    &&& names_sorted(l.vg.physical_volumes)
    &&& names_sorted(l.vg.logical_volumes)
    &&& map_get(l.vg.physical_volumes, l.pv_name) matches Some(pv) && id_matches(pv.id, l.pvh.pv_ident)
}

/// The size of an extent in bytes, when it fits `u64`.
pub open spec fn extent_bytes(l: SpecLvm2) -> Option<u64> {
    if l.vg.extent_size * 512 > u64::MAX {
        None
    } else {
        Some((l.vg.extent_size * 512) as u64)
    }
}

/// A parsed LVM2 physical volume, with the metadata of its volume group.
pub struct Lvm2 {
    pvh: PhysicalVolumeHeader,
    pv_name: String,
    vg_name: String,
    vg_config: MetadataRoot,
}

impl View for Lvm2 {
    type V = SpecLvm2;

    closed spec fn view(&self) -> SpecLvm2 {
        SpecLvm2 {
            pvh: self.pvh@,
            pv_name: self.pv_name@,
            vg_name: self.vg_name@,
            vg: self.vg_config@,
        }
    }
}

/// The first position of `lvs` whose logical volume has the identifier `id`.
pub open spec fn find_lv_by_id(lvs: Seq<(Seq<char>, SpecLV)>, id: Seq<char>, i: int) -> Option<int>
    decreases lvs.len() - i,
{
    if i < 0 || i >= lvs.len() {
        None
    } else if lvs[i].1.id == id {
        Some(i)
    } else {
        find_lv_by_id(lvs, id, i + 1)
    }
}

/// Looking a logical volume up by identifier finds one exactly when some
/// logical volume has that identifier, and then it finds the first of them.
pub proof fn law_find_lv_by_id(lvs: Seq<(Seq<char>, SpecLV)>, id: Seq<char>)
    ensures
        find_lv_by_id(lvs, id, 0) is Some <==> exists|i: int| 0 <= i < lvs.len() && (#[trigger] lvs[i]).1.id == id,
        find_lv_by_id(lvs, id, 0) matches Some(i) ==> {
            &&& 0 <= i < lvs.len()
            &&& lvs[i].1.id == id
            &&& forall|j: int| 0 <= j < i ==> (#[trigger] lvs[j]).1.id != id
        },
{
    lemma_find_lv_by_id_from(lvs, id, 0);
}

proof fn lemma_find_lv_by_id_from(lvs: Seq<(Seq<char>, SpecLV)>, id: Seq<char>, k: int)
    requires
        0 <= k,
    ensures
        find_lv_by_id(lvs, id, k) is Some <==> exists|i: int| k <= i < lvs.len() && (#[trigger] lvs[i]).1.id == id,
        find_lv_by_id(lvs, id, k) matches Some(i) ==> {
            &&& k <= i < lvs.len()
            &&& lvs[i].1.id == id
            &&& forall|j: int| k <= j < i ==> (#[trigger] lvs[j]).1.id != id
        },
    decreases lvs.len() - k,
{
    if k < lvs.len() {
        lemma_find_lv_by_id_from(lvs, id, k + 1);
        if lvs[k].1.id != id {
            if exists|i: int| k <= i < lvs.len() && (#[trigger] lvs[i]).1.id == id {
                let i = choose|i: int| k <= i < lvs.len() && (#[trigger] lvs[i]).1.id == id;
                assert(k + 1 <= i);
            }
        }
    }
}

impl Lvm2 {
    #[verifier::type_invariant]
    spec fn inv(self) -> bool {
        lvm_wf(self@)
    }

    pub(crate) fn from_parts(
        pvh: PhysicalVolumeHeader,
        pv_name: String,
        vg_name: String,
        vg_config: MetadataRoot,
    ) -> (r: Self)
        requires
            lvm_wf(SpecLvm2 { pvh: pvh@, pv_name: pv_name@, vg_name: vg_name@, vg: vg_config@ }),
        ensures
            r@ == (SpecLvm2 { pvh: pvh@, pv_name: pv_name@, vg_name: vg_name@, vg: vg_config@ }),
    {
        Lvm2 { pvh, pv_name, vg_name, vg_config }
    }

    /// The identifier of this physical volume, as the metadata writes it;
    /// without its dashes it spells the identifier in the header.
    pub fn pv_id(&self) -> (r: &str)
        ensures
            map_get(self@.vg.physical_volumes, self@.pv_name) matches Some(pv) && r@ == pv.id,
            id_matches(r@, self@.pvh.pv_ident),
    {
        proof {
            use_type_invariant(self);
        }
        self.vg_config.physical_volumes.get(self.pv_name.as_str()).unwrap().id.as_str()
    }

    /// The name under which the metadata lists this physical volume.
    pub fn pv_name(&self) -> (r: &str)
        ensures
            r@ == self@.pv_name,
    {
        self.pv_name.as_str()
    }

    pub fn vg_name(&self) -> (r: &str)
        ensures
            r@ == self@.vg_name,
    {
        self.vg_name.as_str()
    }

    pub fn vg_id(&self) -> (r: &str)
        ensures
            r@ == self@.vg.id,
    {
        self.vg_config.id.as_str()
    }

    /// The size of an extent in bytes: `None` when it does not fit `u64`.
    pub fn extent_size(&self) -> (r: Option<u64>)
        ensures
            r == extent_bytes(self@),
    {
        self.vg_config.extent_size.checked_mul(512)
    }

    pub(crate) fn pv_header(&self) -> (r: &PhysicalVolumeHeader)
        ensures
            r@ == self@.pvh,
    {
        &self.pvh
    }
}


impl Lvm2 {
    /// The logical volumes of the volume group, in name order.
    pub fn lvs(&self) -> (r: Vec<LV<'_>>)
        ensures
            r@.len() == self@.vg.logical_volumes.len(),
            forall|i: int| 0 <= i < r@.len() ==> (#[trigger] r@[i])@ == self@.vg.logical_volumes[i],
            names_sorted(self@.vg.logical_volumes),
    {
        proof {
            use_type_invariant(self);
        }
        let es = &self.vg_config.logical_volumes.entries;
        let ghost m = self@.vg.logical_volumes;
        let mut out: Vec<LV<'_>> = Vec::new();
        let mut i: usize = 0;
        while i < es.len()
            invariant
                m == self@.vg.logical_volumes,
                m == crate::namemap::pairs_view(es@),
                i <= es@.len(),
                out@.len() == i,
                forall|j: int| 0 <= j < i ==> (#[trigger] out@[j])@ == m[j],
            decreases es@.len() - i,
        {
            assert(m[i as int] == (es@[i as int].0@, es@[i as int].1@));
            out.push(LV::new(es[i].0.as_str(), &es[i].1));
            i = i + 1;
        }
        out
    }

    /// Opens a logical volume of this physical volume over `reader`.
    pub fn open_lv<'a, T>(&'a self, lv: LV<'a>, reader: T) -> (r: OpenLV<'a, T>)
        ensures
            r@ == (SpecOpenLV { lv: lv@, lvm: self@, position: 0, segment_end: 0 }),
            r.reader_spec() == reader,
    {
        OpenLV::new(lv, self, reader)
    }

    /// The logical volume named `name`, if there is one.
    pub(crate) fn vg_config_lookup(&self, name: &str) -> (r: Option<LV<'_>>)
        ensures
            match (r, map_get(self@.vg.logical_volumes, name@)) {
                (Some(lv), Some(d)) => lv@ == (name@, d),
                (None, None) => true,
                _ => false,
            },
    {
        match self.vg_config.logical_volumes.get_key_value(name) {
            Some((n, d)) => Some(LV::new(n.as_str(), d)),
            None => None,
        }
    }

    /// The first logical volume, in name order, whose identifier is `id`.
    pub(crate) fn lv_by_id(&self, id: &str) -> (r: Option<LV<'_>>)
        ensures
            match (r, find_lv_by_id(self@.vg.logical_volumes, id@, 0)) {
                (Some(lv), Some(i)) => lv@ == self@.vg.logical_volumes[i],
                (None, None) => true,
                _ => false,
            },
    {
        let lvs = self.lvs();
        let mut i: usize = 0;
        while i < lvs.len()
            invariant
                i <= lvs@.len(),
                lvs@.len() == self@.vg.logical_volumes.len(),
                forall|j: int| 0 <= j < lvs@.len() ==> (#[trigger] lvs@[j])@ == self@.vg.logical_volumes[j],
                find_lv_by_id(self@.vg.logical_volumes, id@, 0) == find_lv_by_id(
                    self@.vg.logical_volumes,
                    id@,
                    i as int,
                ),
            decreases lvs@.len() - i,
        {
            let lv = lvs[i];
            if crate::namemap::str_eq(lv.id(), id) {
                return Some(lv);
            }
            i = i + 1;
        }
        None
    }

    /// Opens the logical volume named `name`, if there is one.
    pub fn open_lv_by_name<'a, T>(&'a self, name: &str, reader: T) -> (r: Option<OpenLV<'a, T>>)
        ensures
            match (r, map_get(self@.vg.logical_volumes, name@)) {
                (Some(o), Some(d)) => o@ == (SpecOpenLV {
                    lv: (name@, d),
                    lvm: self@,
                    position: 0,
                    segment_end: 0,
                }) && o.reader_spec() == reader,
                (None, None) => true,
                _ => false,
            },
    {
        match self.vg_config_lookup(name) {
            Some(lv) => Some(self.open_lv(lv, reader)),
            None => None,
        }
    }

    /// Opens the first logical volume, in name order, whose identifier is `id`.
    pub fn open_lv_by_id<'a, T>(&'a self, id: &str, reader: T) -> (r: Option<OpenLV<'a, T>>)
        ensures
            match (r, find_lv_by_id(self@.vg.logical_volumes, id@, 0)) {
                (Some(o), Some(i)) => o@ == (SpecOpenLV {
                    lv: self@.vg.logical_volumes[i],
                    lvm: self@,
                    position: 0,
                    segment_end: 0,
                }) && o.reader_spec() == reader,
                (None, None) => true,
                _ => false,
            },
    {
        match self.lv_by_id(id) {
            Some(lv) => Some(self.open_lv(lv, reader)),
            None => None,
        }
    }
}

} // verus!
