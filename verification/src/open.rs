//! Opening a physical volume: the decisions of reading its label, its
//! metadata area header and its metadata text.
//!
//! [`Lvm2Opener`] is a state machine. It asks for one read at a time (an
//! offset on the device and a length); the caller performs the read and
//! feeds the bytes back, until the opener yields the parsed [`Lvm2`].
//! [`Lvm2::open_image`] runs the same machine over a device image in memory.
use vstd::prelude::*;
use vstd::string::StringExecFns;
use vstd::utf8::*;

use crate::header::{
    spec_parse_label, spec_parse_metadata_area_header, spec_parse_pv_header, HeaderError,
    LocationDescriptor, MetadataAreaHeader, PhysicalVolumeHeader, PhysicalVolumeLabelHeader,
    SpecPvHeader,
};
use crate::metadata::{
    field_err, lemma_root_sorted, lemma_sections_map_entries, section_map, section_map_exec,
    section_names, spec_root, FieldError, FieldProblem, MetadataRoot, SpecFieldError, SpecPV, SpecRoot,
};
use crate::namemap::{lemma_map_get_at, map_get};
use crate::support::str_from_utf8;
use crate::text::{spec_parse_metadata, MetadataElements};
use crate::{id_matches, Error, Lvm2, SpecError, SpecLvm2};

verus! {

broadcast use vstd::string::group_string_axioms;

// ---------------------------------------------------------------------------
// Error reasons

/// The reason given for a malformed binary header.
pub open spec fn header_reason(e: HeaderError) -> Seq<char> {
    match e {
        HeaderError::Truncated => "structure is truncated"@,
        HeaderError::WrongMagic => "label has wrong magic"@,
        HeaderError::BadTypeIndicator => "label has wrong type indicator"@,
        HeaderError::BadIdentifier => "PV identifier is not valid UTF-8"@,
        HeaderError::UnterminatedList => "descriptor list is not terminated"@,
        HeaderError::BadSignature => "metadata area header has wrong signature"@,
    }
}

fn header_reason_exec(e: HeaderError) -> (r: String)
    ensures
        r@ == header_reason(e),
{
    match e {
        HeaderError::Truncated => "structure is truncated".to_owned(),
        HeaderError::WrongMagic => "label has wrong magic".to_owned(),
        HeaderError::BadTypeIndicator => "label has wrong type indicator".to_owned(),
        HeaderError::BadIdentifier => "PV identifier is not valid UTF-8".to_owned(),
        HeaderError::UnterminatedList => "descriptor list is not terminated".to_owned(),
        HeaderError::BadSignature => "metadata area header has wrong signature".to_owned(),
    }
}

/// The reason given when the metadata text does not describe a volume group.
pub open spec fn field_reason(e: SpecFieldError) -> Seq<char> {
    match e.problem {
        FieldProblem::Missing => "missing field `"@ + e.field + "`"@,
        FieldProblem::Duplicate => "duplicate field `"@ + e.field + "`"@,
        FieldProblem::InvalidType => "invalid type for field `"@ + e.field + "`"@,
    }
}

fn field_reason_exec(e: &FieldError) -> (r: String)
    ensures
        r@ == field_reason(e@),
{
    let mut s = match e.problem {
        FieldProblem::Missing => "missing field `".to_owned(),
        FieldProblem::Duplicate => "duplicate field `".to_owned(),
        FieldProblem::InvalidType => "invalid type for field `".to_owned(),
    };
    s.append(e.field.as_str());
    s.append("`");
    s
}

pub open spec fn offset_reason() -> Seq<char> {
    "PV header offset lies outside the label sheet"@
}

pub open spec fn location_reason() -> Seq<char> {
    "metadata location overflows u64"@
}

pub open spec fn size_reason() -> Seq<char> {
    "metadata area size overflows usize"@
}

fn parse_err(reason: &str) -> (e: Error)
    ensures
        e@ == SpecError::Parse(reason@),
{
    Error::Parse { reason: reason.to_owned() }
}

// ---------------------------------------------------------------------------
// The steps

/// A read of `len` bytes at device offset `offset`.
#[derive(Clone, Copy, Debug, PartialEq, Eq, Structural)]
pub struct ReadRequest {
    pub offset: u64,
    pub len: usize,
}

/// The read of the label sheet.
pub open spec fn label_request() -> ReadRequest {
    ReadRequest { offset: 512, len: 512 }
}

/// From the label sheet: the physical volume header and the offset of the
/// first metadata area.
pub open spec fn after_label(sheet: Seq<u8>) -> Result<(SpecPvHeader, u64), SpecError> {
    match spec_parse_label(sheet) {
        Err(HeaderError::WrongMagic) => Err(SpecError::WrongMagic),
        Err(e) => Err(SpecError::Parse(header_reason(e))),
        Ok(label) => if label.data_offset > sheet.len() {
            Err(SpecError::Parse(offset_reason()))
        } else {
            match spec_parse_pv_header(sheet.skip(label.data_offset as int)) {
                Err(e) => Err(SpecError::Parse(header_reason(e))),
                Ok(pvh) => if pvh.metadata_descriptors.len() == 0 {
                    Err(SpecError::MissingMetadata)
                } else {
                    Ok((pvh, pvh.metadata_descriptors[0].offset))
                },
            }
        },
    }
}

fn feed_label(sheet: &[u8]) -> (r: Result<(PhysicalVolumeHeader, u64), Error>)
    ensures
        match (r, after_label(sheet@)) {
            (Ok((h, o)), Ok((sh, so))) => h@ == sh && o == so,
            (Err(e), Err(se)) => e@ == se,
            _ => false,
        },
{
    let label = match PhysicalVolumeLabelHeader::parse(sheet) {
        Ok(l) => l,
        Err(HeaderError::WrongMagic) => return Err(Error::WrongMagic),
        Err(e) => return Err(Error::Parse { reason: header_reason_exec(e) }),
    };
    if label.data_offset as usize > sheet.len() {
        return Err(parse_err("PV header offset lies outside the label sheet"));
    }
    let rest = vstd::slice::slice_subrange(sheet, label.data_offset as usize, sheet.len());
    assert(rest@ =~= sheet@.skip(label.data_offset as int));
    let pvh = match PhysicalVolumeHeader::parse(rest) {
        Ok(h) => h,
        Err(e) => return Err(Error::Parse { reason: header_reason_exec(e) }),
    };
    if pvh.metadata_descriptors.len() == 0 {
        return Err(Error::MissingMetadata);
    }
    let area_offset = pvh.metadata_descriptors[0].offset;
    Ok((pvh, area_offset))
}

/// From the metadata area header sheet: its location descriptors.
pub open spec fn after_area_header(sheet: Seq<u8>) -> Result<Seq<LocationDescriptor>, SpecError> {
    match spec_parse_metadata_area_header(sheet) {
        Err(e) => Err(SpecError::Parse(header_reason(e))),
        Ok(mah) => Ok(mah.location_descriptors),
    }
}

fn feed_area_header(sheet: &[u8]) -> (r: Result<Vec<LocationDescriptor>, Error>)
    ensures
        match (r, after_area_header(sheet@)) {
            (Ok(l), Ok(sl)) => l@ == sl,
            (Err(e), Err(se)) => e@ == se,
            _ => false,
        },
{
    match MetadataAreaHeader::parse(sheet) {
        Ok(mah) => Ok(mah.location_descriptors),
        Err(e) => Err(Error::Parse { reason: header_reason_exec(e) }),
    }
}

/// The read of the metadata text of location `next`, after `text_len` bytes
/// of text; `None` once every location has been read.
pub open spec fn location_request(
    area_offset: u64,
    locs: Seq<LocationDescriptor>,
    next: int,
    text_len: int,
) -> Result<Option<ReadRequest>, SpecError> {
    if next < 0 || next >= locs.len() {
        Ok(None)
    } else if area_offset + locs[next].data_area_offset > u64::MAX {
        Err(SpecError::Parse(location_reason()))
    } else if locs[next].data_area_size > usize::MAX || text_len + locs[next].data_area_size > usize::MAX {
        Err(SpecError::Parse(size_reason()))
    } else {
        Ok(
            Some(
                ReadRequest {
                    offset: (area_offset + locs[next].data_area_offset) as u64,
                    len: locs[next].data_area_size as usize,
                },
            ),
        )
    }
}

fn location_request_exec(
    area_offset: u64,
    locs: &Vec<LocationDescriptor>,
    next: usize,
    text_len: usize,
) -> (r: Result<Option<ReadRequest>, Error>)
    ensures
        match (r, location_request(area_offset, locs@, next as int, text_len as int)) {
            (Ok(q), Ok(sq)) => q == sq,
            (Err(e), Err(se)) => e@ == se,
            _ => false,
        },
{
    if next >= locs.len() {
        return Ok(None);
    }
    let loc = locs[next];
    let offset = match area_offset.checked_add(loc.data_area_offset) {
        Some(o) => o,
        None => return Err(parse_err("metadata location overflows u64")),
    };
    if loc.data_area_size > usize::MAX as u64 {
        return Err(parse_err("metadata area size overflows usize"));
    }
    let len = loc.data_area_size as usize;
    if text_len > usize::MAX - len {
        return Err(parse_err("metadata area size overflows usize"));
    }
    Ok(Some(ReadRequest { offset, len }))
}

fn id_matches_exec(id: &str, ident: &str) -> (r: bool)
    ensures
        r == id_matches(id@, ident@),
{
    let b = id.as_bytes();
    let mut stripped: Vec<u8> = Vec::new();
    let mut i: usize = 0;
    assert(b@.take(0).filter(|x: u8| x != 0x2d) =~= Seq::<u8>::empty());
    while i < b.len()
        invariant
            b@ == encode_utf8(id@),
            i <= b@.len(),
            stripped@ == b@.take(i as int).filter(|x: u8| x != 0x2d),
        decreases b@.len() - i,
    {
        reveal_with_fuel(Seq::<_>::filter, 1);
        assert(b@.take(i + 1).drop_last() =~= b@.take(i as int));
        if b[i] != 0x2d {
            stripped.push(b[i]);
        }
        i = i + 1;
    }
    assert(b@.take(b@.len() as int) =~= b@);
    crate::support::bytes_equal(stripped.as_slice(), ident.as_bytes())
}

/// The first physical volume, in name order, whose identifier matches `ident`.
pub open spec fn find_pv(pvs: Seq<(Seq<char>, SpecPV)>, ident: Seq<char>, i: int) -> Option<int>
    decreases pvs.len() - i,
{
    if i < 0 || i >= pvs.len() {
        None
    } else if id_matches(pvs[i].1.id, ident) {
        Some(i)
    } else {
        find_pv(pvs, ident, i + 1)
    }
}

#[verifier::opaque]
/// From the physical volume header and the whole metadata text: the parsed
/// physical volume. The text must be UTF-8, describe exactly one volume
/// group, and list this physical volume.
pub open spec fn finish(pvh: SpecPvHeader, text: Seq<u8>) -> Result<SpecLvm2, SpecError> {
    if !valid_utf8(text) {
        Err(SpecError::MetadataNotUtf8)
    } else {
        match section_map::<MetadataRoot>(spec_parse_metadata(text), Seq::empty()) {
            Err(fe) => Err(SpecError::Serde(field_reason(fe))),
            Ok(vgs) => if vgs.len() != 1 {
                Err(SpecError::MultipleVGs)
            } else {
                match find_pv(vgs[0].1.physical_volumes, pvh.pv_ident, 0) {
                    None => Err(SpecError::PVDoesntContainItself),
                    Some(i) => Ok(
                        SpecLvm2 {
                            pvh,
                            pv_name: vgs[0].1.physical_volumes[i].0,
                            vg_name: vgs[0].0,
                            vg: vgs[0].1,
                        },
                    ),
                }
            },
        }
    }
}

#[verifier::loop_isolation(false)]
fn finish_exec(pvh: PhysicalVolumeHeader, text: &[u8]) -> (r: Result<Lvm2, Error>)
    ensures
        match (r, finish(pvh@, text@)) {
            (Ok(l), Ok(sl)) => l@ == sl,
            (Err(e), Err(se)) => e@ == se,
            _ => false,
        },
{
    reveal(finish);
    if str_from_utf8(text).is_none() {
        return Err(Error::MetadataNotUtf8);
    }
    let (_, elements) = MetadataElements::parse(text);
    let top: Vec<String> = Vec::new();
    assert(crate::text::names_view(top@) =~= Seq::<Seq<char>>::empty());
    let mut vgs = match section_map_exec::<MetadataRoot>(&elements.entries, &top) {
        Ok(m) => m,
        Err(fe) => return Err(Error::Serde { reason: field_reason_exec(&fe) }),
    };
    if vgs.entries.len() != 1 {
        return Err(Error::MultipleVGs);
    }
    let ghost sv = vgs@;
    let (vg_name, vg) = vgs.entries.pop().unwrap();
    assert(sv[0] == (vg_name@, vg@));
    proof {
        let ev = crate::text::entries_view(elements.entries@);
        let top_path = Seq::<Seq<char>>::empty();
        lemma_sections_map_entries::<MetadataRoot>(ev, top_path, section_names(ev, top_path));
        assert(spec_root(ev, top_path.push(sv[0].0)) == Ok::<SpecRoot, SpecFieldError>(vg@));
        lemma_root_sorted(ev, top_path.push(sv[0].0));
    }
    let pvs = &vg.physical_volumes.entries;
    let ghost pv = vg@.physical_volumes;
    let mut i: usize = 0;
    while i < pvs.len()
        invariant
            pv == vg@.physical_volumes,
            pv == crate::namemap::pairs_view(pvs@),
            i <= pvs@.len(),
            find_pv(pv, pvh@.pv_ident, 0) == find_pv(pv, pvh@.pv_ident, i as int),
        decreases pvs@.len() - i,
    {
        assert(pv[i as int] == (pvs@[i as int].0@, pvs@[i as int].1@));
        if id_matches_exec(pvs[i].1.id.as_str(), pvh.pv_ident.as_str()) {
            let pv_name = pvs[i].0.clone();
            proof {
                lemma_map_get_at(pv, i as int);
            }
            return Ok(Lvm2::from_parts(pvh, pv_name, vg_name, vg));
        }
        i = i + 1;
    }
    Err(Error::PVDoesntContainItself)
}

// ---------------------------------------------------------------------------
// The state machine

/// Where an opener stands, as the specification sees it.
pub enum SpecStage {
    /// Awaiting the label sheet.
    Label,
    /// Awaiting the metadata area header sheet.
    AreaHeader { pvh: SpecPvHeader, area_offset: u64 },
    /// Awaiting the text of location `next`, with the text read so far.
    Text {
        pvh: SpecPvHeader,
        area_offset: u64,
        locations: Seq<LocationDescriptor>,
        next: int,
        text: Seq<u8>,
    },
}

/// The outcome of feeding an opener: another read, or the parsed volume.
pub enum SpecStep {
    Read(SpecStage, ReadRequest),
    Done(SpecLvm2),
}

/// Going on from location `next` of the metadata text.
#[verifier::opaque]
pub open spec fn text_step(
    pvh: SpecPvHeader,
    area_offset: u64,
    locs: Seq<LocationDescriptor>,
    next: int,
    text: Seq<u8>,
) -> Result<SpecStep, SpecError> {
    match location_request(area_offset, locs, next, text.len() as int) {
        Err(e) => Err(e),
        Ok(Some(q)) => Ok(
            SpecStep::Read(
                SpecStage::Text { pvh, area_offset, locations: locs, next, text },
                q,
            ),
        ),
        Ok(None) => match finish(pvh, text) {
            Err(e) => Err(e),
            Ok(l) => Ok(SpecStep::Done(l)),
        },
    }
}

/// Feeding the bytes of the requested read to an opener at `stage`.
pub open spec fn spec_feed(stage: SpecStage, data: Seq<u8>) -> Result<SpecStep, SpecError> {
    match stage {
        SpecStage::Label => match after_label(data) {
            Err(e) => Err(e),
            Ok((pvh, ao)) => Ok(
                SpecStep::Read(
                    SpecStage::AreaHeader { pvh, area_offset: ao },
                    ReadRequest { offset: ao, len: 512 },
                ),
            ),
        },
        SpecStage::AreaHeader { pvh, area_offset } => match after_area_header(data) {
            Err(e) => Err(e),
            Ok(locs) => text_step(pvh, area_offset, locs, 0, Seq::empty()),
        },
        SpecStage::Text { pvh, area_offset, locations, next, text } => text_step(
            pvh,
            area_offset,
            locations,
            next + 1,
            text + data,
        ),
    }
}

enum Stage {
    Label,
    AreaHeader { pvh: PhysicalVolumeHeader, area_offset: u64 },
    Text {
        pvh: PhysicalVolumeHeader,
        area_offset: u64,
        locations: Vec<LocationDescriptor>,
        next: usize,
        text: Vec<u8>,
    },
}

impl View for Stage {
    type V = SpecStage;

    closed spec fn view(&self) -> SpecStage {
        match self {
            Stage::Label => SpecStage::Label,
            Stage::AreaHeader { pvh, area_offset } => SpecStage::AreaHeader {
                pvh: pvh@,
                area_offset: *area_offset,
            },
            Stage::Text { pvh, area_offset, locations, next, text } => SpecStage::Text {
                pvh: pvh@,
                area_offset: *area_offset,
                locations: locations@,
                next: *next as int,
                text: text@,
            },
        }
    }
}

/// Opens a physical volume one read at a time.
pub struct Lvm2Opener {
    stage: Stage,
    request: ReadRequest,
}

/// The outcome of feeding an opener.
pub enum OpenStep {
    /// The opener awaits another read: see [`Lvm2Opener::request`].
    Read(Lvm2Opener),
    /// The physical volume is open.
    Done(Lvm2),
}

impl Lvm2Opener {
    #[verifier::type_invariant]
    spec fn inv(self) -> bool {
        match self.stage {
            Stage::Text { locations, next, .. } => next < locations@.len(),
            _ => true,
        }
    }
}

impl View for Lvm2Opener {
    type V = (SpecStage, ReadRequest);

    closed spec fn view(&self) -> (SpecStage, ReadRequest) {
        (self.stage@, self.request)
    }
}

pub open spec fn step_matches(r: Result<OpenStep, Error>, s: Result<SpecStep, SpecError>) -> bool {
    match (r, s) {
        (Ok(OpenStep::Read(o)), Ok(SpecStep::Read(st, q))) => o@ == (st, q),
        (Ok(OpenStep::Done(l)), Ok(SpecStep::Done(sl))) => l@ == sl,
        (Err(e), Err(se)) => e@ == se,
        _ => false,
    }
}

fn text_step_exec(
    pvh: PhysicalVolumeHeader,
    area_offset: u64,
    locations: Vec<LocationDescriptor>,
    next: usize,
    text: Vec<u8>,
) -> (r: Result<OpenStep, Error>)
    ensures
        step_matches(r, text_step(pvh@, area_offset, locations@, next as int, text@)),
{
    reveal(text_step);
    match location_request_exec(area_offset, &locations, next, text.len())? {
        Some(q) => Ok(
            OpenStep::Read(
                Lvm2Opener {
                    stage: Stage::Text { pvh, area_offset, locations, next, text },
                    request: q,
                },
            ),
        ),
        None => Ok(OpenStep::Done(finish_exec(pvh, text.as_slice())?)),
    }
}

impl Lvm2Opener {
    /// An opener that awaits the label sheet.
    pub fn new() -> (r: Self)
        ensures
            r@ == (SpecStage::Label, label_request()),
    {
        Lvm2Opener { stage: Stage::Label, request: ReadRequest { offset: 512, len: 512 } }
    }

    /// The read this opener awaits.
    pub fn request(&self) -> (r: ReadRequest)
        ensures
            r == self@.1,
    {
        self.request
    }

    /// Feeds the bytes of the awaited read.
    pub fn feed(self, data: &[u8]) -> (r: Result<OpenStep, Error>)
        requires
            data@.len() == self@.1.len,
        ensures
            step_matches(r, spec_feed(self@.0, data@)),
    {
        proof {
            use_type_invariant(&self);
        }
        match self.stage {
            Stage::Label => {
                let (pvh, area_offset) = feed_label(data)?;
                Ok(
                    OpenStep::Read(
                        Lvm2Opener {
                            stage: Stage::AreaHeader { pvh, area_offset },
                            request: ReadRequest { offset: area_offset, len: 512 },
                        },
                    ),
                )
            },
            Stage::AreaHeader { pvh, area_offset } => {
                let locations = feed_area_header(data)?;
                text_step_exec(pvh, area_offset, locations, 0, Vec::new())
            },
            Stage::Text { pvh, area_offset, locations, next, text } => {
                assert(next < locations.len());
                let mut text = text;
                let ghost before = text@;
                let mut more = crate::support::slice_to_vec(data);
                text.append(&mut more);
                assert(text@ == before + data@);
                text_step_exec(pvh, area_offset, locations, next + 1, text)
            },
        }
    }
}

} // verus!

verus! {

// ---------------------------------------------------------------------------
// Opening a device image held in memory

/// The bytes of the read `q` from the device image `img`, or `None` when
/// the image ends before the read does.
pub open spec fn image_read(img: Seq<u8>, q: ReadRequest) -> Option<Seq<u8>> {
    if q.offset + q.len > img.len() {
        None
    } else {
        Some(img.subrange(q.offset as int, q.offset + q.len))
    }
}

/// Reading the metadata text from location `next` on, with `text` read so
/// far, then parsing it.
pub open spec fn image_text(
    img: Seq<u8>,
    pvh: SpecPvHeader,
    area_offset: u64,
    locs: Seq<LocationDescriptor>,
    next: int,
    text: Seq<u8>,
) -> Result<SpecLvm2, SpecError>
    decreases locs.len() - next,
{
    if next < 0 || next >= locs.len() {
        finish(pvh, text)
    } else {
        match location_request(area_offset, locs, next, text.len() as int) {
            Err(e) => Err(e),
            Ok(None) => finish(pvh, text),
            Ok(Some(q)) => match image_read(img, q) {
                None => Err(SpecError::UnexpectedEof),
                Some(d) => image_text(img, pvh, area_offset, locs, next + 1, text + d),
            },
        }
    }
}

/// Reading the metadata area header at `area_offset`, then the text.
pub open spec fn image_area(img: Seq<u8>, pvh: SpecPvHeader, area_offset: u64) -> Result<
    SpecLvm2,
    SpecError,
> {
    match image_read(img, ReadRequest { offset: area_offset, len: 512 }) {
        None => Err(SpecError::UnexpectedEof),
        Some(d) => match after_area_header(d) {
            Err(e) => Err(e),
            Ok(locs) => image_text(img, pvh, area_offset, locs, 0, Seq::empty()),
        },
    }
}

/// Opening the physical volume whose device image is `img`: the label in
/// sheet 1, the metadata area header, the metadata text of each location
/// in turn, and the volume group the text describes.
pub open spec fn spec_open_image(img: Seq<u8>) -> Result<SpecLvm2, SpecError> {
    match image_read(img, label_request()) {
        None => Err(SpecError::UnexpectedEof),
        Some(d) => match after_label(d) {
            Err(e) => Err(e),
            Ok((pvh, area_offset)) => image_area(img, pvh, area_offset),
        },
    }
}

/// What remains of opening `img` for an opener at `stage` awaiting `q`.
pub open spec fn image_resume(img: Seq<u8>, stage: SpecStage, q: ReadRequest) -> Result<
    SpecLvm2,
    SpecError,
> {
    match stage {
        SpecStage::Label => spec_open_image(img),
        SpecStage::AreaHeader { pvh, area_offset } => image_area(img, pvh, area_offset),
        SpecStage::Text { pvh, area_offset, locations, next, text } => match image_read(img, q) {
            None => Err(SpecError::UnexpectedEof),
            Some(d) => image_text(img, pvh, area_offset, locations, next + 1, text + d),
        },
    }
}

/// The read an opener at `stage` awaits.
pub open spec fn awaits(stage: SpecStage, q: ReadRequest) -> bool {
    match stage {
        SpecStage::Label => q == label_request(),
        SpecStage::AreaHeader { area_offset, .. } => q == (ReadRequest { offset: area_offset, len: 512 }),
        SpecStage::Text { area_offset, locations, next, text, .. } => {
            &&& 0 <= next < locations.len()
            &&& location_request(area_offset, locations, next, text.len() as int) == Ok::<_, SpecError>(Some(q))
        },
    }
}

/// How far an opener at `stage` is from the end: its rank, then the
/// locations left to read.
pub open spec fn stage_rank(stage: SpecStage) -> int {
    match stage {
        SpecStage::Label => 2,
        SpecStage::AreaHeader { .. } => 1,
        SpecStage::Text { .. } => 0,
    }
}

pub open spec fn stage_left(stage: SpecStage) -> int {
    match stage {
        SpecStage::Text { locations, next, .. } => locations.len() - next,
        _ => 0,
    }
}

/// Going on with `text_step` from location `next` agrees with reading the
/// rest of the image.
proof fn lemma_text_step_image(
    img: Seq<u8>,
    pvh: SpecPvHeader,
    area_offset: u64,
    locs: Seq<LocationDescriptor>,
    next: int,
    text: Seq<u8>,
)
    requires
        0 <= next,
    ensures
        match text_step(pvh, area_offset, locs, next, text) {
            Err(e) => image_text(img, pvh, area_offset, locs, next, text) == Err::<SpecLvm2, SpecError>(e),
            Ok(SpecStep::Done(l)) => image_text(img, pvh, area_offset, locs, next, text) == Ok::<SpecLvm2, SpecError>(l),
            Ok(SpecStep::Read(st, q)) => {
                &&& awaits(st, q)
                &&& image_resume(img, st, q) == image_text(img, pvh, area_offset, locs, next, text)
                &&& stage_rank(st) == 0
                &&& stage_left(st) == locs.len() - next
            },
        },
{
    reveal(text_step);
}

impl Lvm2 {
    /// Opens the physical volume whose device image is `img`, by running an
    /// [`Lvm2Opener`] over it.
    pub fn open_image(img: &[u8]) -> (r: Result<Lvm2, Error>)
        ensures
            match (r, spec_open_image(img@)) {
                (Ok(l), Ok(sl)) => l@ == sl,
                (Err(e), Err(se)) => e@ == se,
                _ => false,
            },
    {
        let mut op = Lvm2Opener::new();
        loop
            invariant
                awaits(op@.0, op@.1),
                image_resume(img@, op@.0, op@.1) == spec_open_image(img@),
            decreases stage_rank(op@.0), stage_left(op@.0),
        {
            let q = op.request();
            if q.offset > img.len() as u64 || q.len as u64 > img.len() as u64 - q.offset {
                return Err(Error::UnexpectedEof);
            }
            let start = q.offset as usize;
            let data = vstd::slice::slice_subrange(img, start, start + q.len);
            assert(image_read(img@, q) == Some(data@));
            let ghost st = op@.0;
            proof {
                match st {
                    SpecStage::Text { pvh, area_offset, locations, next, text } => {
                        lemma_text_step_image(img@, pvh, area_offset, locations, next + 1, text + data@);
                    },
                    SpecStage::AreaHeader { pvh, area_offset } => {
                        if let Ok(locs) = after_area_header(data@) {
                            lemma_text_step_image(img@, pvh, area_offset, locs, 0, Seq::empty());
                        }
                    },
                    SpecStage::Label => {},
                }
            }
            match op.feed(data)? {
                OpenStep::Read(o) => {
                    op = o;
                },
                OpenStep::Done(l) => {
                    return Ok(l);
                },
            }
        }
    }
}

} // verus!
