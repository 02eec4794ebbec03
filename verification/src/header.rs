//! Binary on-disk structures of an LVM2 physical volume.
use vstd::prelude::*;
use vstd::slice::slice_subrange;
use vstd::utf8::*;

use crate::support::{bytes_match_at, is_zero_run, owned_utf8, zero_run};

verus! {

/// Little-endian value of the four bytes of `b` starting at `i`.
pub open spec fn le_u32_at(b: Seq<u8>, i: int) -> u32 {
    (b[i] + 0x100 * b[i + 1] + 0x1_0000 * b[i + 2] + 0x100_0000 * b[i + 3]) as u32
}

/// Little-endian value of the eight bytes of `b` starting at `i`.
pub open spec fn le_u64_at(b: Seq<u8>, i: int) -> u64 {
    (le_u32_at(b, i) + 0x1_0000_0000 * le_u32_at(b, i + 4)) as u64
}

fn read_u32(b: &[u8], i: usize) -> (r: u32)
    requires
        i + 4 <= b.len(),
    ensures
        r == le_u32_at(b@, i as int),
{
    let x: u32 = b[i] as u32 + 0x100 * (b[i + 1] as u32) + 0x1_0000 * (b[i + 2] as u32)
        + 0x100_0000 * (b[i + 3] as u32);
    x
}

fn read_u64(b: &[u8], i: usize) -> (r: u64)
    requires
        i + 8 <= b.len(),
    ensures
        r == le_u64_at(b@, i as int),
{
    let lo: u64 = read_u32(b, i) as u64;
    let hi: u64 = read_u32(b, i + 4) as u64;
    lo + 0x1_0000_0000 * hi
}

} // verus!

verus! {

/// The ways in which the binary headers of a physical volume can be malformed.
#[derive(Clone, Copy, Debug, PartialEq, Eq, Structural)]
pub enum HeaderError {
    /// The input ends before the structure does.
    Truncated,
    /// The label does not start with `LABELONE`.
    WrongMagic,
    /// The label's type indicator is not `LVM2 001`.
    BadTypeIndicator,
    /// The physical volume identifier is not valid UTF-8.
    BadIdentifier,
    /// A descriptor list runs to the end of the input without its all-zero terminator.
    UnterminatedList,
    /// The metadata area header does not carry the LVM2 metadata signature.
    BadSignature,
}

/// `LABELONE`
pub open spec fn label_magic() -> Seq<u8> {
    seq![0x4cu8, 0x41, 0x42, 0x45, 0x4c, 0x4f, 0x4e, 0x45]
}

/// `LVM2 001`
pub open spec fn label_type() -> Seq<u8> {
    seq![0x4cu8, 0x56, 0x4d, 0x32, 0x20, 0x30, 0x30, 0x31]
}

/// ` LVM2 x[5A%r0N*>`
pub open spec fn metadata_magic() -> Seq<u8> {
    seq![
        0x20u8, 0x4c, 0x56, 0x4d, 0x32, 0x20, 0x78, 0x5b, 0x35, 0x41, 0x25, 0x72, 0x30, 0x4e,
        0x2a, 0x3e,
    ]
}

fn label_magic_bytes() -> (v: Vec<u8>)
    ensures
        v@ == label_magic(),
{
    let v: Vec<u8> = vec![0x4c, 0x41, 0x42, 0x45, 0x4c, 0x4f, 0x4e, 0x45];
    assert(v@ =~= label_magic());
    v
}

fn label_type_bytes() -> (v: Vec<u8>)
    ensures
        v@ == label_type(),
{
    let v: Vec<u8> = vec![0x4c, 0x56, 0x4d, 0x32, 0x20, 0x30, 0x30, 0x31];
    assert(v@ =~= label_type());
    v
}

fn metadata_magic_bytes() -> (v: Vec<u8>)
    ensures
        v@ == metadata_magic(),
{
    let v: Vec<u8> = vec![
        0x20, 0x4c, 0x56, 0x4d, 0x32, 0x20, 0x78, 0x5b, 0x35, 0x41, 0x25, 0x72, 0x30, 0x4e,
        0x2a, 0x3e,
    ];
    assert(v@ =~= metadata_magic());
    v
}

/// The 32-byte label header found in sheet 1 of a physical volume.
#[derive(Clone, Copy, Debug, PartialEq, Eq, Structural)]
pub struct PhysicalVolumeLabelHeader {
    pub sector_number: u64,
    pub checksum: u32,
    /// Offset of the physical volume header, from the start of the label.
    pub data_offset: u32,
}

/// The label header that `b` starts with.
pub open spec fn spec_parse_label(b: Seq<u8>) -> Result<PhysicalVolumeLabelHeader, HeaderError> {
    if b.len() < 32 {
        Err(HeaderError::Truncated)
    } else if b.subrange(0, 8) != label_magic() {
        Err(HeaderError::WrongMagic)
    } else if b.subrange(24, 32) != label_type() {
        Err(HeaderError::BadTypeIndicator)
    } else {
        Ok(
            PhysicalVolumeLabelHeader {
                sector_number: le_u64_at(b, 8),
                checksum: le_u32_at(b, 16),
                data_offset: le_u32_at(b, 20),
            },
        )
    }
}

impl PhysicalVolumeLabelHeader {
    /// Parses the label header at the start of `b`.
    pub fn parse(b: &[u8]) -> (r: Result<Self, HeaderError>)
        ensures
            r == spec_parse_label(b@),
    {
        if b.len() < 32 {
            return Err(HeaderError::Truncated);
        }
        if !bytes_match_at(b, 0, label_magic_bytes().as_slice()) {
            return Err(HeaderError::WrongMagic);
        }
        if !bytes_match_at(b, 24, label_type_bytes().as_slice()) {
            return Err(HeaderError::BadTypeIndicator);
        }
        Ok(
            PhysicalVolumeLabelHeader {
                sector_number: read_u64(b, 8),
                checksum: read_u32(b, 16),
                data_offset: read_u32(b, 20),
            },
        )
    }
}

/// One entry of a physical volume's data or metadata area list: a byte range
/// of the device. A `size` of zero means that the area runs to the end of the
/// device.
#[derive(Clone, Copy, Debug, PartialEq, Eq, Structural)]
pub struct DataAreaDescriptor {
    pub offset: u64,
    pub size: u64,
}

pub open spec fn data_area_at(b: Seq<u8>, i: int) -> DataAreaDescriptor {
    DataAreaDescriptor { offset: le_u64_at(b, i), size: le_u64_at(b, i + 8) }
}

/// The list of 16-byte area descriptors starting at `i`, up to and including
/// its all-zero terminator: the position after the terminator, and the entries.
pub open spec fn parse_area_list(b: Seq<u8>, i: int) -> Option<(int, Seq<DataAreaDescriptor>)>
    decreases b.len() - i,
{
    if i < 0 || i + 16 > b.len() {
        None
    } else if zero_run(b, i, 16) {
        Some((i + 16, Seq::empty()))
    } else {
        match parse_area_list(b, i + 16) {
            Some((j, rest)) => Some((j, seq![data_area_at(b, i)] + rest)),
            None => None,
        }
    }
}

pub open spec fn prepend_areas(
    acc: Seq<DataAreaDescriptor>,
    r: Option<(int, Seq<DataAreaDescriptor>)>,
) -> Option<(int, Seq<DataAreaDescriptor>)> {
    match r {
        Some((j, rest)) => Some((j, acc + rest)),
        None => None,
    }
}

fn parse_area_list_exec(b: &[u8], start: usize) -> (r: Option<(usize, Vec<DataAreaDescriptor>)>)
    ensures
        match (r, parse_area_list(b@, start as int)) {
            (Some((j, v)), Some((sj, sv))) => j == sj && v@ == sv,
            (None, None) => true,
            _ => false,
        },
{
    let mut acc: Vec<DataAreaDescriptor> = Vec::new();
    let mut i = start;
    loop
        invariant
            parse_area_list(b@, start as int) == prepend_areas(acc@, parse_area_list(b@, i as int)),
        decreases b@.len() - i,
    {
        if i > b.len() || b.len() - i < 16 {
            return None;
        }
        if is_zero_run(b, i, 16) {
            assert(acc@ + Seq::<DataAreaDescriptor>::empty() =~= acc@);
            return Some((i + 16, acc));
        }
        let d = DataAreaDescriptor { offset: read_u64(b, i), size: read_u64(b, i + 8) };
        proof {
            let ghost next = parse_area_list(b@, i + 16);
            if let Some((j, rest)) = next {
                assert(acc@ + (seq![d] + rest) =~= acc@.push(d) + rest);
            }
        }
        acc.push(d);
        i = i + 16;
    }
}

/// The physical volume header as the specification sees it.
pub struct SpecPvHeader {
    pub pv_ident: Seq<char>,
    pub pv_size: u64,
    pub data_descriptors: Seq<DataAreaDescriptor>,
    pub metadata_descriptors: Seq<DataAreaDescriptor>,
}

/// The physical volume header that follows the label: a 32-byte identifier,
/// the device size, and two zero-terminated lists of area descriptors.
#[derive(Clone, Debug)]
pub struct PhysicalVolumeHeader {
    pub pv_ident: String,
    pub pv_size: u64,
    pub data_descriptors: Vec<DataAreaDescriptor>,
    pub metadata_descriptors: Vec<DataAreaDescriptor>,
}

impl View for PhysicalVolumeHeader {
    type V = SpecPvHeader;

    open spec fn view(&self) -> SpecPvHeader {
        SpecPvHeader {
            pv_ident: self.pv_ident@,
            pv_size: self.pv_size,
            data_descriptors: self.data_descriptors@,
            metadata_descriptors: self.metadata_descriptors@,
        }
    }
}

/// The physical volume header that `b` starts with.
pub open spec fn spec_parse_pv_header(b: Seq<u8>) -> Result<SpecPvHeader, HeaderError> {
    if b.len() < 40 {
        Err(HeaderError::Truncated)
    } else if !valid_utf8(b.subrange(0, 32)) {
        Err(HeaderError::BadIdentifier)
    } else {
        match parse_area_list(b, 40) {
            None => Err(HeaderError::UnterminatedList),
            Some((j, data)) => match parse_area_list(b, j) {
                None => Err(HeaderError::UnterminatedList),
                Some((_, meta)) => Ok(
                    SpecPvHeader {
                        pv_ident: decode_utf8(b.subrange(0, 32)),
                        pv_size: le_u64_at(b, 32),
                        data_descriptors: data,
                        metadata_descriptors: meta,
                    },
                ),
            },
        }
    }
}

impl PhysicalVolumeHeader {
    /// Parses the physical volume header at the start of `b`.
    pub fn parse(b: &[u8]) -> (r: Result<Self, HeaderError>)
        ensures
            match (r, spec_parse_pv_header(b@)) {
                (Ok(h), Ok(sh)) => h@ == sh,
                (Err(e), Err(se)) => e == se,
                _ => false,
            },
    {
        if b.len() < 40 {
            return Err(HeaderError::Truncated);
        }
        let ident = match owned_utf8(slice_subrange(b, 0, 32)) {
            Some(s) => s,
            None => return Err(HeaderError::BadIdentifier),
        };
        let (j, data) = match parse_area_list_exec(b, 40) {
            Some(x) => x,
            None => return Err(HeaderError::UnterminatedList),
        };
        let (_, meta) = match parse_area_list_exec(b, j) {
            Some(x) => x,
            None => return Err(HeaderError::UnterminatedList),
        };
        Ok(
            PhysicalVolumeHeader {
                pv_ident: ident,
                pv_size: read_u64(b, 32),
                data_descriptors: data,
                metadata_descriptors: meta,
            },
        )
    }
}

/// One raw location descriptor of a metadata area: where the metadata text
/// lies, relative to the start of the metadata area.
#[derive(Clone, Copy, Debug, PartialEq, Eq, Structural)]
pub struct LocationDescriptor {
    pub data_area_offset: u64,
    pub data_area_size: u64,
    pub checksum: u32,
    pub flags: u32,
}

pub open spec fn location_at(b: Seq<u8>, i: int) -> LocationDescriptor {
    LocationDescriptor {
        data_area_offset: le_u64_at(b, i),
        data_area_size: le_u64_at(b, i + 8),
        checksum: le_u32_at(b, i + 16),
        flags: le_u32_at(b, i + 20),
    }
}

/// The list of 24-byte location descriptors starting at `i`, up to and
/// including its all-zero terminator.
pub open spec fn parse_location_list(b: Seq<u8>, i: int) -> Option<Seq<LocationDescriptor>>
    decreases b.len() - i,
{
    if i < 0 || i + 24 > b.len() {
        None
    } else if zero_run(b, i, 24) {
        Some(Seq::empty())
    } else {
        match parse_location_list(b, i + 24) {
            Some(rest) => Some(seq![location_at(b, i)] + rest),
            None => None,
        }
    }
}

pub open spec fn prepend_locations(
    acc: Seq<LocationDescriptor>,
    r: Option<Seq<LocationDescriptor>>,
) -> Option<Seq<LocationDescriptor>> {
    match r {
        Some(rest) => Some(acc + rest),
        None => None,
    }
}

fn parse_location_list_exec(b: &[u8], start: usize) -> (r: Option<Vec<LocationDescriptor>>)
    ensures
        match (r, parse_location_list(b@, start as int)) {
            (Some(v), Some(sv)) => v@ == sv,
            (None, None) => true,
            _ => false,
        },
{
    let mut acc: Vec<LocationDescriptor> = Vec::new();
    let mut i = start;
    loop
        invariant
            parse_location_list(b@, start as int) == prepend_locations(
                acc@,
                parse_location_list(b@, i as int),
            ),
        decreases b@.len() - i,
    {
        if i > b.len() || b.len() - i < 24 {
            return None;
        }
        if is_zero_run(b, i, 24) {
            assert(acc@ + Seq::<LocationDescriptor>::empty() =~= acc@);
            return Some(acc);
        }
        let d = LocationDescriptor {
            data_area_offset: read_u64(b, i),
            data_area_size: read_u64(b, i + 8),
            checksum: read_u32(b, i + 16),
            flags: read_u32(b, i + 20),
        };
        proof {
            if let Some(rest) = parse_location_list(b@, i + 24) {
                assert(acc@ + (seq![d] + rest) =~= acc@.push(d) + rest);
            }
        }
        acc.push(d);
        i = i + 24;
    }
}

/// The metadata area header as the specification sees it.
pub struct SpecMetadataAreaHeader {
    pub checksum: u32,
    pub version: u32,
    pub offset: u64,
    pub size: u64,
    pub location_descriptors: Seq<LocationDescriptor>,
}

/// The header at the start of a metadata area.
#[derive(Clone, Debug)]
pub struct MetadataAreaHeader {
    pub checksum: u32,
    pub version: u32,
    pub offset: u64,
    pub size: u64,
    pub location_descriptors: Vec<LocationDescriptor>,
}

impl View for MetadataAreaHeader {
    type V = SpecMetadataAreaHeader;

    open spec fn view(&self) -> SpecMetadataAreaHeader {
        SpecMetadataAreaHeader {
            checksum: self.checksum,
            version: self.version,
            offset: self.offset,
            size: self.size,
            location_descriptors: self.location_descriptors@,
        }
    }
}

/// The metadata area header that `b` starts with.
pub open spec fn spec_parse_metadata_area_header(b: Seq<u8>) -> Result<
    SpecMetadataAreaHeader,
    HeaderError,
> {
    if b.len() < 40 {
        Err(HeaderError::Truncated)
    } else if b.subrange(4, 20) != metadata_magic() {
        Err(HeaderError::BadSignature)
    } else {
        match parse_location_list(b, 40) {
            None => Err(HeaderError::UnterminatedList),
            Some(locs) => Ok(
                SpecMetadataAreaHeader {
                    checksum: le_u32_at(b, 0),
                    version: le_u32_at(b, 20),
                    offset: le_u64_at(b, 24),
                    size: le_u64_at(b, 32),
                    location_descriptors: locs,
                },
            ),
        }
    }
}

impl MetadataAreaHeader {
    /// Parses the metadata area header at the start of `b`.
    pub fn parse(b: &[u8]) -> (r: Result<Self, HeaderError>)
        ensures
            match (r, spec_parse_metadata_area_header(b@)) {
                (Ok(h), Ok(sh)) => h@ == sh,
                (Err(e), Err(se)) => e == se,
                _ => false,
            },
    {
        if b.len() < 40 {
            return Err(HeaderError::Truncated);
        }
        if !bytes_match_at(b, 4, metadata_magic_bytes().as_slice()) {
            return Err(HeaderError::BadSignature);
        }
        let locs = match parse_location_list_exec(b, 40) {
            Some(v) => v,
            None => return Err(HeaderError::UnterminatedList),
        };
        Ok(
            MetadataAreaHeader {
                checksum: read_u32(b, 0),
                version: read_u32(b, 20),
                offset: read_u64(b, 24),
                size: read_u64(b, 32),
                location_descriptors: locs,
            },
        )
    }
}

} // verus!
