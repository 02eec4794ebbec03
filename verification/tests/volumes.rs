//! Opening physical volume images built in memory, listing their logical
//! volumes, and reading them through the borrowed and the owning reader.

use lamlvm::{Error, Lvm2, Lvm2Opener, OpenLV, OpenLvError, OpenStep, OwnedLvReader, ReadRequest, ReadStep, SeekPlan, SeekPos};

const IDENT: &str = "abcdefghijklmnopqrstuvwxyz012345";
const AREA: usize = 4096;
const DATA: usize = 65536;
const EXTENT: usize = 4096;
const PV_EXTENTS: usize = 8;

const TEXT: &str = "# Generated by LVM2
vg0 {
\tid = \"VGID-aaaa-bbbb\"
\tseqno = 4
\tformat = \"lvm2\"
\tstatus = [\"RESIZEABLE\", \"READ\", \"WRITE\"]
\tflags = []
\textent_size = 8
\tmax_lv = 0
\tmax_pv = 0

\tphysical_volumes {

\t\tpv0 {
\t\t\tid = \"abcdef-ghij-klmn-opqr-stuv-wxyz-012345\"
\t\t\tdevice = \"/dev/sda2\"

\t\t\tstatus = [\"ALLOCATABLE\"]
\t\t\tflags = []
\t\t\tdev_size = 2048
\t\t\tpe_start = 128
\t\t\tpe_count = 8
\t\t}
\t}

\tlogical_volumes {

\t\tswap {
\t\t\tid = \"SWAP-ID\"
\t\t\tstatus = [\"READ\", \"WRITE\", \"VISIBLE\"]
\t\t\tflags = []
\t\t\tcreation_time = 1700000000\t# 2023-11-14
\t\t\tsegment_count = 1

\t\t\tsegment1 {
\t\t\t\tstart_extent = 0
\t\t\t\textent_count = 1

\t\t\t\ttype = \"striped\"
\t\t\t\tstripe_count = 1\t# linear

\t\t\t\tstripes = [
\t\t\t\t\t\"pv0\", 5
\t\t\t\t]
\t\t\t}
\t\t}

\t\troot {
\t\t\tid = \"ROOT-ID\"
\t\t\tstatus = [\"READ\", \"WRITE\", \"VISIBLE\"]
\t\t\tsegment_count = 2

\t\t\tsegment1 {
\t\t\t\tstart_extent = 0
\t\t\t\textent_count = 2
\t\t\t\ttype = \"striped\"
\t\t\t\tstripe_count = 1
\t\t\t\tstripes = [\"pv0\", 3]
\t\t\t}
\t\t\tsegment2 {
\t\t\t\tstart_extent = 2
\t\t\t\textent_count = 1
\t\t\t\ttype = \"striped\"
\t\t\t\tstripe_count = 1
\t\t\t\tstripes = [\"pv0\", 0]
\t\t\t}
\t\t}
\t}
}
# Generated by LVM2 version 2.03
contents = \"Text Format Volume Group\"
version = 1

description = \"\"

creation_host = \"host\"\t# Linux host
creation_time = 1700000000\t# Tue Nov 14
";

fn put_u32(b: &mut [u8], at: usize, v: u32) {
    b[at..at + 4].copy_from_slice(&v.to_le_bytes());
}

fn put_u64(b: &mut [u8], at: usize, v: u64) {
    b[at..at + 8].copy_from_slice(&v.to_le_bytes());
}

/// The byte that the test images hold at device offset `d` of the data area.
fn pattern(d: usize) -> u8 {
    ((d * 31 + 7) % 251) as u8
}

/// A physical volume image: label in sheet 1, one data area from `DATA` to
/// the end of the device, one metadata area at `AREA` whose single location
/// holds `text`.
fn image_with(text: &[u8]) -> Vec<u8> {
    let len = DATA + PV_EXTENTS * EXTENT;
    let mut img = vec![0u8; len];
    img[512..520].copy_from_slice(b"LABELONE");
    put_u64(&mut img, 520, 1);
    put_u32(&mut img, 528, 0x1234_5678);
    put_u32(&mut img, 532, 32);
    img[536..544].copy_from_slice(b"LVM2 001");
    img[544..576].copy_from_slice(IDENT.as_bytes());
    put_u64(&mut img, 576, len as u64);
    put_u64(&mut img, 584, DATA as u64);
    put_u64(&mut img, 592, 0);
    put_u64(&mut img, 616, AREA as u64);
    put_u64(&mut img, 624, (DATA - AREA) as u64);
    img[AREA + 4..AREA + 20].copy_from_slice(b" LVM2 x[5A%r0N*>");
    put_u32(&mut img, AREA + 20, 1);
    put_u64(&mut img, AREA + 24, AREA as u64);
    put_u64(&mut img, AREA + 32, (DATA - AREA) as u64);
    put_u64(&mut img, AREA + 40, 512);
    put_u64(&mut img, AREA + 48, text.len() as u64);
    img[AREA + 512..AREA + 512 + text.len()].copy_from_slice(text);
    for d in DATA..len {
        img[d] = pattern(d);
    }
    img
}

fn image() -> Vec<u8> {
    image_with(TEXT.as_bytes())
}

/// A reader of a device image: the bytes and a position.
struct Dev<'a> {
    img: &'a [u8],
    pos: u64,
}

impl<'a> Dev<'a> {
    fn new(img: &'a [u8]) -> Self {
        Dev { img, pos: 0 }
    }

    fn read(&mut self, buf: &mut [u8]) -> usize {
        let start = (self.pos as usize).min(self.img.len());
        let n = buf.len().min(self.img.len() - start);
        buf[..n].copy_from_slice(&self.img[start..start + n]);
        self.pos += n as u64;
        n
    }
}

/// A read from a borrowed reader, as a `Read` impl over it does it.
fn read_borrowed(o: &mut OpenLV<'_, Dev<'_>>, buf: &mut [u8]) -> Result<usize, OpenLvError<()>> {
    let n = match o.read_step::<()>(buf.len())? {
        ReadStep::Eof => return Ok(0),
        ReadStep::SeekThenRead(plan, n) => {
            o.reader_mut().pos = plan.pv_offset;
            o.commit_seek(plan);
            n
        }
        ReadStep::Read(n) => n,
    };
    let k = o.reader_mut().read(&mut buf[..n]);
    o.advance(k);
    Ok(k)
}

fn seek_borrowed(o: &mut OpenLV<'_, Dev<'_>>, pos: SeekPos) -> Result<u64, OpenLvError<()>> {
    let plan = o.plan_seek::<()>(pos)?;
    o.reader_mut().pos = plan.pv_offset;
    Ok(o.commit_seek(plan))
}

/// A read from an owning reader, as a `Read` impl over it does it.
fn read_owned(o: &mut OwnedLvReader<Dev<'_>>, buf: &mut [u8]) -> Result<usize, OpenLvError<()>> {
    match o.plan_read::<()>(buf.len())? {
        None => Ok(0),
        Some((offset, n)) => {
            o.reader_mut().pos = offset;
            let k = o.reader_mut().read(&mut buf[..n]);
            o.advance(k);
            Ok(k)
        }
    }
}

fn read_exact_borrowed(o: &mut OpenLV<'_, Dev<'_>>, buf: &mut [u8]) {
    let mut done = 0;
    while done < buf.len() {
        let n = read_borrowed(o, &mut buf[done..]).expect("read borrowed");
        assert!(n > 0, "unexpected end of volume");
        done += n;
    }
}

fn read_exact_owned(o: &mut OwnedLvReader<Dev<'_>>, buf: &mut [u8]) {
    let mut done = 0;
    while done < buf.len() {
        let n = read_owned(o, &mut buf[done..]).expect("read owned");
        assert!(n > 0, "unexpected end of volume");
        done += n;
    }
}

/// The device byte that holds byte `b` of the volume `root`.
fn root_byte(b: usize) -> u8 {
    if b < 2 * EXTENT {
        pattern(DATA + 3 * EXTENT + b)
    } else {
        pattern(DATA + (b - 2 * EXTENT))
    }
}

#[test]
fn open_image_reads_the_volume_group() {
    let img = image();
    let lvm = Lvm2::open_image(&img).expect("parse PV");
    assert_eq!(lvm.pv_name(), "pv0");
    assert_eq!(lvm.pv_id(), "abcdef-ghij-klmn-opqr-stuv-wxyz-012345");
    assert_eq!(lvm.vg_name(), "vg0");
    assert_eq!(lvm.vg_id(), "VGID-aaaa-bbbb");
    assert_eq!(lvm.extent_size(), Some(8 * 512));
}

#[test]
fn lvs_are_listed_in_name_order() {
    let img = image();
    let lvm = Lvm2::open_image(&img).expect("parse PV");
    let lvs = lvm.lvs();
    let names: Vec<&str> = lvs.iter().map(|lv| lv.name()).collect();
    assert_eq!(names, vec!["root", "swap"]);
    assert_eq!(lvs[0].id(), "ROOT-ID");
    assert_eq!(lvs[1].id(), "SWAP-ID");
    assert_eq!(lvs[0].size_in_extents(), Some(3));
    assert_eq!(lvs[1].size_in_extents(), Some(1));
    let raw = lvs[0].raw_metadata();
    assert_eq!(raw.segment_count, 2);
    assert_eq!(raw.status, vec!["READ".to_string(), "WRITE".to_string(), "VISIBLE".to_string()]);
    assert_eq!(raw.segments.len(), 2);
    let seg = raw.segments.get("segment1").expect("segment1");
    assert_eq!(seg.start_extent, 0);
    assert_eq!(seg.extent_count, 2);
    assert_eq!(seg.seg_type, "striped");
    assert_eq!(seg.stripe_count, Some(1));
    assert_eq!(seg.stripes, Some(("pv0".to_string(), 3)));
}

#[test]
fn every_listed_lv_opens_by_its_name() {
    let img = image();
    let lvm = Lvm2::open_image(&img).expect("parse PV");
    for lv in lvm.lvs() {
        let o = lvm.open_lv_by_name(lv.name(), Dev::new(&img)).expect("listed LV opens by name");
        assert_eq!(o.lv().name(), lv.name());
        assert_eq!(o.lv().id(), lv.id());
        assert_eq!(o.position(), 0);
    }
    assert!(lvm.open_lv_by_name("home", Dev::new(&img)).is_none());
}

#[test]
fn open_lv_by_id_finds_the_volume() {
    let img = image();
    let lvm = Lvm2::open_image(&img).expect("parse PV");
    let o = lvm.open_lv_by_id("SWAP-ID", Dev::new(&img)).expect("swap by id");
    assert_eq!(o.lv().name(), "swap");
    assert!(lvm.open_lv_by_id("NO-SUCH-ID", Dev::new(&img)).is_none());
}

#[test]
fn trailing_nul_after_metadata_is_ignored() {
    let mut text = TEXT.as_bytes().to_vec();
    text.push(0);
    let img = image_with(&text);
    let lvm = Lvm2::open_image(&img).expect("parse PV");
    assert_eq!(lvm.vg_name(), "vg0");
}

#[test]
fn opener_asks_for_each_read_in_turn() {
    let img = image();
    let op = Lvm2Opener::new();
    assert_eq!(op.request(), ReadRequest { offset: 512, len: 512 });
    let op = match op.feed(&img[512..1024]).expect("label") {
        OpenStep::Read(o) => o,
        OpenStep::Done(_) => panic!("opened too early"),
    };
    assert_eq!(op.request(), ReadRequest { offset: AREA as u64, len: 512 });
    let op = match op.feed(&img[AREA..AREA + 512]).expect("area header") {
        OpenStep::Read(o) => o,
        OpenStep::Done(_) => panic!("opened too early"),
    };
    let q = op.request();
    assert_eq!(q, ReadRequest { offset: (AREA + 512) as u64, len: TEXT.len() });
    let start = q.offset as usize;
    match op.feed(&img[start..start + q.len]).expect("text") {
        OpenStep::Done(lvm) => assert_eq!(lvm.vg_name(), "vg0"),
        OpenStep::Read(_) => panic!("a single location was given"),
    }
}

#[test]
fn metadata_spread_over_two_locations_is_joined() {
    let text = TEXT.as_bytes();
    let split = 200;
    let mut img = image_with(&text[..split]);
    // The second location lies further into the metadata area.
    put_u64(&mut img, AREA + 48, split as u64);
    put_u64(&mut img, AREA + 64, 16384);
    put_u64(&mut img, AREA + 72, (text.len() - split) as u64);
    img[AREA + 16384..AREA + 16384 + text.len() - split].copy_from_slice(&text[split..]);
    let lvm = Lvm2::open_image(&img).expect("parse PV");
    assert_eq!(lvm.lvs().len(), 2);
}

#[test]
fn short_image_is_unexpected_eof() {
    let img = image();
    assert_eq!(Lvm2::open_image(&img[..1000]).err(), Some(Error::UnexpectedEof));
    assert_eq!(Lvm2::open_image(&img[..AREA + 100]).err(), Some(Error::UnexpectedEof));
    assert_eq!(Lvm2::open_image(&img[..AREA + 600]).err(), Some(Error::UnexpectedEof));
}

#[test]
fn wrong_label_magic_is_refused() {
    let mut img = image();
    img[512] = b'X';
    assert_eq!(Lvm2::open_image(&img).err(), Some(Error::WrongMagic));
}

#[test]
fn wrong_type_indicator_is_a_parse_error() {
    let mut img = image();
    img[543] = b'2';
    assert_eq!(
        Lvm2::open_image(&img).err(),
        Some(Error::Parse { reason: "label has wrong type indicator".to_string() })
    );
}

#[test]
fn header_offset_beyond_the_sheet_is_a_parse_error() {
    let mut img = image();
    put_u32(&mut img, 532, 600);
    assert_eq!(
        Lvm2::open_image(&img).err(),
        Some(Error::Parse { reason: "PV header offset lies outside the label sheet".to_string() })
    );
}

#[test]
fn pv_header_running_off_the_sheet_is_a_parse_error() {
    let mut img = image();
    put_u32(&mut img, 532, 500);
    assert_eq!(
        Lvm2::open_image(&img).err(),
        Some(Error::Parse { reason: "structure is truncated".to_string() })
    );
}

#[test]
fn missing_metadata_area_is_refused() {
    let mut img = image();
    put_u64(&mut img, 616, 0);
    put_u64(&mut img, 624, 0);
    assert_eq!(Lvm2::open_image(&img).err(), Some(Error::MissingMetadata));
}

#[test]
fn wrong_metadata_signature_is_a_parse_error() {
    let mut img = image();
    img[AREA + 5] = b'x';
    assert_eq!(
        Lvm2::open_image(&img).err(),
        Some(Error::Parse { reason: "metadata area header has wrong signature".to_string() })
    );
}

#[test]
fn metadata_that_is_not_utf8_is_refused() {
    let mut text = TEXT.as_bytes().to_vec();
    text[3] = 0xff;
    let img = image_with(&text);
    assert_eq!(Lvm2::open_image(&img).err(), Some(Error::MetadataNotUtf8));
}

#[test]
fn missing_field_is_a_serde_error() {
    let text = TEXT.replace("\tseqno = 4\n", "");
    let img = image_with(text.as_bytes());
    assert_eq!(
        Lvm2::open_image(&img).err(),
        Some(Error::Serde { reason: "missing field `seqno`".to_string() })
    );
}

#[test]
fn duplicate_and_mistyped_fields_are_serde_errors() {
    let text = TEXT.replace("\tseqno = 4\n", "\tseqno = 4\n\tseqno = 5\n");
    let img = image_with(text.as_bytes());
    assert_eq!(
        Lvm2::open_image(&img).err(),
        Some(Error::Serde { reason: "duplicate field `seqno`".to_string() })
    );
    let text = TEXT.replace("\textent_size = 8\n", "\textent_size = \"8\"\n");
    let img = image_with(text.as_bytes());
    assert_eq!(
        Lvm2::open_image(&img).err(),
        Some(Error::Serde { reason: "invalid type for field `extent_size`".to_string() })
    );
}

#[test]
fn two_volume_groups_are_refused() {
    let text = format!("{TEXT}\nvg1 {{\n}}\n");
    let img = image_with(text.as_bytes());
    // The second group lacks every field, so reading it fails first.
    assert_eq!(
        Lvm2::open_image(&img).err(),
        Some(Error::Serde { reason: "missing field `id`".to_string() })
    );
    let second = TEXT.replacen("vg0 {", "vg1 {", 1);
    let both = format!("{TEXT}{second}");
    let img = image_with(both.as_bytes());
    assert_eq!(Lvm2::open_image(&img).err(), Some(Error::MultipleVGs));
}

#[test]
fn metadata_without_this_pv_is_refused() {
    let text = TEXT.replace("abcdef-ghij-klmn", "zbcdef-ghij-klmn");
    let img = image_with(text.as_bytes());
    assert_eq!(Lvm2::open_image(&img).err(), Some(Error::PVDoesntContainItself));
}

#[test]
fn huge_extent_size_opens_but_cannot_be_sought() {
    let text = TEXT.replace("\textent_size = 8\n", "\textent_size = 36028797018963968\n");
    let img = image_with(text.as_bytes());
    let lvm = Lvm2::open_image(&img).expect("parse PV");
    assert_eq!(lvm.extent_size(), None);
    let o = lvm.open_lv_by_name("root", Dev::new(&img)).expect("root");
    assert_eq!(o.size_bytes(), None);
    assert!(!o.at_end());
    assert!(matches!(o.plan_seek::<()>(SeekPos::Start(0)), Err(OpenLvError::SeekOverflow)));
    assert!(matches!(
        lvm.open_lv_owned_by_name::<Dev<'_>, ()>("root", Dev::new(&img)),
        Err(OpenLvError::SeekOverflow)
    ));
}

#[test]
fn huge_segment_end_opens_but_has_no_size() {
    let text = TEXT.replacen("\t\t\t\tstart_extent = 0\n\t\t\t\textent_count = 1\n", "\t\t\t\tstart_extent = 18446744073709551615\n\t\t\t\textent_count = 1\n", 1);
    let img = image_with(text.as_bytes());
    let lvm = Lvm2::open_image(&img).expect("parse PV");
    let lvs = lvm.lvs();
    assert_eq!(lvs[1].name(), "swap");
    assert_eq!(lvs[1].size_in_extents(), None);
    let o = lvm.open_lv_by_name("swap", Dev::new(&img)).expect("swap");
    assert!(matches!(o.plan_seek::<()>(SeekPos::Start(0)), Err(OpenLvError::SeekOverflow)));
}

#[test]
fn pv_id_without_dashes_is_the_header_identifier() {
    let img = image();
    let lvm = Lvm2::open_image(&img).expect("parse PV");
    assert_eq!(lvm.pv_id().replace('-', ""), IDENT);
}

#[test]
fn seeks_map_volume_bytes_to_device_bytes() {
    let img = image();
    let lvm = Lvm2::open_image(&img).expect("parse PV");
    let o = lvm.open_lv_by_name("root", Dev::new(&img)).expect("root");
    let plan = o.plan_seek::<()>(SeekPos::Start(0)).expect("seek 0");
    assert_eq!(
        plan,
        SeekPlan { lv_pos: 0, pv_offset: (DATA + 3 * EXTENT) as u64, segment_end: (2 * EXTENT) as u64 }
    );
    let plan = o.plan_seek::<()>(SeekPos::Start((2 * EXTENT + 10) as u64)).expect("seek into segment2");
    assert_eq!(
        plan,
        SeekPlan {
            lv_pos: (2 * EXTENT + 10) as u64,
            pv_offset: (DATA + 10) as u64,
            segment_end: (3 * EXTENT) as u64,
        }
    );
    let plan = o.plan_seek::<()>(SeekPos::End(-1)).expect("seek from end");
    assert_eq!(plan.lv_pos, (3 * EXTENT - 1) as u64);
    assert_eq!(plan.pv_offset, (DATA + EXTENT - 1) as u64);
}

#[test]
fn bad_seeks_are_refused() {
    let img = image();
    let lvm = Lvm2::open_image(&img).expect("parse PV");
    let o = lvm.open_lv_by_name("root", Dev::new(&img)).expect("root");
    assert!(matches!(o.plan_seek::<()>(SeekPos::Start((3 * EXTENT) as u64)), Err(OpenLvError::NoSegment)));
    assert!(matches!(o.plan_seek::<()>(SeekPos::Current(-1)), Err(OpenLvError::SeekOverflow)));
    assert!(matches!(o.plan_seek::<()>(SeekPos::End(i64::MAX)), Err(OpenLvError::NoSegment)));
    assert!(matches!(o.plan_seek::<()>(SeekPos::End(-12289)), Err(OpenLvError::SeekOverflow)));
    assert!(matches!(o.plan_seek::<()>(SeekPos::Start(u64::MAX)), Err(OpenLvError::NoSegment)));
}

#[test]
fn reads_stop_at_segment_ends() {
    let img = image();
    let lvm = Lvm2::open_image(&img).expect("parse PV");
    let mut o = lvm.open_lv_by_name("root", Dev::new(&img)).expect("root");
    assert!(o.needs_seek());
    seek_borrowed(&mut o, SeekPos::Start((2 * EXTENT - 100) as u64)).expect("seek");
    assert!(!o.needs_seek());
    assert_eq!(o.read_len(4096), 100);
    assert_eq!(o.read_len(50), 50);
    let mut buf = [0u8; 4096];
    assert_eq!(read_borrowed(&mut o, &mut buf).expect("read"), 100);
    assert!(o.needs_seek());
    assert_eq!(read_borrowed(&mut o, &mut buf).expect("read"), 4096);
    assert_eq!(buf[0], root_byte(2 * EXTENT));
    assert_eq!(o.position(), (3 * EXTENT) as u64);
    assert!(o.at_end());
    assert_eq!(read_borrowed(&mut o, &mut buf).expect("read at the end"), 0);
}

#[test]
fn owned_reader_maps_every_segment() {
    let img = image();
    let lvm = Lvm2::open_image(&img).expect("parse PV");
    let mut owned = lvm
        .open_lv_owned_by_name::<Dev<'_>, ()>("root", Dev::new(&img))
        .expect("owned-open errored")
        .expect("root exists");
    assert_eq!(owned.len(), (3 * EXTENT) as u64);
    assert!(!owned.is_empty());
    assert_eq!(owned.position(), 0);
    assert_eq!(owned.plan_read::<()>(10_000).expect("plan"), Some(((DATA + 3 * EXTENT) as u64, 2 * EXTENT)));
    assert_eq!(owned.plan_read::<()>(0).expect("plan"), None);
    assert_eq!(owned.seek::<()>(SeekPos::Start((2 * EXTENT + 1) as u64)).expect("seek"), (2 * EXTENT + 1) as u64);
    assert_eq!(owned.plan_read::<()>(10).expect("plan"), Some(((DATA + 1) as u64, 10)));
    assert_eq!(owned.seek::<()>(SeekPos::End(0)).expect("seek end"), (3 * EXTENT) as u64);
    assert_eq!(owned.plan_read::<()>(10).expect("plan"), None);
    assert_eq!(owned.seek::<()>(SeekPos::End(100)).expect("seek past end"), (3 * EXTENT + 100) as u64);
    assert!(matches!(owned.seek::<()>(SeekPos::Current(i64::MIN)), Err(OpenLvError::SeekOverflow)));
    assert_eq!(owned.position(), (3 * EXTENT + 100) as u64);
    let dev = owned.into_inner();
    assert_eq!(dev.pos, 0);
}

#[test]
fn owned_reader_by_id_and_missing_volume() {
    let img = image();
    let lvm = Lvm2::open_image(&img).expect("parse PV");
    let owned = lvm
        .open_lv_owned_by_id::<Dev<'_>, ()>("SWAP-ID", Dev::new(&img))
        .expect("owned-open errored")
        .expect("swap exists");
    assert_eq!(owned.len(), EXTENT as u64);
    assert_eq!(owned.plan_read::<()>(1).expect("plan"), Some(((DATA + 5 * EXTENT) as u64, 1)));
    assert!(lvm.open_lv_owned_by_id::<Dev<'_>, ()>("NOPE", Dev::new(&img)).expect("no error").is_none());
    assert!(lvm.open_lv_owned_by_name::<Dev<'_>, ()>("nope", Dev::new(&img)).expect("no error").is_none());
}

#[test]
fn seek_back_returns_to_the_start() {
    let img = image();
    let lvm = Lvm2::open_image(&img).expect("parse PV");
    let mut owned = lvm
        .open_lv_owned_by_name::<Dev<'_>, ()>("root", Dev::new(&img))
        .expect("owned-open errored")
        .expect("root exists");
    owned.seek::<()>(SeekPos::Start(1000)).expect("seek");
    owned.seek::<()>(SeekPos::Current(5000)).expect("forward");
    assert_eq!(owned.position(), 6000);
    owned.seek::<()>(SeekPos::Current(-5000)).expect("back");
    assert_eq!(owned.position(), 1000);
}

#[test]
fn owned_reader_parity_with_open_lv() {
    let img = image();
    let lvm = Lvm2::open_image(&img).expect("parse PV");
    let first_lv = lvm.lvs()[0];
    let lv_name = first_lv.name().to_string();

    let mut borrowed = lvm.open_lv_by_name(&lv_name, Dev::new(&img)).expect("LV not found");
    let mut owned = lvm
        .open_lv_owned_by_name::<Dev<'_>, ()>(&lv_name, Dev::new(&img))
        .expect("owned-open errored")
        .expect("LV not found via owned API");

    let extents = first_lv.size_in_extents().expect("size fits u64");
    let total_bytes = extents * lvm.extent_size().expect("extent size fits u64");
    assert_eq!(owned.len(), total_bytes, "owned len() vs metadata");

    const CHUNK: usize = 4096;
    let mut buf_a = vec![0u8; CHUNK];
    let mut buf_b = vec![0u8; CHUNK];

    seek_borrowed(&mut borrowed, SeekPos::Start(0)).expect("borrowed seek 0");
    owned.seek::<()>(SeekPos::Start(0)).expect("owned seek 0");

    let mut total = 0u64;
    loop {
        let na = read_borrowed(&mut borrowed, &mut buf_a).expect("short read on fixture");
        let nb = read_owned(&mut owned, &mut buf_b).expect("short read on fixture");
        assert_eq!(na, nb, "short-read disagreement at offset {total}: borrowed={na} owned={nb}");
        if na == 0 {
            break;
        }
        assert_eq!(&buf_a[..na], &buf_b[..nb], "byte mismatch at LV offset {total}..{}", total + na as u64);
        for (k, byte) in buf_a[..na].iter().enumerate() {
            assert_eq!(*byte, root_byte(total as usize + k));
        }
        total += na as u64;
        if total >= total_bytes {
            break;
        }
    }
    assert_eq!(total, total_bytes, "did not read full LV via owned reader");

    for &offset in &[0u64, total_bytes / 3, total_bytes - 512] {
        let mut x = [0u8; 256];
        let mut y = [0u8; 256];
        seek_borrowed(&mut borrowed, SeekPos::Start(offset)).expect("seek borrowed");
        owned.seek::<()>(SeekPos::Start(offset)).expect("seek owned");
        read_exact_borrowed(&mut borrowed, &mut x);
        read_exact_owned(&mut owned, &mut y);
        assert_eq!(x, y, "byte mismatch in targeted read at offset {offset}");
    }
}

#[test]
fn unsupported_segments_are_refused() {
    let text = TEXT.replacen("\t\t\t\ttype = \"striped\"\n\t\t\t\tstripe_count = 1\t# linear", "\t\t\t\ttype = \"raid1\"\n\t\t\t\tstripe_count = 1\t# mirror", 1);
    let img = image_with(text.as_bytes());
    let lvm = Lvm2::open_image(&img).expect("parse PV");
    let o = lvm.open_lv_by_name("swap", Dev::new(&img)).expect("swap");
    assert!(matches!(o.plan_seek::<()>(SeekPos::Start(0)), Err(OpenLvError::Unsupported("segment is not linear"))));
    assert!(matches!(
        lvm.open_lv_owned_by_name::<Dev<'_>, ()>("swap", Dev::new(&img)),
        Err(OpenLvError::Unsupported("segment is not linear"))
    ));

    let text = TEXT.replacen("\"pv0\", 5", "\"pv1\", 5", 1);
    let img = image_with(text.as_bytes());
    let lvm = Lvm2::open_image(&img).expect("parse PV");
    let o = lvm.open_lv_by_name("swap", Dev::new(&img)).expect("swap");
    assert!(matches!(
        o.plan_seek::<()>(SeekPos::Start(0)),
        Err(OpenLvError::Unsupported("segment data is on a different PV than the one opened"))
    ));

    let text = TEXT.replacen("\t\t\t\tstripes = [\n\t\t\t\t\t\"pv0\", 5\n\t\t\t\t]\n", "", 1);
    let img = image_with(text.as_bytes());
    let lvm = Lvm2::open_image(&img).expect("parse PV");
    assert!(matches!(
        lvm.open_lv_owned_by_name::<Dev<'_>, ()>("swap", Dev::new(&img)),
        Err(OpenLvError::Unsupported("segment has no stripes"))
    ));
}

#[test]
fn data_beyond_a_bounded_data_area_is_refused() {
    let mut img = image();
    // The data area now holds only four extents.
    put_u64(&mut img, 592, (4 * EXTENT) as u64);
    let lvm = Lvm2::open_image(&img).expect("parse PV");
    let o = lvm.open_lv_by_name("swap", Dev::new(&img)).expect("swap");
    assert!(matches!(
        o.plan_seek::<()>(SeekPos::Start(0)),
        Err(OpenLvError::Unsupported("data is beyond the end of this PV"))
    ));
    let o = lvm.open_lv_by_name("root", Dev::new(&img)).expect("root");
    assert_eq!(o.plan_seek::<()>(SeekPos::Start(0)).expect("extent 3 is inside").pv_offset, (DATA + 3 * EXTENT) as u64);
    // Its first segment covers extents 3 and 4, and the area ends after extent 3.
    assert!(matches!(
        lvm.open_lv_owned_by_name::<Dev<'_>, ()>("root", Dev::new(&img)),
        Err(OpenLvError::Unsupported("data is beyond the end of this PV"))
    ));
    put_u64(&mut img, 592, (5 * EXTENT) as u64);
    let lvm = Lvm2::open_image(&img).expect("parse PV");
    assert!(lvm.open_lv_owned_by_name::<Dev<'_>, ()>("root", Dev::new(&img)).expect("fits now").is_some());
}

#[test]
fn empty_mapping_at_the_end_reads_nothing() {
    let text = TEXT.replacen(
        "\t\t\tsegment2 {",
        "\t\t\tsegment3 {\n\t\t\t\tstart_extent = 3\n\t\t\t\textent_count = 0\n\t\t\t\ttype = \"striped\"\n\t\t\t\tstripe_count = 1\n\t\t\t\tstripes = [\"pv0\", 7]\n\t\t\t}\n\t\t\tsegment2 {",
        1,
    );
    let img = image_with(text.as_bytes());
    let lvm = Lvm2::open_image(&img).expect("parse PV");
    let mut owned = lvm
        .open_lv_owned_by_name::<Dev<'_>, ()>("root", Dev::new(&img))
        .expect("owned-open errored")
        .expect("root exists");
    assert_eq!(owned.len(), (3 * EXTENT) as u64);
    owned.seek::<()>(SeekPos::End(0)).expect("seek end");
    assert_eq!(owned.plan_read::<()>(10).expect("plan"), None);
    let mut buf = [0u8; 10];
    assert_eq!(read_owned(&mut owned, &mut buf).expect("read"), 0);
}

#[test]
fn relative_seeks_work_beyond_i64() {
    let img = image();
    let lvm = Lvm2::open_image(&img).expect("parse PV");
    let mut owned = lvm
        .open_lv_owned_by_name::<Dev<'_>, ()>("root", Dev::new(&img))
        .expect("owned-open errored")
        .expect("root exists");
    assert_eq!(owned.seek::<()>(SeekPos::Start(1u64 << 63)).expect("seek"), 1u64 << 63);
    assert_eq!(owned.seek::<()>(SeekPos::Current(-1)).expect("back one"), (1u64 << 63) - 1);
    assert_eq!(owned.seek::<()>(SeekPos::Current(i64::MAX)).expect("forward"), u64::MAX - 1);
    assert!(matches!(owned.seek::<()>(SeekPos::Current(2)), Err(OpenLvError::SeekOverflow)));
    assert_eq!(owned.position(), u64::MAX - 1);
}

#[test]
fn lv_without_segments_has_no_extents() {
    let text = TEXT.replacen(
        "\t\tswap {",
        "\t\tempty {\n\t\t\tid = \"EMPTY-ID\"\n\t\t\tstatus = []\n\t\t\tsegment_count = 0\n\t\t}\n\t\tswap {",
        1,
    );
    let img = image_with(text.as_bytes());
    let lvm = Lvm2::open_image(&img).expect("parse PV");
    let lvs = lvm.lvs();
    assert_eq!(lvs[0].name(), "empty");
    assert_eq!(lvs[0].size_in_extents(), Some(0));
    let owned = lvm
        .open_lv_owned_by_name::<Dev<'_>, ()>("empty", Dev::new(&img))
        .expect("owned-open errored")
        .expect("empty exists");
    assert!(owned.is_empty());
    let o = lvm.open_lv_by_name("empty", Dev::new(&img)).expect("empty");
    assert!(matches!(o.plan_seek::<()>(SeekPos::Start(0)), Err(OpenLvError::NoSegment)));
}

#[test]
fn open_lv_starts_at_the_beginning() {
    let img = image();
    let lvm = Lvm2::open_image(&img).expect("parse PV");
    let swap = lvm.lvs()[1];
    let mut o = lvm.open_lv(swap, Dev::new(&img));
    assert_eq!(o.lv().name(), "swap");
    assert_eq!(o.position(), 0);
    let mut buf = [0u8; 16];
    assert_eq!(read_borrowed(&mut o, &mut buf).expect("read"), 16);
    for (k, byte) in buf.iter().enumerate() {
        assert_eq!(*byte, pattern(DATA + 5 * EXTENT + k));
    }
    assert_eq!(o.position(), 16);
}

#[test]
fn opener_reports_a_bad_label() {
    let mut img = image();
    img[513] = b'?';
    let op = Lvm2Opener::new();
    assert!(matches!(op.feed(&img[512..1024]), Err(Error::WrongMagic)));
}

#[test]
fn read_step_decides_each_read() {
    let img = image();
    let lvm = Lvm2::open_image(&img).expect("parse PV");
    let mut o = lvm.open_lv_by_name("root", Dev::new(&img)).expect("root");
    let first = SeekPlan { lv_pos: 0, pv_offset: (DATA + 3 * EXTENT) as u64, segment_end: (2 * EXTENT) as u64 };
    assert_eq!(o.read_step::<()>(100_000).expect("step"), ReadStep::SeekThenRead(first, 2 * EXTENT));
    o.commit_seek(first);
    assert_eq!(o.read_step::<()>(10).expect("step"), ReadStep::Read(10));
    o.advance(2 * EXTENT);
    let second = SeekPlan { lv_pos: (2 * EXTENT) as u64, pv_offset: DATA as u64, segment_end: (3 * EXTENT) as u64 };
    assert_eq!(o.read_step::<()>(100_000).expect("step"), ReadStep::SeekThenRead(second, EXTENT));
    o.commit_seek(second);
    o.advance(EXTENT);
    assert_eq!(o.read_step::<()>(1).expect("step"), ReadStep::Eof);
    // Seeking again to where a seek landed gives the same plan.
    let plan = o.plan_seek::<()>(SeekPos::Start(5000)).expect("seek");
    o.commit_seek(plan);
    assert_eq!(o.plan_seek::<()>(SeekPos::Current(0)).expect("again"), plan);
    assert_eq!(o.plan_seek::<()>(SeekPos::Start(5000)).expect("again"), plan);
    // A failed seek leaves the position and the segment as they were.
    assert!(o.plan_seek::<()>(SeekPos::Start((3 * EXTENT) as u64)).is_err());
    assert_eq!(o.position(), 5000);
    assert_eq!(o.read_step::<()>(10).expect("step"), ReadStep::Read(10));
}
