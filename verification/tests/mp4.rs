use mp4_json::endian::be_u32;
use mp4_json::iresult::{BoxError, BoxResult};
use mp4_json::mp4::{
    box_parser, brand_name, compatible_brands, data_interpreter, filetype_box, full_data_interpreter,
    moov, moov_box, moov_internal, mp4_box, mvhd_box, tag, try_box_parser, try_full_data_interpreter,
    try_mp4_box, FileType, MoovBox, Mp4Box, MvhdBox, FTYP, MDAT,
};

/// A box: big-endian size (header included), four-byte type, content.
fn mk_box(kind: &[u8; 4], content: &[u8]) -> Vec<u8> {
    let size = (content.len() + 8) as u32;
    let mut v = size.to_be_bytes().to_vec();
    v.extend_from_slice(kind);
    v.extend_from_slice(content);
    v
}

fn mvhd32_content() -> Vec<u8> {
    let mut c = vec![0u8; 100];
    c[0..4].copy_from_slice(&0x0000_0001u32.to_be_bytes());
    c[12..16].copy_from_slice(&600u32.to_be_bytes());
    c[16..20].copy_from_slice(&1200u32.to_be_bytes());
    c[20..24].copy_from_slice(&1.0f32.to_bits().to_be_bytes());
    c[24..26].copy_from_slice(&0x0100u16.to_be_bytes());
    c[72..80].copy_from_slice(&0x0102_0304_0506_0708u64.to_be_bytes());
    c[96..100].copy_from_slice(&7u32.to_be_bytes());
    c
}

#[test]
fn big_endian_readers() {
    assert_eq!(be_u32(&[0xde, 0xad, 0xbe, 0xef]), BoxResult::Done(4, 0xdead_beef));
    assert_eq!(be_u32(&[1, 2, 3]), BoxResult::Incomplete(4));
}

#[test]
fn frame_of_a_box() {
    let b = mk_box(b"free", &[1, 2, 3]);
    assert_eq!(mp4_box(&b), BoxResult::Done(11, 7));
    assert_eq!(mp4_box(&b[..10]), BoxResult::Incomplete(1234));
    assert_eq!(mp4_box(&b[..3]), BoxResult::Incomplete(4));
    // a declared size below 4 stops the program; the checked form says so
    assert_eq!(try_mp4_box(&[0, 0, 0, 3, 0]), None);
    assert_eq!(try_mp4_box(&[0, 0, 0, 4]), Some(BoxResult::Done(4, 0)));
}

#[test]
fn tags() {
    assert_eq!(tag(b"ftypxx", FTYP), BoxResult::Done(4, ()));
    assert_eq!(tag(b"mdat", FTYP), BoxResult::Error(BoxError::Tag));
    assert_eq!(tag(b"ft", FTYP), BoxResult::Incomplete(4));
}

#[test]
fn brands() {
    assert_eq!(brand_name(b"isom"), BoxResult::Done(4, *b"isom"));
    assert_eq!(brand_name(&[0xff, 0, 0, 0]), BoxResult::Error(BoxError::MapRes));
    assert_eq!(brand_name(b"iso"), BoxResult::Incomplete(4));
    let (n, bs) = compatible_brands(b"isomavc1\xff\x00\x00\x00mp41");
    assert_eq!(n, 8);
    assert_eq!(bs, vec![*b"isom", *b"avc1"]);
    let (n, bs) = compatible_brands(b"mp4");
    assert_eq!((n, bs.len()), (0, 0));
}

#[test]
fn ftyp_box() {
    let content = b"ftypisom\x00\x00\x02\x00isomiso2mp41";
    assert_eq!(
        filetype_box(content),
        BoxResult::Done(
            content.len(),
            Mp4Box::Ftyp(FileType {
                major_brand: *b"isom",
                major_brand_version: [0, 0, 2, 0],
                compatible_brands: vec![*b"isom", *b"iso2", *b"mp41"],
            })
        )
    );
    assert_eq!(filetype_box(b"ftypis"), BoxResult::Incomplete(4));
    assert_eq!(filetype_box(b"ftypisom\x00\x00"), BoxResult::Incomplete(4));
    assert_eq!(filetype_box(b"moovisom"), BoxResult::Error(BoxError::Tag));
}

#[test]
fn movie_header() {
    let c = mvhd32_content();
    match mvhd_box(&c) {
        BoxResult::Done(100, MvhdBox::M32(h)) => {
            assert_eq!(h.version_flags, 1);
            assert_eq!(h.scale, 600);
            assert_eq!(h.duration, 1200);
            assert_eq!(f32::from_bits(h.speed), 1.0);
            assert_eq!(h.volume, 0x0100);
            assert_eq!(h.preview, 0x0102_0304_0506_0708);
            assert_eq!(h.track_id, 7);
        }
        other => panic!("unexpected {:?}", other),
    }
    let mut c64 = vec![0u8; 112];
    c64[4..12].copy_from_slice(&0x1_0000_0000u64.to_be_bytes());
    c64[108..112].copy_from_slice(&9u32.to_be_bytes());
    match mvhd_box(&c64) {
        BoxResult::Done(112, MvhdBox::M64(h)) => {
            assert_eq!(h.created_date, 0x1_0000_0000);
            assert_eq!(h.track_id, 9);
        }
        other => panic!("unexpected {:?}", other),
    }
    assert_eq!(mvhd_box(&[0u8; 99]), BoxResult::Incomplete(0));
    assert_eq!(mvhd_box(&[0u8; 101]), BoxResult::Error(BoxError::Code(0)));
}

#[test]
fn moov_children() {
    assert_eq!(moov_internal(b"trak...."), BoxResult::Done(4, MoovBox::Trak));
    assert_eq!(moov_internal(b"udta"), BoxResult::Done(4, MoovBox::Udta));
    assert_eq!(moov_internal(b"prfl"), BoxResult::Error(BoxError::Alt));
    assert_eq!(moov_internal(b"mvhd\x00"), BoxResult::Error(BoxError::Alt));
    let child = mk_box(b"iods", &[9, 9]);
    assert_eq!(moov(&child), BoxResult::Done(10, MoovBox::Iods));
    let mut content = b"mvhd".to_vec();
    content.extend(mvhd32_content());
    let header = mk_box(b"mvhd", &mvhd32_content());
    assert_eq!(header.len(), 108);
    match moov(&header) {
        BoxResult::Done(108, MoovBox::Mvhd(MvhdBox::M32(h))) => assert_eq!(h.track_id, 7),
        other => panic!("unexpected {:?}", other),
    }
}

#[test]
fn moov_box_collects_children() {
    let mut content = b"moov".to_vec();
    content.extend(mk_box(b"mvhd", &mvhd32_content()));
    content.extend(mk_box(b"trak", &[0; 16]));
    content.extend(mk_box(b"prfl", &[0; 4]));
    content.extend(mk_box(b"udta", &[]));
    match moov_box(&content) {
        BoxResult::Done(n, Mp4Box::Moov(children)) => {
            assert_eq!(n, 4 + 108 + 24);
            assert_eq!(children.len(), 2);
            assert_eq!(children[1], MoovBox::Trak);
        }
        other => panic!("unexpected {:?}", other),
    }
    assert_eq!(moov_box(b"moov"), BoxResult::Done(4, Mp4Box::Moov(vec![])));
}

#[test]
fn top_level_boxes() {
    let ftyp = mk_box(b"ftyp", b"isom\x00\x00\x02\x00isom");
    match box_parser(&ftyp) {
        BoxResult::Done(n, Mp4Box::Ftyp(f)) => {
            assert_eq!(n, ftyp.len());
            assert_eq!(f.major_brand, *b"isom");
        }
        other => panic!("unexpected {:?}", other),
    }
    assert_eq!(box_parser(&mk_box(b"mdat", &[1, 2, 3])), BoxResult::Done(11, Mp4Box::Mdat));
    assert_eq!(box_parser(&mk_box(b"free", &[])), BoxResult::Done(8, Mp4Box::Free));
    assert_eq!(box_parser(&mk_box(b"skip", &[0])), BoxResult::Done(9, Mp4Box::Skip));
    assert_eq!(box_parser(&mk_box(b"wide", &[])), BoxResult::Done(8, Mp4Box::Wide));
    assert_eq!(box_parser(&mk_box(b"uuid", &[5; 20])), BoxResult::Done(28, Mp4Box::Unknown));
    // an ftyp box whose brand is not UTF-8 is not recognised
    assert_eq!(
        box_parser(&mk_box(b"ftyp", b"\xff\xfe\x00\x00\x00\x00\x00\x00")),
        BoxResult::Done(16, Mp4Box::Unknown)
    );
    assert_eq!(box_parser(&mk_box(b"mdat", &[1, 2, 3])[..9]), BoxResult::Incomplete(1234));
    assert_eq!(MDAT, u32::from_be_bytes(*b"mdat"));
}

#[test]
fn a_box_parses_the_same_whatever_follows() {
    let b = mk_box(b"mdat", &[1, 2, 3]);
    let mut longer = b.clone();
    longer.extend([0xff; 9]);
    assert_eq!(box_parser(&longer), box_parser(&b));
    assert_eq!(box_parser(&longer), BoxResult::Done(11, Mp4Box::Mdat));
}

#[test]
fn a_short_size_inside_moov_is_reported() {
    let mut content = b"moov".to_vec();
    content.extend([0u8, 0, 0, 2]);
    let b = mk_box(b"moov", &content[4..]);
    assert_eq!(try_box_parser(&b), None);
}

#[test]
fn data_interpreter_drops_the_value() {
    assert_eq!(data_interpreter(&mk_box(b"free", &[])), BoxResult::Done(8, ()));
    assert_eq!(data_interpreter(&[0, 0]), BoxResult::Incomplete(4));
}

#[test]
fn stream_of_boxes() {
    let mut data = mk_box(b"ftyp", b"isom\x00\x00\x02\x00isom");
    let mut moov_content = Vec::new();
    moov_content.extend(mk_box(b"mvhd", &mvhd32_content()));
    data.extend(mk_box(b"moov", &moov_content));
    data.extend(mk_box(b"mdat", &[7; 30]));
    let complete = data.len();
    data.extend(mk_box(b"free", &[0; 10])[..6].to_vec());
    match full_data_interpreter(&data) {
        BoxResult::Done(n, units) => {
            assert_eq!(n, complete);
            assert_eq!(units.len(), 3);
        }
        other => panic!("unexpected {:?}", other),
    }
    assert_eq!(data_interpreter(&data[complete..]), BoxResult::Incomplete(1234));
    assert_eq!(full_data_interpreter(&[]), BoxResult::Done(0, vec![]));
    let mut bad = mk_box(b"free", &[]);
    bad.extend([0, 0, 0, 1]);
    assert_eq!(try_full_data_interpreter(&bad), None);
}
