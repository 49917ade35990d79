//! The MP4 box parsers: a box is a big-endian 32-bit size (counting the size
//! field itself) followed by `size - 4` bytes whose first four bytes are the
//! box type.
use vstd::prelude::*;
use crate::endian::{be16_at, be32_at, be64_at, be_u32, read_be16, read_be32, read_be64, is_utf8};
use crate::iresult::{alt, lift, BoxError, BoxResult, Outcome};

verus! {

pub const FTYP: u32 = 0x6674_7970;
pub const MOOV: u32 = 0x6d6f_6f76;
pub const MDRA: u32 = 0x6d64_7261;
pub const DREF: u32 = 0x6472_6566;
pub const CMOV: u32 = 0x636d_6f76;
pub const RMRA: u32 = 0x726d_7261;
pub const IODS: u32 = 0x696f_6473;
pub const MVHD: u32 = 0x6d76_6864;
pub const CLIP: u32 = 0x636c_6970;
pub const TRAK: u32 = 0x7472_616b;
pub const UDTA: u32 = 0x7564_7461;
pub const MDAT: u32 = 0x6d64_6174;
pub const FREE: u32 = 0x6672_6565;
pub const SKIP: u32 = 0x736b_6970;
pub const WIDE: u32 = 0x7769_6465;

/// The movie header, version 0 layout (100 bytes). The fixed-point and
/// floating-point fields hold the raw big-endian bits of an `f32`.
#[allow(non_snake_case)]
#[derive(Debug, Clone, Copy, PartialEq, Eq)]
pub struct Mvhd32 {
    pub version_flags: u32,
    pub created_date: u32,
    pub modified_date: u32,
    pub scale: u32,
    pub duration: u32,
    pub speed: u32,
    pub volume: u16,
    pub scaleA: u32,
    pub rotateB: u32,
    pub angleU: u32,
    pub rotateC: u32,
    pub scaleD: u32,
    pub angleV: u32,
    pub positionX: u32,
    pub positionY: u32,
    pub scaleW: u32,
    pub preview: u64,
    pub poster: u32,
    pub selection: u64,
    pub current_time: u32,
    pub track_id: u32,
}

/// The movie header, version 1 layout (112 bytes): dates and duration are
/// 64-bit. Float fields hold raw `f32` bits as in `Mvhd32`.
#[allow(non_snake_case)]
#[derive(Debug, Clone, Copy, PartialEq, Eq)]
pub struct Mvhd64 {
    pub version_flags: u32,
    pub created_date: u64,
    pub modified_date: u64,
    pub scale: u32,
    pub duration: u64,
    pub speed: u32,
    pub volume: u16,
    pub scaleA: u32,
    pub rotateB: u32,
    pub angleU: u32,
    pub rotateC: u32,
    pub scaleD: u32,
    pub angleV: u32,
    pub positionX: u32,
    pub positionY: u32,
    pub scaleW: u32,
    pub preview: u64,
    pub poster: u32,
    pub selection: u64,
    pub current_time: u32,
    pub track_id: u32,
}

#[derive(Debug, Clone, Copy, PartialEq, Eq)]
pub enum MvhdBox {
    M32(Mvhd32),
    M64(Mvhd64),
}

impl View for MvhdBox {
    type V = MvhdBox;

    open spec fn view(&self) -> MvhdBox {
        *self
    }
}

/// A child box of `moov`.
#[derive(Debug, Clone, Copy, PartialEq, Eq)]
pub enum MoovBox {
    Mdra,
    Dref,
    Cmov,
    Rmra,
    Iods,
    Mvhd(MvhdBox),
    Clip,
    Trak,
    Udta,
}

impl View for MoovBox {
    type V = MoovBox;

    open spec fn view(&self) -> MoovBox {
        *self
    }
}

/// The `ftyp` box: brands are four bytes that are valid UTF-8.
#[derive(Debug, Clone, PartialEq, Eq)]
pub struct FileType {
    pub major_brand: [u8; 4],
    pub major_brand_version: [u8; 4],
    pub compatible_brands: Vec<[u8; 4]>,
}

pub struct FileTypeModel {
    pub major_brand: Seq<u8>,
    pub major_brand_version: Seq<u8>,
    pub compatible_brands: Seq<Seq<u8>>,
}

impl View for FileType {
    type V = FileTypeModel;

    open spec fn view(&self) -> FileTypeModel {
        FileTypeModel {
            major_brand: self.major_brand@,
            major_brand_version: self.major_brand_version@,
            compatible_brands: self.compatible_brands@.map_values(|b: [u8; 4]| b@),
        }
    }
}

/// A top-level box.
#[derive(Debug, Clone, PartialEq, Eq)]
pub enum Mp4Box {
    Ftyp(FileType),
    Moov(Vec<MoovBox>),
    Mdat,
    Free,
    Skip,
    Wide,
    Unknown,
}

pub enum Mp4BoxModel {
    Ftyp(FileTypeModel),
    Moov(Seq<MoovBox>),
    Mdat,
    Free,
    Skip,
    Wide,
    Unknown,
}

impl View for Mp4Box {
    type V = Mp4BoxModel;

    open spec fn view(&self) -> Mp4BoxModel {
        match self {
            Mp4Box::Ftyp(f) => Mp4BoxModel::Ftyp(f@),
            Mp4Box::Moov(v) => Mp4BoxModel::Moov(v@),
            Mp4Box::Mdat => Mp4BoxModel::Mdat,
            Mp4Box::Free => Mp4BoxModel::Free,
            Mp4Box::Skip => Mp4BoxModel::Skip,
            Mp4Box::Wide => Mp4BoxModel::Wide,
            Mp4Box::Unknown => Mp4BoxModel::Unknown,
        }
    }
}

// ----- specifications -----

/// The input after its first `n` bytes.
pub open spec fn rest(s: Seq<u8>, n: int) -> Seq<u8> {
    s.subrange(n, s.len() as int)
}

/// A four-byte tag, given by its big-endian code.
pub open spec fn spec_tag(s: Seq<u8>, code: u32) -> Outcome<()> {
    if s.len() < 4 {
        Outcome::Incomplete(4)
    } else if be32_at(s, 0) == code {
        Outcome::Done(4, ())
    } else {
        Outcome::Error(BoxError::Tag)
    }
}

/// The outer frame of a box: `Done(size, size - 4)`, the second number being
/// the length of the content that follows the size field. A declared size
/// below 4 aborts.
pub open spec fn spec_mp4_box(s: Seq<u8>) -> Outcome<usize> {
    if s.len() < 4 {
        Outcome::Incomplete(4)
    } else {
        let sz = be32_at(s, 0);
        if sz < 4 {
            Outcome::Abort
        } else if s.len() - 4 >= sz - 4 {
            Outcome::Done(sz as int, (sz - 4) as usize)
        } else {
            Outcome::Incomplete(1234)
        }
    }
}

/// The content of a box that `spec_mp4_box` accepted with content length `c`.
pub open spec fn content(s: Seq<u8>, c: int) -> Seq<u8> {
    s.subrange(4, 4 + c)
}

pub open spec fn spec_brand_name(s: Seq<u8>) -> Outcome<Seq<u8>> {
    if s.len() < 4 {
        Outcome::Incomplete(4)
    } else if vstd::utf8::valid_utf8(s.subrange(0, 4)) {
        Outcome::Done(4, s.subrange(0, 4))
    } else {
        Outcome::Error(BoxError::MapRes)
    }
}

/// Four-byte brands taken while they are valid UTF-8: bytes consumed and brands.
pub open spec fn spec_compatible_brands(s: Seq<u8>) -> (int, Seq<Seq<u8>>)
    decreases s.len(),
{
    if s.len() >= 4 && vstd::utf8::valid_utf8(s.subrange(0, 4)) {
        let (n, bs) = spec_compatible_brands(rest(s, 4));
        (n + 4, seq![s.subrange(0, 4)] + bs)
    } else {
        (0, seq![])
    }
}

/// The content of an `ftyp` box after its tag.
pub open spec fn spec_filetype_parser(s: Seq<u8>) -> Outcome<FileTypeModel> {
    match spec_brand_name(s) {
        Outcome::Done(_, m) => if s.len() < 8 {
            Outcome::Incomplete(4)
        } else {
            let (n, bs) = spec_compatible_brands(rest(s, 8));
            Outcome::Done(
                8 + n,
                FileTypeModel {
                    major_brand: m,
                    major_brand_version: s.subrange(4, 8),
                    compatible_brands: bs,
                },
            )
        },
        Outcome::Error(e) => Outcome::Error(e),
        Outcome::Incomplete(k) => Outcome::Incomplete(k),
        Outcome::Abort => Outcome::Abort,
    }
}

pub open spec fn spec_filetype_box(s: Seq<u8>) -> Outcome<Mp4BoxModel> {
    match spec_tag(s, FTYP) {
        Outcome::Done(..) => match spec_filetype_parser(rest(s, 4)) {
            Outcome::Done(n, f) => Outcome::Done(4 + n, Mp4BoxModel::Ftyp(f)),
            Outcome::Error(e) => Outcome::Error(e),
            Outcome::Incomplete(k) => Outcome::Incomplete(k),
            Outcome::Abort => Outcome::Abort,
        },
        Outcome::Error(e) => Outcome::Error(e),
        Outcome::Incomplete(k) => Outcome::Incomplete(k),
        Outcome::Abort => Outcome::Abort,
    }
}

pub open spec fn spec_mvhd32(s: Seq<u8>) -> Mvhd32 {
    Mvhd32 {
        version_flags: be32_at(s, 0),
        created_date: be32_at(s, 4),
        modified_date: be32_at(s, 8),
        scale: be32_at(s, 12),
        duration: be32_at(s, 16),
        speed: be32_at(s, 20),
        volume: be16_at(s, 24),
        scaleA: be32_at(s, 36),
        rotateB: be32_at(s, 40),
        angleU: be32_at(s, 44),
        rotateC: be32_at(s, 48),
        scaleD: be32_at(s, 52),
        angleV: be32_at(s, 56),
        positionX: be32_at(s, 60),
        positionY: be32_at(s, 64),
        scaleW: be32_at(s, 68),
        preview: be64_at(s, 72),
        poster: be32_at(s, 80),
        selection: be64_at(s, 84),
        current_time: be32_at(s, 92),
        track_id: be32_at(s, 96),
    }
}

pub open spec fn spec_mvhd64(s: Seq<u8>) -> Mvhd64 {
    Mvhd64 {
        version_flags: be32_at(s, 0),
        created_date: be64_at(s, 4),
        modified_date: be64_at(s, 12),
        scale: be32_at(s, 20),
        duration: be64_at(s, 24),
        speed: be32_at(s, 32),
        volume: be16_at(s, 36),
        scaleA: be32_at(s, 48),
        rotateB: be32_at(s, 52),
        angleU: be32_at(s, 56),
        rotateC: be32_at(s, 60),
        scaleD: be32_at(s, 64),
        angleV: be32_at(s, 68),
        positionX: be32_at(s, 72),
        positionY: be32_at(s, 76),
        scaleW: be32_at(s, 80),
        preview: be64_at(s, 84),
        poster: be32_at(s, 92),
        selection: be64_at(s, 96),
        current_time: be32_at(s, 104),
        track_id: be32_at(s, 108),
    }
}

/// The content of an `mvhd` box after its tag: exactly 100 or 112 bytes.
pub open spec fn spec_mvhd_box(s: Seq<u8>) -> Outcome<MvhdBox> {
    if s.len() < 100 {
        Outcome::Incomplete(0)
    } else if s.len() == 100 {
        Outcome::Done(100, MvhdBox::M32(spec_mvhd32(s)))
    } else if s.len() == 112 {
        Outcome::Done(112, MvhdBox::M64(spec_mvhd64(s)))
    } else {
        Outcome::Error(BoxError::Code(0))
    }
}

pub open spec fn spec_moov_mvhd(s: Seq<u8>) -> Outcome<MoovBox> {
    match spec_tag(s, MVHD) {
        Outcome::Done(..) => match spec_mvhd_box(rest(s, 4)) {
            Outcome::Done(n, m) => Outcome::Done(4 + n, MoovBox::Mvhd(m)),
            Outcome::Error(e) => Outcome::Error(e),
            Outcome::Incomplete(k) => Outcome::Incomplete(k),
            Outcome::Abort => Outcome::Abort,
        },
        Outcome::Error(e) => Outcome::Error(e),
        Outcome::Incomplete(k) => Outcome::Incomplete(k),
        Outcome::Abort => Outcome::Abort,
    }
}

/// A tag alone, standing for the box `b`.
pub open spec fn spec_tagged<T>(s: Seq<u8>, code: u32, b: T) -> Outcome<T> {
    match spec_tag(s, code) {
        Outcome::Done(n, _) => Outcome::Done(n, b),
        Outcome::Error(e) => Outcome::Error(e),
        Outcome::Incomplete(k) => Outcome::Incomplete(k),
        Outcome::Abort => Outcome::Abort,
    }
}

/// The content of a `moov` child box: the first alternative that matches.
pub open spec fn spec_moov_internal(s: Seq<u8>) -> Outcome<MoovBox> {
    alt(spec_tagged(s, MDRA, MoovBox::Mdra),
    alt(spec_tagged(s, DREF, MoovBox::Dref),
    alt(spec_tagged(s, CMOV, MoovBox::Cmov),
    alt(spec_tagged(s, RMRA, MoovBox::Rmra),
    alt(spec_tagged(s, IODS, MoovBox::Iods),
    alt(spec_moov_mvhd(s),
    alt(spec_tagged(s, CLIP, MoovBox::Clip),
    alt(spec_tagged(s, TRAK, MoovBox::Trak),
    alt(spec_tagged(s, UDTA, MoovBox::Udta),
        Outcome::Error(BoxError::Alt))))))))))
}

/// One child box of `moov`, frame and content.
pub open spec fn spec_moov(s: Seq<u8>) -> Outcome<MoovBox> {
    match spec_mp4_box(s) {
        Outcome::Done(n, c) => match spec_moov_internal(content(s, c as int)) {
            Outcome::Done(_, o) => Outcome::Done(n, o),
            Outcome::Error(e) => Outcome::Error(e),
            Outcome::Incomplete(k) => Outcome::Incomplete(k),
            Outcome::Abort => Outcome::Abort,
        },
        Outcome::Error(e) => Outcome::Error(e),
        Outcome::Incomplete(k) => Outcome::Incomplete(k),
        Outcome::Abort => Outcome::Abort,
    }
}

/// Child boxes taken while they parse.
pub open spec fn spec_moov_many(s: Seq<u8>) -> Outcome<Seq<MoovBox>>
    decreases s.len(),
{
    match spec_moov(s) {
        Outcome::Done(n, o) => if 0 < n <= s.len() {
            match spec_moov_many(rest(s, n)) {
                Outcome::Done(m, os) => Outcome::Done(n + m, seq![o] + os),
                Outcome::Abort => Outcome::Abort,
                _ => Outcome::Done(n, seq![o]),
            }
        } else {
            Outcome::Done(0, seq![])
        },
        Outcome::Abort => Outcome::Abort,
        _ => Outcome::Done(0, seq![]),
    }
}

/// The content of a `moov` box: its tag, then its children.
pub open spec fn spec_moov_box(s: Seq<u8>) -> Outcome<Mp4BoxModel> {
    match spec_tag(s, MOOV) {
        Outcome::Done(..) => match spec_moov_many(rest(s, 4)) {
            Outcome::Done(m, os) => Outcome::Done(4 + m, Mp4BoxModel::Moov(os)),
            Outcome::Error(e) => Outcome::Error(e),
            Outcome::Incomplete(k) => Outcome::Incomplete(k),
            Outcome::Abort => Outcome::Abort,
        },
        Outcome::Error(e) => Outcome::Error(e),
        Outcome::Incomplete(k) => Outcome::Incomplete(k),
        Outcome::Abort => Outcome::Abort,
    }
}

/// The content of a top-level box: the first alternative that matches,
/// `Unknown` (consuming nothing) when none does.
pub open spec fn spec_box_parser_internal(s: Seq<u8>) -> Outcome<Mp4BoxModel> {
    alt(spec_filetype_box(s),
    alt(spec_moov_box(s),
    alt(spec_tagged(s, MDAT, Mp4BoxModel::Mdat),
    alt(spec_tagged(s, FREE, Mp4BoxModel::Free),
    alt(spec_tagged(s, SKIP, Mp4BoxModel::Skip),
    alt(spec_tagged(s, WIDE, Mp4BoxModel::Wide),
        Outcome::Done(0, Mp4BoxModel::Unknown)))))))
}

/// One top-level box: the frame consumes the whole box, the content is
/// parsed by `spec_box_parser_internal`.
pub open spec fn spec_box_parser(s: Seq<u8>) -> Outcome<Mp4BoxModel> {
    match spec_mp4_box(s) {
        Outcome::Done(n, c) => match spec_box_parser_internal(content(s, c as int)) {
            Outcome::Done(_, o) => Outcome::Done(n, o),
            Outcome::Error(e) => Outcome::Error(e),
            Outcome::Incomplete(k) => Outcome::Incomplete(k),
            Outcome::Abort => Outcome::Abort,
        },
        Outcome::Error(e) => Outcome::Error(e),
        Outcome::Incomplete(k) => Outcome::Incomplete(k),
        Outcome::Abort => Outcome::Abort,
    }
}

/// One top-level box, its value dropped; an error would stop the program.
pub open spec fn spec_data_interpreter(s: Seq<u8>) -> Outcome<()> {
    match spec_box_parser(s) {
        Outcome::Done(n, _) => Outcome::Done(n, ()),
        Outcome::Error(_) => Outcome::Abort,
        Outcome::Incomplete(k) => Outcome::Incomplete(k),
        Outcome::Abort => Outcome::Abort,
    }
}

/// Top-level boxes taken while they parse.
pub open spec fn spec_full_data_interpreter(s: Seq<u8>) -> Outcome<Seq<()>>
    decreases s.len(),
{
    match spec_data_interpreter(s) {
        Outcome::Done(n, o) => if 0 < n <= s.len() {
            match spec_full_data_interpreter(rest(s, n)) {
                Outcome::Done(m, os) => Outcome::Done(n + m, seq![o] + os),
                Outcome::Abort => Outcome::Abort,
                _ => Outcome::Done(n, seq![o]),
            }
        } else {
            Outcome::Done(0, seq![])
        },
        Outcome::Abort => Outcome::Abort,
        _ => Outcome::Done(0, seq![]),
    }
}


// ----- parsers -----

/// A four-byte tag, given by its big-endian code.
pub fn tag(input: &[u8], code: u32) -> (r: BoxResult<()>)
    ensures
        r@ == spec_tag(input@, code),
{
    if input.len() < 4 {
        BoxResult::Incomplete(4)
    } else if read_be32(input, 0) == code {
        BoxResult::Done(4, ())
    } else {
        BoxResult::Error(BoxError::Tag)
    }
}

/// A tag alone, standing for the box `b`.
pub fn tagged<T: View>(input: &[u8], code: u32, b: T) -> (r: BoxResult<T>)
    ensures
        r@ == spec_tagged(input@, code, b@),
{
    match tag(input, code) {
        BoxResult::Done(n, _) => BoxResult::Done(n, b),
        BoxResult::Error(e) => BoxResult::Error(e),
        BoxResult::Incomplete(k) => BoxResult::Incomplete(k),
    }
}

/// The outer frame of a box, reporting an abort (a declared size below 4)
/// as `None`.
pub fn try_mp4_box(input: &[u8]) -> (r: Option<BoxResult<usize>>)
    ensures
        lift(r) == spec_mp4_box(input@),
{
    let sz32: u32 = match be_u32(input) {
        BoxResult::Done(_, v) => v,
        BoxResult::Error(e) => {
            return Some(BoxResult::Error(e));
        },
        BoxResult::Incomplete(k) => {
            return Some(BoxResult::Incomplete(k));
        },
    };
    if sz32 < 4 {
        return None;
    }
    let sz: usize = sz32 as usize;
    if input.len() - 4 >= sz - 4 {
        Some(BoxResult::Done(sz, sz - 4))
    } else {
        Some(BoxResult::Incomplete(1234))
    }
}

/// The outer frame of a box: `Done(size, size - 4)` where the content is
/// `input[4..size]`.
pub fn mp4_box(input: &[u8]) -> (r: BoxResult<usize>)
    requires
        !(spec_mp4_box(input@) is Abort),
    ensures
        r@ == spec_mp4_box(input@),
{
    match try_mp4_box(input) {
        Some(r) => r,
        None => {
            proof {
                assert(false);
            }
            BoxResult::Incomplete(0)
        },
    }
}

pub fn brand_name(input: &[u8]) -> (r: BoxResult<[u8; 4]>)
    ensures
        r@ == spec_brand_name(input@),
{
    if input.len() < 4 {
        return BoxResult::Incomplete(4);
    }
    let b: [u8; 4] = [input[0], input[1], input[2], input[3]];
    let head: &[u8] = &input[0..4];
    assert(b@ =~= input@.subrange(0, 4));
    if is_utf8(head) {
        BoxResult::Done(4, b)
    } else {
        BoxResult::Error(BoxError::MapRes)
    }
}

/// Four-byte brands taken while they are valid UTF-8.
pub fn compatible_brands(input: &[u8]) -> (r: (usize, Vec<[u8; 4]>))
    ensures
        r.0 <= input@.len(),
        r.0 as int == spec_compatible_brands(input@).0,
        r.1@.map_values(|b: [u8; 4]| b@) == spec_compatible_brands(input@).1,
{
    let mut brands: Vec<[u8; 4]> = Vec::new();
    let mut pos: usize = 0;
    assert(rest(input@, 0) =~= input@);
    assert(brands@.map_values(|b: [u8; 4]| b@) =~= Seq::<Seq<u8>>::empty());
    while input.len() - pos >= 4
        invariant
            pos <= input@.len(),
            spec_compatible_brands(input@).0 == pos + spec_compatible_brands(rest(input@, pos as int)).0,
            spec_compatible_brands(input@).1 == brands@.map_values(|b: [u8; 4]| b@)
                + spec_compatible_brands(rest(input@, pos as int)).1,
        ensures
            pos <= input@.len(),
            spec_compatible_brands(rest(input@, pos as int)).0 == 0,
            spec_compatible_brands(rest(input@, pos as int)).1 =~= Seq::<Seq<u8>>::empty(),
            spec_compatible_brands(input@).0 == pos + spec_compatible_brands(rest(input@, pos as int)).0,
            spec_compatible_brands(input@).1 == brands@.map_values(|b: [u8; 4]| b@)
                + spec_compatible_brands(rest(input@, pos as int)).1,
        decreases input@.len() - pos,
    {
        let here: &[u8] = &input[pos..input.len()];
        assert(here@ =~= rest(input@, pos as int));
        match brand_name(here) {
            BoxResult::Done(_, b) => {
                let ghost old_brands = brands@;
                assert(rest(here@, 4) =~= rest(input@, pos + 4));
                brands.push(b);
                assert(brands@.map_values(|b: [u8; 4]| b@) =~= old_brands.map_values(
                    |b: [u8; 4]| b@,
                ) + seq![b@]);
                pos = pos + 4;
            },
            _ => {
                break;
            },
        }
    }
    (pos, brands)
}


/// The content of an `ftyp` box after its tag.
pub fn filetype_parser(input: &[u8]) -> (r: BoxResult<FileType>)
    ensures
        r@ == spec_filetype_parser(input@),
        r matches BoxResult::Done(n, _) ==> n <= input@.len(),
{
    match brand_name(input) {
        BoxResult::Done(_, m) => {
            if input.len() < 8 {
                return BoxResult::Incomplete(4);
            }
            let v: [u8; 4] = [input[4], input[5], input[6], input[7]];
            assert(v@ =~= input@.subrange(4, 8));
            let tail: &[u8] = &input[8..input.len()];
            assert(tail@ =~= rest(input@, 8));
            let (n, bs) = compatible_brands(tail);
            BoxResult::Done(
                8 + n,
                FileType { major_brand: m, major_brand_version: v, compatible_brands: bs },
            )
        },
        BoxResult::Error(e) => BoxResult::Error(e),
        BoxResult::Incomplete(k) => BoxResult::Incomplete(k),
    }
}

/// The content of a top-level box when it is an `ftyp` box.
pub fn filetype_box(input: &[u8]) -> (r: BoxResult<Mp4Box>)
    ensures
        r@ == spec_filetype_box(input@),
{
    match tag(input, FTYP) {
        BoxResult::Done(..) => {
            let tail: &[u8] = &input[4..input.len()];
            assert(tail@ =~= rest(input@, 4));
            match filetype_parser(tail) {
                BoxResult::Done(n, f) => BoxResult::Done(4 + n, Mp4Box::Ftyp(f)),
                BoxResult::Error(e) => BoxResult::Error(e),
                BoxResult::Incomplete(k) => BoxResult::Incomplete(k),
            }
        },
        BoxResult::Error(e) => BoxResult::Error(e),
        BoxResult::Incomplete(k) => BoxResult::Incomplete(k),
    }
}

fn mvhd32(input: &[u8]) -> (r: Mvhd32)
    requires
        input@.len() >= 100,
    ensures
        r == spec_mvhd32(input@),
{
    Mvhd32 {
        version_flags: read_be32(input, 0),
        created_date: read_be32(input, 4),
        modified_date: read_be32(input, 8),
        scale: read_be32(input, 12),
        duration: read_be32(input, 16),
        speed: read_be32(input, 20),
        volume: read_be16(input, 24),
        scaleA: read_be32(input, 36),
        rotateB: read_be32(input, 40),
        angleU: read_be32(input, 44),
        rotateC: read_be32(input, 48),
        scaleD: read_be32(input, 52),
        angleV: read_be32(input, 56),
        positionX: read_be32(input, 60),
        positionY: read_be32(input, 64),
        scaleW: read_be32(input, 68),
        preview: read_be64(input, 72),
        poster: read_be32(input, 80),
        selection: read_be64(input, 84),
        current_time: read_be32(input, 92),
        track_id: read_be32(input, 96),
    }
}

fn mvhd64(input: &[u8]) -> (r: Mvhd64)
    requires
        input@.len() >= 112,
    ensures
        r == spec_mvhd64(input@),
{
    Mvhd64 {
        version_flags: read_be32(input, 0),
        created_date: read_be64(input, 4),
        modified_date: read_be64(input, 12),
        scale: read_be32(input, 20),
        duration: read_be64(input, 24),
        speed: read_be32(input, 32),
        volume: read_be16(input, 36),
        scaleA: read_be32(input, 48),
        rotateB: read_be32(input, 52),
        angleU: read_be32(input, 56),
        rotateC: read_be32(input, 60),
        scaleD: read_be32(input, 64),
        angleV: read_be32(input, 68),
        positionX: read_be32(input, 72),
        positionY: read_be32(input, 76),
        scaleW: read_be32(input, 80),
        preview: read_be64(input, 84),
        poster: read_be32(input, 92),
        selection: read_be64(input, 96),
        current_time: read_be32(input, 104),
        track_id: read_be32(input, 108),
    }
}

/// The content of an `mvhd` box after its tag.
pub fn mvhd_box(input: &[u8]) -> (r: BoxResult<MvhdBox>)
    ensures
        r@ == spec_mvhd_box(input@),
{
    if input.len() < 100 {
        BoxResult::Incomplete(0)
    } else if input.len() == 100 {
        BoxResult::Done(100, MvhdBox::M32(mvhd32(input)))
    } else if input.len() == 112 {
        BoxResult::Done(112, MvhdBox::M64(mvhd64(input)))
    } else {
        BoxResult::Error(BoxError::Code(0))
    }
}

/// The content of a `moov` child box when it is an `mvhd` box.
pub fn moov_mvhd(input: &[u8]) -> (r: BoxResult<MoovBox>)
    ensures
        r@ == spec_moov_mvhd(input@),
{
    match tag(input, MVHD) {
        BoxResult::Done(..) => {
            let tail: &[u8] = &input[4..input.len()];
            assert(tail@ =~= rest(input@, 4));
            match mvhd_box(tail) {
                BoxResult::Done(n, m) => BoxResult::Done(4 + n, MoovBox::Mvhd(m)),
                BoxResult::Error(e) => BoxResult::Error(e),
                BoxResult::Incomplete(k) => BoxResult::Incomplete(k),
            }
        },
        BoxResult::Error(e) => BoxResult::Error(e),
        BoxResult::Incomplete(k) => BoxResult::Incomplete(k),
    }
}

/// The content of a `moov` child box.
pub fn moov_internal(input: &[u8]) -> (r: BoxResult<MoovBox>)
    ensures
        r@ == spec_moov_internal(input@),
{
    let r = tagged(input, MDRA, MoovBox::Mdra);
    if let BoxResult::Done(..) = r {
        return r;
    }
    let r = tagged(input, DREF, MoovBox::Dref);
    if let BoxResult::Done(..) = r {
        return r;
    }
    let r = tagged(input, CMOV, MoovBox::Cmov);
    if let BoxResult::Done(..) = r {
        return r;
    }
    let r = tagged(input, RMRA, MoovBox::Rmra);
    if let BoxResult::Done(..) = r {
        return r;
    }
    let r = tagged(input, IODS, MoovBox::Iods);
    if let BoxResult::Done(..) = r {
        return r;
    }
    let r = moov_mvhd(input);
    if let BoxResult::Done(..) = r {
        return r;
    }
    let r = tagged(input, CLIP, MoovBox::Clip);
    if let BoxResult::Done(..) = r {
        return r;
    }
    let r = tagged(input, TRAK, MoovBox::Trak);
    if let BoxResult::Done(..) = r {
        return r;
    }
    let r = tagged(input, UDTA, MoovBox::Udta);
    if let BoxResult::Done(..) = r {
        return r;
    }
    BoxResult::Error(BoxError::Alt)
}


/// One child box of `moov`, reporting an abort as `None`.
pub fn try_moov(input: &[u8]) -> (r: Option<BoxResult<MoovBox>>)
    ensures
        lift(r) == spec_moov(input@),
{
    match try_mp4_box(input) {
        None => None,
        Some(BoxResult::Done(n, c)) => {
            let inner: &[u8] = &input[4..4 + c];
            assert(inner@ =~= content(input@, c as int));
            match moov_internal(inner) {
                BoxResult::Done(_, o) => Some(BoxResult::Done(n, o)),
                BoxResult::Error(e) => Some(BoxResult::Error(e)),
                BoxResult::Incomplete(k) => Some(BoxResult::Incomplete(k)),
            }
        },
        Some(BoxResult::Error(e)) => Some(BoxResult::Error(e)),
        Some(BoxResult::Incomplete(k)) => Some(BoxResult::Incomplete(k)),
    }
}

/// Child boxes of `moov` taken while they parse, reporting an abort as `None`.
pub fn try_moov_many(input: &[u8]) -> (r: Option<BoxResult<Vec<MoovBox>>>)
    ensures
        lift(r) == spec_moov_many(input@),
        r matches Some(BoxResult::Done(m, _)) ==> m <= input@.len(),
{
    let mut res: Vec<MoovBox> = Vec::new();
    let mut pos: usize = 0;
    assert(rest(input@, 0) =~= input@);
    loop
        invariant
            pos <= input@.len(),
            spec_moov_many(rest(input@, pos as int)) matches Outcome::Done(m, os) ==>
                spec_moov_many(input@) == Outcome::Done(pos + m, res@ + os),
            spec_moov_many(rest(input@, pos as int)) is Abort ==> spec_moov_many(input@) is Abort,
        decreases input@.len() - pos,
    {
        let here: &[u8] = &input[pos..input.len()];
        assert(here@ =~= rest(input@, pos as int));
        match try_moov(here) {
            None => {
                return None;
            },
            Some(BoxResult::Done(n, o)) => {
                if n == 0 || n > here.len() {
                    assert(spec_moov_many(here@) == Outcome::Done(0, Seq::<MoovBox>::empty()));
                    assert(res@ + Seq::<MoovBox>::empty() =~= res@);
                    return Some(BoxResult::Done(pos, res));
                }
                let ghost old_res = res@;
                assert(rest(here@, n as int) =~= rest(input@, pos + n));
                res.push(o);
                assert(res@ =~= old_res + seq![o]);
                proof {
                    let t = spec_moov_many(rest(input@, pos + n));
                    if let Outcome::Done(m, os) = t {
                        assert(old_res + (seq![o] + os) =~= res@ + os);
                    }
                }
                pos = pos + n;
            },
            Some(_) => {
                assert(spec_moov_many(here@) == Outcome::Done(0, Seq::<MoovBox>::empty()));
                assert(res@ + Seq::<MoovBox>::empty() =~= res@);
                return Some(BoxResult::Done(pos, res));
            },
        }
    }
}

/// The content of a top-level box when it is a `moov` box, reporting an
/// abort as `None`.
pub fn try_moov_box(input: &[u8]) -> (r: Option<BoxResult<Mp4Box>>)
    ensures
        lift(r) == spec_moov_box(input@),
{
    match tag(input, MOOV) {
        BoxResult::Done(..) => {
            let tail: &[u8] = &input[4..input.len()];
            assert(tail@ =~= rest(input@, 4));
            match try_moov_many(tail) {
                None => None,
                Some(BoxResult::Done(m, os)) => Some(BoxResult::Done(4 + m, Mp4Box::Moov(os))),
                Some(BoxResult::Error(e)) => Some(BoxResult::Error(e)),
                Some(BoxResult::Incomplete(k)) => Some(BoxResult::Incomplete(k)),
            }
        },
        BoxResult::Error(e) => Some(BoxResult::Error(e)),
        BoxResult::Incomplete(k) => Some(BoxResult::Incomplete(k)),
    }
}


/// The content of a top-level box, reporting an abort as `None`.
pub fn try_box_parser_internal(input: &[u8]) -> (r: Option<BoxResult<Mp4Box>>)
    ensures
        lift(r) == spec_box_parser_internal(input@),
{
    let r = filetype_box(input);
    if let BoxResult::Done(..) = r {
        return Some(r);
    }
    let r = try_moov_box(input);
    match r {
        None => {
            return None;
        },
        Some(BoxResult::Done(..)) => {
            return r;
        },
        _ => {},
    }
    let r = tagged(input, MDAT, Mp4Box::Mdat);
    if let BoxResult::Done(..) = r {
        return Some(r);
    }
    let r = tagged(input, FREE, Mp4Box::Free);
    if let BoxResult::Done(..) = r {
        return Some(r);
    }
    let r = tagged(input, SKIP, Mp4Box::Skip);
    if let BoxResult::Done(..) = r {
        return Some(r);
    }
    let r = tagged(input, WIDE, Mp4Box::Wide);
    if let BoxResult::Done(..) = r {
        return Some(r);
    }
    Some(BoxResult::Done(0, Mp4Box::Unknown))
}

/// One top-level box, reporting an abort as `None`.
pub fn try_box_parser(input: &[u8]) -> (r: Option<BoxResult<Mp4Box>>)
    ensures
        lift(r) == spec_box_parser(input@),
{
    match try_mp4_box(input) {
        None => None,
        Some(BoxResult::Done(n, c)) => {
            let inner: &[u8] = &input[4..4 + c];
            assert(inner@ =~= content(input@, c as int));
            match try_box_parser_internal(inner) {
                None => None,
                Some(BoxResult::Done(_, o)) => Some(BoxResult::Done(n, o)),
                Some(BoxResult::Error(e)) => Some(BoxResult::Error(e)),
                Some(BoxResult::Incomplete(k)) => Some(BoxResult::Incomplete(k)),
            }
        },
        Some(BoxResult::Error(e)) => Some(BoxResult::Error(e)),
        Some(BoxResult::Incomplete(k)) => Some(BoxResult::Incomplete(k)),
    }
}

/// One top-level box with its value dropped, reporting an abort as `None`.
pub fn try_data_interpreter(input: &[u8]) -> (r: Option<BoxResult<()>>)
    ensures
        lift(r) == spec_data_interpreter(input@),
{
    match try_box_parser(input) {
        None => None,
        Some(BoxResult::Done(n, _)) => Some(BoxResult::Done(n, ())),
        Some(BoxResult::Error(_)) => None,
        Some(BoxResult::Incomplete(k)) => Some(BoxResult::Incomplete(k)),
    }
}

/// Top-level boxes taken while they parse, reporting an abort as `None`.
pub fn try_full_data_interpreter(input: &[u8]) -> (r: Option<BoxResult<Vec<()>>>)
    ensures
        lift(r) == spec_full_data_interpreter(input@),
        r matches Some(BoxResult::Done(m, _)) ==> m <= input@.len(),
{
    let mut res: Vec<()> = Vec::new();
    let mut pos: usize = 0;
    assert(rest(input@, 0) =~= input@);
    loop
        invariant
            pos <= input@.len(),
            spec_full_data_interpreter(rest(input@, pos as int)) matches Outcome::Done(m, os) ==>
                spec_full_data_interpreter(input@) == Outcome::Done(pos + m, res@ + os),
            spec_full_data_interpreter(rest(input@, pos as int)) is Abort
                ==> spec_full_data_interpreter(input@) is Abort,
        decreases input@.len() - pos,
    {
        let here: &[u8] = &input[pos..input.len()];
        assert(here@ =~= rest(input@, pos as int));
        match try_data_interpreter(here) {
            None => {
                return None;
            },
            Some(BoxResult::Done(n, o)) => {
                if n == 0 || n > here.len() {
                    assert(spec_full_data_interpreter(here@) == Outcome::Done(0, Seq::<()>::empty()));
                    assert(res@ + Seq::<()>::empty() =~= res@);
                    return Some(BoxResult::Done(pos, res));
                }
                let ghost old_res = res@;
                assert(rest(here@, n as int) =~= rest(input@, pos + n));
                res.push(o);
                assert(res@ =~= old_res + seq![o]);
                proof {
                    let t = spec_full_data_interpreter(rest(input@, pos + n));
                    if let Outcome::Done(m, os) = t {
                        assert(old_res + (seq![o] + os) =~= res@ + os);
                    }
                }
                pos = pos + n;
            },
            Some(_) => {
                assert(spec_full_data_interpreter(here@) == Outcome::Done(0, Seq::<()>::empty()));
                assert(res@ + Seq::<()>::empty() =~= res@);
                return Some(BoxResult::Done(pos, res));
            },
        }
    }
}

/// One child box of `moov`: its frame, then the content.
pub fn moov(input: &[u8]) -> (r: BoxResult<MoovBox>)
    requires
        !(spec_moov(input@) is Abort),
    ensures
        r@ == spec_moov(input@),
{
    match try_moov(input) {
        Some(r) => r,
        None => {
            proof {
                assert(false);
            }
            BoxResult::Incomplete(0)
        },
    }
}

/// Child boxes of `moov` taken while they parse.
pub fn moov_many(input: &[u8]) -> (r: BoxResult<Vec<MoovBox>>)
    requires
        !(spec_moov_many(input@) is Abort),
    ensures
        r@ == spec_moov_many(input@),
{
    match try_moov_many(input) {
        Some(r) => r,
        None => {
            proof {
                assert(false);
            }
            BoxResult::Incomplete(0)
        },
    }
}

/// The content of a top-level box when it is a `moov` box.
pub fn moov_box(input: &[u8]) -> (r: BoxResult<Mp4Box>)
    requires
        !(spec_moov_box(input@) is Abort),
    ensures
        r@ == spec_moov_box(input@),
{
    match try_moov_box(input) {
        Some(r) => r,
        None => {
            proof {
                assert(false);
            }
            BoxResult::Incomplete(0)
        },
    }
}

/// The content of a top-level box.
pub fn box_parser_internal(input: &[u8]) -> (r: BoxResult<Mp4Box>)
    requires
        !(spec_box_parser_internal(input@) is Abort),
    ensures
        r@ == spec_box_parser_internal(input@),
{
    match try_box_parser_internal(input) {
        Some(r) => r,
        None => {
            proof {
                assert(false);
            }
            BoxResult::Incomplete(0)
        },
    }
}

/// One top-level box: `Done(size, b)` consumes the whole box.
pub fn box_parser(input: &[u8]) -> (r: BoxResult<Mp4Box>)
    requires
        !(spec_box_parser(input@) is Abort),
    ensures
        r@ == spec_box_parser(input@),
{
    match try_box_parser(input) {
        Some(r) => r,
        None => {
            proof {
                assert(false);
            }
            BoxResult::Incomplete(0)
        },
    }
}

/// One top-level box with its value dropped.
pub fn data_interpreter(input: &[u8]) -> (r: BoxResult<()>)
    requires
        !(spec_data_interpreter(input@) is Abort),
    ensures
        r@ == spec_data_interpreter(input@),
{
    match try_data_interpreter(input) {
        Some(r) => r,
        None => {
            proof {
                assert(false);
            }
            BoxResult::Incomplete(0)
        },
    }
}

/// Top-level boxes taken while they parse: `Done(n, units)` with one unit per
/// box, the boxes filling `input[..n]`.
pub fn full_data_interpreter(input: &[u8]) -> (r: BoxResult<Vec<()>>)
    requires
        !(spec_full_data_interpreter(input@) is Abort),
    ensures
        r@ == spec_full_data_interpreter(input@),
{
    match try_full_data_interpreter(input) {
        Some(r) => r,
        None => {
            proof {
                assert(false);
            }
            BoxResult::Incomplete(0)
        },
    }
}

} // verus!
