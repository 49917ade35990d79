//! Properties of the MP4 box parsers that hold for every input.
use vstd::prelude::*;
use crate::endian::{be16_at, be32_at, be64_at};
use crate::iresult::Outcome;
use crate::mp4::{
    FileTypeModel, spec_compatible_brands, spec_filetype_parser, MOOV, Mvhd32, Mvhd64, MvhdBox, MoovBox, Mp4BoxModel, spec_moov, rest, spec_box_parser, spec_box_parser_internal, spec_data_interpreter,
    spec_full_data_interpreter, spec_moov_box, spec_moov_many, spec_mp4_box, spec_mvhd_box,
};

verus! {

/// The frame parser aborts exactly on a complete size field that declares
/// fewer than 4 bytes; otherwise it frames the whole declared box or asks
/// for more input.
pub proof fn mp4_box_frames_declared_size(s: Seq<u8>)
    ensures
        spec_mp4_box(s) is Abort <==> (s.len() >= 4 && be32_at(s, 0) < 4),
        spec_mp4_box(s) matches Outcome::Done(n, c) ==> {
            &&& n == be32_at(s, 0) as int
            &&& 4 <= n <= s.len()
            &&& c == n - 4
        },
        !(spec_mp4_box(s) is Error),
{
}

/// Collecting `moov` children never fails: it yields the children that parse
/// (possibly none), unless a child frame aborts.
pub proof fn moov_many_never_errors(s: Seq<u8>)
    ensures
        spec_moov_many(s) is Done || spec_moov_many(s) is Abort,
        spec_moov_many(s) matches Outcome::Done(n, _) ==> 0 <= n <= s.len(),
    decreases s.len(),
{
    if let Outcome::Done(n, o) = crate::mp4::spec_moov(s) {
        if 0 < n <= s.len() {
            moov_many_never_errors(rest(s, n));
        }
    }
}

/// The content of a top-level box is always classified: the choice ends in
/// `Unknown`, so it never reports an error.
pub proof fn box_content_never_errors(s: Seq<u8>)
    ensures
        spec_box_parser_internal(s) is Done || spec_box_parser_internal(s) is Abort,
{
    moov_many_never_errors(rest(s, 4));
}

/// A top-level box is consumed whole (its declared size), and the parser
/// never reports an error; so the error branch that would stop the program
/// in `data_interpreter` is never taken.
pub proof fn box_parser_consumes_one_box(s: Seq<u8>)
    ensures
        !(spec_box_parser(s) is Error),
        spec_box_parser(s) matches Outcome::Done(n, _) ==> {
            &&& s.len() >= 4
            &&& n == be32_at(s, 0) as int
            &&& 4 <= n <= s.len()
        },
        spec_data_interpreter(s) is Abort <==> spec_box_parser(s) is Abort,
{
    if let Outcome::Done(n, c) = spec_mp4_box(s) {
        box_content_never_errors(s.subrange(4, 4 + c as int));
    }
}

/// Reading a stream of top-level boxes stops exactly at the first box that
/// is not complete: the boxes read fill `s[..n]`, and at `n` the next box
/// asks for more input.
pub proof fn full_data_interpreter_stops_at_incomplete_box(s: Seq<u8>)
    ensures
        spec_full_data_interpreter(s) is Done || spec_full_data_interpreter(s) is Abort,
        spec_full_data_interpreter(s) matches Outcome::Done(n, _) ==> {
            &&& 0 <= n <= s.len()
            &&& spec_data_interpreter(rest(s, n)) is Incomplete
        },
    decreases s.len(),
{
    box_parser_consumes_one_box(s);
    assert(rest(s, 0) =~= s);
    if let Outcome::Done(n, o) = spec_data_interpreter(s) {
        if 0 < n <= s.len() {
            full_data_interpreter_stops_at_incomplete_box(rest(s, n));
            if let Outcome::Done(m, _) = spec_full_data_interpreter(rest(s, n)) {
                assert(rest(rest(s, n), m) =~= rest(s, n + m));
            }
        }
    }
}

/// The movie header content parses exactly when it is 100 or 112 bytes long.
pub proof fn mvhd_box_sizes(s: Seq<u8>)
    ensures
        spec_mvhd_box(s) is Done <==> (s.len() == 100 || s.len() == 112),
        spec_mvhd_box(s) matches Outcome::Done(n, _) ==> n == s.len(),
{
}

/// A complete top-level box parses the same whatever bytes follow it: the
/// parser reads nothing past the size that the box declares.
pub proof fn box_parser_ignores_what_follows(s: Seq<u8>, t: Seq<u8>)
    ensures
        spec_box_parser(s) is Done ==> spec_box_parser(s + t) == spec_box_parser(s),
{
    if let Outcome::Done(n, c) = spec_mp4_box(s) {
        assert((s + t).subrange(0, 4) =~= s.subrange(0, 4));
        assert(be32_at(s + t, 0) == be32_at(s, 0));
        assert((s + t).subrange(4, 4 + c as int) =~= s.subrange(4, 4 + c as int));
    }
}

/// The bytes of the boxes `bs`, one after the other.
pub open spec fn concat(bs: Seq<Seq<u8>>) -> Seq<u8>
    decreases bs.len(),
{
    if bs.len() == 0 {
        seq![]
    } else {
        bs[0] + concat(bs.drop_first())
    }
}

/// A complete child box parses the same whatever bytes follow it.
pub proof fn moov_ignores_what_follows(s: Seq<u8>, t: Seq<u8>)
    ensures
        spec_moov(s) matches Outcome::Done(n, _) && n == s.len() ==> spec_moov(s + t) == spec_moov(s),
{
    if let Outcome::Done(n, c) = spec_mp4_box(s) {
        assert((s + t).subrange(0, 4) =~= s.subrange(0, 4));
        assert(be32_at(s + t, 0) == be32_at(s, 0));
        assert((s + t).subrange(4, 4 + c as int) =~= s.subrange(4, 4 + c as int));
    }
}

/// A `moov` content made of child boxes one after the other, each of which
/// parses whole on its own, yields every one of them in order, the last
/// included, and is consumed entirely.
#[verifier::spinoff_prover]
#[verifier::rlimit(40)]
pub proof fn moov_many_collects_every_child(bs: Seq<Seq<u8>>, os: Seq<MoovBox>)
    requires
        bs.len() == os.len(),
        forall|i: int| 0 <= i < bs.len() ==> #[trigger] spec_moov(bs[i]) == Outcome::Done(
            bs[i].len() as int,
            os[i],
        ),
    ensures
        spec_moov_many(concat(bs)) == Outcome::Done(concat(bs).len() as int, os),
    decreases bs.len(),
{
    let s = concat(bs);
    if bs.len() == 0 {
        assert(s =~= Seq::<u8>::empty());
        assert(os =~= Seq::<MoovBox>::empty());
    } else {
        let b = bs[0];
        let tail = concat(bs.drop_first());
        assert(s == b + tail);
        assert forall|i: int| 0 <= i < bs.drop_first().len() implies #[trigger] spec_moov(
            bs.drop_first()[i],
        ) == Outcome::Done(bs.drop_first()[i].len() as int, os.drop_first()[i]) by {
            assert(bs.drop_first()[i] == bs[i + 1]);
            assert(spec_moov(bs[i + 1]) == Outcome::Done(bs[i + 1].len() as int, os[i + 1]));
        }
        moov_many_collects_every_child(bs.drop_first(), os.drop_first());
        assert(spec_moov(bs[0]) == Outcome::Done(b.len() as int, os[0]));
        moov_ignores_what_follows(b, tail);
        mp4_box_frames_declared_size(b);
        assert(rest(s, b.len() as int) =~= tail);
        assert(seq![os[0]] + os.drop_first() =~= os);
    }
}

/// A `moov` box content, its tag followed by child boxes that each parse
/// whole, yields all of those children in order and is consumed entirely.
pub proof fn moov_box_collects_every_child(head: Seq<u8>, bs: Seq<Seq<u8>>, os: Seq<MoovBox>)
    requires
        head.len() == 4,
        be32_at(head, 0) == MOOV,
        bs.len() == os.len(),
        forall|i: int| 0 <= i < bs.len() ==> #[trigger] spec_moov(bs[i]) == Outcome::Done(
            bs[i].len() as int,
            os[i],
        ),
    ensures
        spec_moov_box(head + concat(bs)) == Outcome::Done(
            4 + concat(bs).len() as int,
            Mp4BoxModel::Moov(os),
        ),
{
    let s = head + concat(bs);
    moov_many_collects_every_child(bs, os);
    assert(s.subrange(0, 4) =~= head);
    assert(be32_at(s, 0) == be32_at(head, 0));
    assert(rest(s, 4) =~= concat(bs));
}

/// Byte `k` (0 the most significant) of `x` written big-endian.
pub open spec fn byte32(x: u32, k: int) -> u8 {
    if k == 0 {
        (x >> 24u32) as u8
    } else if k == 1 {
        (x >> 16u32) as u8
    } else if k == 2 {
        (x >> 8u32) as u8
    } else {
        x as u8
    }
}

/// Byte `k` of a 16-bit `x` written big-endian.
pub open spec fn byte16(x: u16, k: int) -> u8 {
    if k == 0 {
        (x >> 8u16) as u8
    } else {
        x as u8
    }
}

/// Byte `k` of a 64-bit `x` written big-endian.
pub open spec fn byte64(x: u64, k: int) -> u8 {
    if k < 4 {
        byte32((x >> 32u64) as u32, k)
    } else {
        byte32(x as u32, k - 4)
    }
}

proof fn lemma_be32_bytes(s: Seq<u8>, off: int, x: u32)
    requires
        0 <= off,
        off + 4 <= s.len(),
        s[off] == byte32(x, 0),
        s[off + 1] == byte32(x, 1),
        s[off + 2] == byte32(x, 2),
        s[off + 3] == byte32(x, 3),
    ensures
        be32_at(s, off) == x,
{
    assert((((x >> 24u32) as u8) as u64) * 16777216u64 + (((x >> 16u32) as u8) as u64) * 65536u64
        + (((x >> 8u32) as u8) as u64) * 256u64 + ((x as u8) as u64) == x as u64) by (bit_vector);
}

proof fn lemma_be16_bytes(s: Seq<u8>, off: int, x: u16)
    requires
        0 <= off,
        off + 2 <= s.len(),
        s[off] == byte16(x, 0),
        s[off + 1] == byte16(x, 1),
    ensures
        be16_at(s, off) == x,
{
    assert((((x >> 8u16) as u8) as u32) * 256u32 + ((x as u8) as u32) == x as u32) by (bit_vector);
}

proof fn lemma_be64_bytes(s: Seq<u8>, off: int, x: u64)
    requires
        0 <= off,
        off + 8 <= s.len(),
        forall|k: int| 0 <= k < 8 ==> s[off + k] == #[trigger] byte64(x, k),
    ensures
        be64_at(s, off) == x,
{
    let hi = (x >> 32u64) as u32;
    let lo = x as u32;
    assert(byte64(x, 0) == byte32(hi, 0) && byte64(x, 1) == byte32(hi, 1));
    assert(byte64(x, 2) == byte32(hi, 2) && byte64(x, 3) == byte32(hi, 3));
    assert(byte64(x, 4) == byte32(lo, 0) && byte64(x, 5) == byte32(lo, 1));
    assert(byte64(x, 6) == byte32(lo, 2) && byte64(x, 7) == byte32(lo, 3));
    lemma_be32_bytes(s, off, hi);
    lemma_be32_bytes(s, off + 4, lo);
    assert((((x >> 32u64) as u32) as u128) * 4294967296u128 + ((x as u32) as u128) == x as u128) by (bit_vector);
}

/// Byte `i` of the 100-byte movie header `h` as the ISO layout writes it:
/// each field big-endian at its own offset, ten reserved zero bytes after
/// `volume`.
pub open spec fn mvhd32_byte(h: Mvhd32, i: int) -> u8 {
    if i < 4 {
        byte32(h.version_flags, i - 0)
    } else if i < 8 {
        byte32(h.created_date, i - 4)
    } else if i < 12 {
        byte32(h.modified_date, i - 8)
    } else if i < 16 {
        byte32(h.scale, i - 12)
    } else if i < 20 {
        byte32(h.duration, i - 16)
    } else if i < 24 {
        byte32(h.speed, i - 20)
    } else if i < 26 {
        byte16(h.volume, i - 24)
    } else if i < 36 {
        0u8
    } else if i < 40 {
        byte32(h.scaleA, i - 36)
    } else if i < 44 {
        byte32(h.rotateB, i - 40)
    } else if i < 48 {
        byte32(h.angleU, i - 44)
    } else if i < 52 {
        byte32(h.rotateC, i - 48)
    } else if i < 56 {
        byte32(h.scaleD, i - 52)
    } else if i < 60 {
        byte32(h.angleV, i - 56)
    } else if i < 64 {
        byte32(h.positionX, i - 60)
    } else if i < 68 {
        byte32(h.positionY, i - 64)
    } else if i < 72 {
        byte32(h.scaleW, i - 68)
    } else if i < 80 {
        byte64(h.preview, i - 72)
    } else if i < 84 {
        byte32(h.poster, i - 80)
    } else if i < 92 {
        byte64(h.selection, i - 84)
    } else if i < 96 {
        byte32(h.current_time, i - 92)
    } else {
        byte32(h.track_id, i - 96)
    }
}

/// The movie header `h` written out in its 100-byte layout.
pub open spec fn mvhd32_bytes(h: Mvhd32) -> Seq<u8> {
    Seq::new(100, |i: int| mvhd32_byte(h, i))
}

/// A movie header written out in its 100-byte layout reads back as exactly
/// that header: every field comes from its own offset.
pub proof fn mvhd32_reads_back(h: Mvhd32)
    ensures
        spec_mvhd_box(mvhd32_bytes(h)) == Outcome::Done(100, MvhdBox::M32(h)),
{
    let s = mvhd32_bytes(h);
    lemma_be32_bytes(s, 0, h.version_flags);
    lemma_be32_bytes(s, 4, h.created_date);
    lemma_be32_bytes(s, 8, h.modified_date);
    lemma_be32_bytes(s, 12, h.scale);
    lemma_be32_bytes(s, 16, h.duration);
    lemma_be32_bytes(s, 20, h.speed);
    lemma_be16_bytes(s, 24, h.volume);
    lemma_be32_bytes(s, 36, h.scaleA);
    lemma_be32_bytes(s, 40, h.rotateB);
    lemma_be32_bytes(s, 44, h.angleU);
    lemma_be32_bytes(s, 48, h.rotateC);
    lemma_be32_bytes(s, 52, h.scaleD);
    lemma_be32_bytes(s, 56, h.angleV);
    lemma_be32_bytes(s, 60, h.positionX);
    lemma_be32_bytes(s, 64, h.positionY);
    lemma_be32_bytes(s, 68, h.scaleW);
    assert(forall|k: int| 0 <= k < 8 ==> s[72 + k] == #[trigger] byte64(h.preview, k));
    lemma_be64_bytes(s, 72, h.preview);
    lemma_be32_bytes(s, 80, h.poster);
    assert(forall|k: int| 0 <= k < 8 ==> s[84 + k] == #[trigger] byte64(h.selection, k));
    lemma_be64_bytes(s, 84, h.selection);
    lemma_be32_bytes(s, 92, h.current_time);
    lemma_be32_bytes(s, 96, h.track_id);
}

/// Byte `i` of the 112-byte movie header `h` as the ISO layout writes it:
/// each field big-endian at its own offset, ten reserved zero bytes after
/// `volume`.
pub open spec fn mvhd64_byte(h: Mvhd64, i: int) -> u8 {
    if i < 4 {
        byte32(h.version_flags, i - 0)
    } else if i < 12 {
        byte64(h.created_date, i - 4)
    } else if i < 20 {
        byte64(h.modified_date, i - 12)
    } else if i < 24 {
        byte32(h.scale, i - 20)
    } else if i < 32 {
        byte64(h.duration, i - 24)
    } else if i < 36 {
        byte32(h.speed, i - 32)
    } else if i < 38 {
        byte16(h.volume, i - 36)
    } else if i < 48 {
        0u8
    } else if i < 52 {
        byte32(h.scaleA, i - 48)
    } else if i < 56 {
        byte32(h.rotateB, i - 52)
    } else if i < 60 {
        byte32(h.angleU, i - 56)
    } else if i < 64 {
        byte32(h.rotateC, i - 60)
    } else if i < 68 {
        byte32(h.scaleD, i - 64)
    } else if i < 72 {
        byte32(h.angleV, i - 68)
    } else if i < 76 {
        byte32(h.positionX, i - 72)
    } else if i < 80 {
        byte32(h.positionY, i - 76)
    } else if i < 84 {
        byte32(h.scaleW, i - 80)
    } else if i < 92 {
        byte64(h.preview, i - 84)
    } else if i < 96 {
        byte32(h.poster, i - 92)
    } else if i < 104 {
        byte64(h.selection, i - 96)
    } else if i < 108 {
        byte32(h.current_time, i - 104)
    } else {
        byte32(h.track_id, i - 108)
    }
}

/// The movie header `h` written out in its 112-byte layout.
pub open spec fn mvhd64_bytes(h: Mvhd64) -> Seq<u8> {
    Seq::new(112, |i: int| mvhd64_byte(h, i))
}

/// A movie header written out in its 112-byte layout reads back as exactly
/// that header: every field comes from its own offset.
pub proof fn mvhd64_reads_back(h: Mvhd64)
    ensures
        spec_mvhd_box(mvhd64_bytes(h)) == Outcome::Done(112, MvhdBox::M64(h)),
{
    let s = mvhd64_bytes(h);
    lemma_be32_bytes(s, 0, h.version_flags);
    assert(forall|k: int| 0 <= k < 8 ==> s[4 + k] == #[trigger] byte64(h.created_date, k));
    lemma_be64_bytes(s, 4, h.created_date);
    assert(forall|k: int| 0 <= k < 8 ==> s[12 + k] == #[trigger] byte64(h.modified_date, k));
    lemma_be64_bytes(s, 12, h.modified_date);
    lemma_be32_bytes(s, 20, h.scale);
    assert(forall|k: int| 0 <= k < 8 ==> s[24 + k] == #[trigger] byte64(h.duration, k));
    lemma_be64_bytes(s, 24, h.duration);
    lemma_be32_bytes(s, 32, h.speed);
    lemma_be16_bytes(s, 36, h.volume);
    lemma_be32_bytes(s, 48, h.scaleA);
    lemma_be32_bytes(s, 52, h.rotateB);
    lemma_be32_bytes(s, 56, h.angleU);
    lemma_be32_bytes(s, 60, h.rotateC);
    lemma_be32_bytes(s, 64, h.scaleD);
    lemma_be32_bytes(s, 68, h.angleV);
    lemma_be32_bytes(s, 72, h.positionX);
    lemma_be32_bytes(s, 76, h.positionY);
    lemma_be32_bytes(s, 80, h.scaleW);
    assert(forall|k: int| 0 <= k < 8 ==> s[84 + k] == #[trigger] byte64(h.preview, k));
    lemma_be64_bytes(s, 84, h.preview);
    lemma_be32_bytes(s, 92, h.poster);
    assert(forall|k: int| 0 <= k < 8 ==> s[96 + k] == #[trigger] byte64(h.selection, k));
    lemma_be64_bytes(s, 96, h.selection);
    lemma_be32_bytes(s, 104, h.current_time);
    lemma_be32_bytes(s, 108, h.track_id);
}

/// Whether bytes 4 to 7 of `s` spell the box type `a b c d` in ASCII.
pub open spec fn has_type(s: Seq<u8>, a: char, b: char, c: char, d: char) -> bool {
    &&& s.len() >= 8
    &&& s[4] == a as u8 && s[5] == b as u8 && s[6] == c as u8 && s[7] == d as u8
}

/// The child of `moov` that a box type without content of interest names.
pub open spec fn moov_child_named(a: char, b: char, c: char, d: char) -> Option<MoovBox> {
    if (a, b, c, d) == ('m', 'd', 'r', 'a') {
        Some(MoovBox::Mdra)
    } else if (a, b, c, d) == ('d', 'r', 'e', 'f') {
        Some(MoovBox::Dref)
    } else if (a, b, c, d) == ('c', 'm', 'o', 'v') {
        Some(MoovBox::Cmov)
    } else if (a, b, c, d) == ('r', 'm', 'r', 'a') {
        Some(MoovBox::Rmra)
    } else if (a, b, c, d) == ('i', 'o', 'd', 's') {
        Some(MoovBox::Iods)
    } else if (a, b, c, d) == ('c', 'l', 'i', 'p') {
        Some(MoovBox::Clip)
    } else if (a, b, c, d) == ('t', 'r', 'a', 'k') {
        Some(MoovBox::Trak)
    } else if (a, b, c, d) == ('u', 'd', 't', 'a') {
        Some(MoovBox::Udta)
    } else {
        None
    }
}

proof fn lemma_box_frame(s: Seq<u8>)
    requires
        s.len() >= 8,
        be32_at(s, 0) == s.len(),
    ensures
        spec_mp4_box(s) == Outcome::Done(s.len() as int, (s.len() - 4) as usize),
        be32_at(s.subrange(4, s.len() as int), 0) == be32_at(s, 4),
        s.subrange(4, 4 + (s.len() - 4) as usize as int) == s.subrange(4, s.len() as int),
{
    let c = s.subrange(4, s.len() as int);
    assert(c[0] == s[4] && c[1] == s[5] && c[2] == s[6] && c[3] == s[7]);
}

/// A child box of `moov` whose type is one of `mdra`, `dref`, `cmov`,
/// `rmra`, `iods`, `clip`, `trak`, `udta` is read, whole, as that child,
/// whatever its payload.
pub proof fn moov_child_is_named_by_its_type(s: Seq<u8>, a: char, b: char, c: char, d: char)
    requires
        has_type(s, a, b, c, d),
        be32_at(s, 0) == s.len(),
        moov_child_named(a, b, c, d) is Some,
    ensures
        spec_moov(s) == Outcome::Done(s.len() as int, moov_child_named(a, b, c, d).unwrap()),
{
    lemma_box_frame(s);
}

/// A child box of `moov` of type `mvhd` whose content is a movie header
/// written out in one of its two layouts is read as that header.
pub proof fn moov_child_reads_movie_header(s: Seq<u8>, h32: Mvhd32, h64: Mvhd64)
    requires
        has_type(s, 'm', 'v', 'h', 'd'),
        be32_at(s, 0) == s.len(),
        s.len() == 108 ==> s.subrange(8, 108) == mvhd32_bytes(h32),
        s.len() == 120 ==> s.subrange(8, 120) == mvhd64_bytes(h64),
        s.len() == 108 || s.len() == 120,
    ensures
        s.len() == 108 ==> spec_moov(s) == Outcome::Done(108, MoovBox::Mvhd(MvhdBox::M32(h32))),
        s.len() == 120 ==> spec_moov(s) == Outcome::Done(120, MoovBox::Mvhd(MvhdBox::M64(h64))),
{
    lemma_box_frame(s);
    let c = s.subrange(4, s.len() as int);
    assert(rest(c, 4) =~= s.subrange(8, s.len() as int));
    mvhd32_reads_back(h32);
    mvhd64_reads_back(h64);
}

/// The top-level box that a type other than `ftyp` and `moov` names.
pub open spec fn top_box_named(a: char, b: char, c: char, d: char) -> Mp4BoxModel {
    if (a, b, c, d) == ('m', 'd', 'a', 't') {
        Mp4BoxModel::Mdat
    } else if (a, b, c, d) == ('f', 'r', 'e', 'e') {
        Mp4BoxModel::Free
    } else if (a, b, c, d) == ('s', 'k', 'i', 'p') {
        Mp4BoxModel::Skip
    } else if (a, b, c, d) == ('w', 'i', 'd', 'e') {
        Mp4BoxModel::Wide
    } else {
        Mp4BoxModel::Unknown
    }
}

/// A top-level box of a type other than `ftyp` and `moov` is read, whole,
/// as `mdat`, `free`, `skip`, `wide` or, for any other type, `Unknown`.
#[verifier::spinoff_prover]
#[verifier::rlimit(40)]
pub proof fn top_box_is_named_by_its_type(s: Seq<u8>, a: char, b: char, c: char, d: char)
    requires
        has_type(s, a, b, c, d),
        be32_at(s, 0) == s.len(),
        (a, b, c, d) != ('f', 't', 'y', 'p'),
        (a, b, c, d) != ('m', 'o', 'o', 'v'),
        a as u32 <= 0x7f && b as u32 <= 0x7f && c as u32 <= 0x7f && d as u32 <= 0x7f,
    ensures
        spec_box_parser(s) == Outcome::Done(s.len() as int, top_box_named(a, b, c, d)),
{
    lemma_box_frame(s);
}

/// A top-level `moov` box whose content is child boxes that each parse
/// whole is read, whole, as all of those children in order.
pub proof fn top_box_reads_every_moov_child(head: Seq<u8>, bs: Seq<Seq<u8>>, os: Seq<MoovBox>)
    requires
        head.len() == 8,
        has_type(head, 'm', 'o', 'o', 'v'),
        be32_at(head, 0) == 8 + concat(bs).len(),
        bs.len() == os.len(),
        forall|i: int| 0 <= i < bs.len() ==> #[trigger] spec_moov(bs[i]) == Outcome::Done(
            bs[i].len() as int,
            os[i],
        ),
    ensures
        spec_box_parser(head + concat(bs)) == Outcome::Done(
            8 + concat(bs).len() as int,
            Mp4BoxModel::Moov(os),
        ),
{
    let s = head + concat(bs);
    assert(s.subrange(0, 8) =~= head);
    assert(be32_at(s, 0) == be32_at(head, 0));
    lemma_box_frame(s);
    let content = s.subrange(4, s.len() as int);
    let tag = head.subrange(4, 8);
    assert(content =~= tag + concat(bs));
    assert(be32_at(tag, 0) == MOOV);
    moov_box_collects_every_child(tag, bs, os);
}

/// Whether every brand in `bs` is four bytes of valid UTF-8.
pub open spec fn valid_brands(bs: Seq<Seq<u8>>) -> bool {
    forall|i: int| 0 <= i < bs.len() ==> (#[trigger] bs[i]).len() == 4 && vstd::utf8::valid_utf8(bs[i])
}

proof fn lemma_brands(bs: Seq<Seq<u8>>)
    requires
        valid_brands(bs),
    ensures
        spec_compatible_brands(concat(bs)) == (4 * bs.len() as int, bs),
    decreases bs.len(),
{
    let s = concat(bs);
    if bs.len() == 0 {
        assert(s =~= Seq::<u8>::empty());
        assert(bs =~= Seq::<Seq<u8>>::empty());
    } else {
        let tail = bs.drop_first();
        assert(valid_brands(tail)) by {
            assert forall|i: int| 0 <= i < tail.len() implies (#[trigger] tail[i]).len() == 4
                && vstd::utf8::valid_utf8(tail[i]) by {
                assert(tail[i] == bs[i + 1]);
            }
        }
        lemma_brands(tail);
        assert(bs[0].len() == 4 && vstd::utf8::valid_utf8(bs[0]));
        assert(s == bs[0] + concat(tail));
        assert(s.subrange(0, 4) =~= bs[0]);
        assert(rest(s, 4) =~= concat(tail));
        assert(seq![s.subrange(0, 4)] + tail =~= bs);
    }
}

/// The content of an `ftyp` box after its type, written as its major brand,
/// its version and its compatible brands (each four bytes of valid UTF-8),
/// reads back as exactly those parts, every brand included, and is
/// consumed whole.
pub proof fn filetype_reads_every_brand(major: Seq<u8>, version: Seq<u8>, bs: Seq<Seq<u8>>)
    requires
        major.len() == 4,
        vstd::utf8::valid_utf8(major),
        version.len() == 4,
        valid_brands(bs),
    ensures
        spec_filetype_parser(major + version + concat(bs)) == Outcome::Done(
            8 + 4 * bs.len() as int,
            FileTypeModel { major_brand: major, major_brand_version: version, compatible_brands: bs },
        ),
{
    let s = major + version + concat(bs);
    lemma_brands(bs);
    assert(s.subrange(0, 4) =~= major);
    assert(s.subrange(4, 8) =~= version);
    assert(rest(s, 8) =~= concat(bs));
}

} // verus!
