//! The `ImageBytes` format: a header of eleven 32-bit fields and the samples
//! behind it, all little-endian.
use crate::persistence::cache::CachedImage;
use crate::persistence::grid::{samples_i32, samples_u16};
use crate::persistence::pixels::CachedPixels;
use vstd::prelude::*;

verus! {

/// The code of 16-bit samples on the wire.
pub const TRANSMISSION_U16: i32 = 8;

/// The code of 32-bit samples on the wire.
pub const TRANSMISSION_I32: i32 = 2;

/// The code of the logical sample type, which is always 32 bits.
pub const IMAGE_ELEMENT_I32: i32 = 2;

/// The length of the header.
pub const IMAGEBYTES_HEADER_LEN: usize = 44;

/// The lowest `n` bytes of a number, the lowest first.
pub open spec fn le_bytes(v: nat, n: nat) -> Seq<u8>
    decreases n,
{
    if n == 0 {
        Seq::empty()
    } else {
        seq![(v % 256) as u8] + le_bytes(v / 256, (n - 1) as nat)
    }
}

/// The number that bytes stand for, the lowest first.
pub open spec fn le_value(bytes: Seq<u8>) -> nat
    decreases bytes.len(),
{
    if bytes.len() == 0 {
        0
    } else {
        bytes[0] as nat + 256 * le_value(bytes.drop_first())
    }
}

/// The two's complement of a 32-bit number.
pub open spec fn unsigned_32(v: int) -> nat {
    if v < 0 {
        (v + 0x1_0000_0000) as nat
    } else {
        v as nat
    }
}

/// The number whose two's complement is given.
pub open spec fn signed_32(v: nat) -> int {
    if v >= 0x8000_0000 {
        v - 0x1_0000_0000
    } else {
        v as int
    }
}

/// Bytes give back the number that they were made of.
pub proof fn le_round_trip(v: nat, n: nat)
    requires
        v < pow256(n),
    ensures
        le_bytes(v, n).len() == n,
        le_value(le_bytes(v, n)) == v,
    decreases n,
{
    if n > 0 {
        le_round_trip(v / 256, (n - 1) as nat);
        let bytes = le_bytes(v, n);
        assert(bytes.drop_first() =~= le_bytes(v / 256, (n - 1) as nat));
    }
}

/// How many numbers `n` bytes can tell apart.
pub open spec fn pow256(n: nat) -> nat
    decreases n,
{
    if n == 0 {
        1
    } else {
        256 * pow256((n - 1) as nat)
    }
}

proof fn lemma_le_bytes_2(v: nat)
    requires
        v < 0x1_0000,
    ensures
        le_bytes(v, 2) == seq![(v % 256) as u8, (v / 256) as u8],
{
    reveal_with_fuel(le_bytes, 3);
    assert(le_bytes(v, 2) =~= seq![(v % 256) as u8, (v / 256) as u8]);
}

proof fn lemma_le_bytes_4(v: nat)
    requires
        v < 0x1_0000_0000,
    ensures
        le_bytes(v, 4) == seq![
            (v % 256) as u8,
            (v / 0x100 % 256) as u8,
            (v / 0x1_0000 % 256) as u8,
            (v / 0x100_0000) as u8,
        ],
{
    reveal_with_fuel(le_bytes, 5);
    assert(v / 256 / 256 == v / 0x1_0000);
    assert(v / 256 / 256 / 256 == v / 0x100_0000);
    assert(v / 0x100_0000 % 256 == v / 0x100_0000);
    assert(le_bytes(v, 4) =~= seq![
        (v % 256) as u8,
        (v / 0x100 % 256) as u8,
        (v / 0x1_0000 % 256) as u8,
        (v / 0x100_0000) as u8,
    ]);
}

fn push_u32(buf: &mut Vec<u8>, v: u32)
    ensures
        final(buf)@ == old(buf)@ + le_bytes(v as nat, 4),
{
    proof {
        lemma_le_bytes_4(v as nat);
    }
    buf.push((v % 256) as u8);
    buf.push((v / 0x100 % 256) as u8);
    buf.push((v / 0x1_0000 % 256) as u8);
    buf.push((v / 0x100_0000) as u8);
    assert(buf@ =~= old(buf)@ + le_bytes(v as nat, 4));
}

fn push_i32(buf: &mut Vec<u8>, v: i32)
    ensures
        final(buf)@ == old(buf)@ + le_bytes(unsigned_32(v as int), 4),
{
    let bits: u32 = if v < 0 {
        (v as i64 + 0x1_0000_0000) as u32
    } else {
        v as u32
    };
    push_u32(buf, bits);
}

fn push_u16(buf: &mut Vec<u8>, v: u16)
    ensures
        final(buf)@ == old(buf)@ + le_bytes(v as nat, 2),
{
    proof {
        lemma_le_bytes_2(v as nat);
    }
    buf.push((v % 256) as u8);
    buf.push((v / 256) as u8);
    assert(buf@ =~= old(buf)@ + le_bytes(v as nat, 2));
}

/// The fields of the header, in order: metadata version, error number, the
/// two transaction ids, where the samples start, the logical sample type,
/// the sample type on the wire, the rank, and three dimensions.
pub open spec fn header_fields(width: u32, height: u32, transmission: i32) -> Seq<nat> {
    seq![
        1nat,
        0nat,
        0nat,
        0nat,
        IMAGEBYTES_HEADER_LEN as nat,
        unsigned_32(IMAGE_ELEMENT_I32 as int),
        unsigned_32(transmission as int),
        2nat,
        width as nat,
        height as nat,
        0nat,
    ]
}

/// The first `n` fields, four bytes each.
pub open spec fn fields_bytes(fields: Seq<nat>, n: nat) -> Seq<u8>
    decreases n,
{
    if n == 0 {
        Seq::empty()
    } else {
        fields_bytes(fields, (n - 1) as nat) + le_bytes(fields[n - 1], 4)
    }
}

/// A header and the bytes of the samples behind it.
pub fn imagebytes(
    width: u32,
    height: u32,
    transmission_element_type: i32,
    pixels: &Vec<u8>,
) -> (r: Vec<u8>)
    ensures
        r@ == fields_bytes(header_fields(width, height, transmission_element_type), 11) + pixels@,
{
    let ghost fields = header_fields(width, height, transmission_element_type);
    let mut buf: Vec<u8> = Vec::new();
    proof {
        reveal_with_fuel(fields_bytes, 12);
    }
    push_u32(&mut buf, 1);
    push_u32(&mut buf, 0);
    push_u32(&mut buf, 0);
    push_u32(&mut buf, 0);
    push_u32(&mut buf, 44);
    push_i32(&mut buf, IMAGE_ELEMENT_I32);
    push_i32(&mut buf, transmission_element_type);
    push_u32(&mut buf, 2);
    push_u32(&mut buf, width);
    push_u32(&mut buf, height);
    push_u32(&mut buf, 0);
    assert(buf@ =~= fields_bytes(fields, 11));
    buf.extend_from_slice(pixels.as_slice());
    assert(buf@ =~= fields_bytes(fields, 11) + pixels@);
    buf
}

/// The first `n` 16-bit samples, two bytes each.
pub open spec fn payload_u16(samples: Seq<u16>, n: nat) -> Seq<u8>
    decreases n,
{
    if n == 0 {
        Seq::empty()
    } else {
        payload_u16(samples, (n - 1) as nat) + le_bytes(samples[n - 1] as nat, 2)
    }
}

/// The first `n` 32-bit samples, four bytes each.
pub open spec fn payload_i32(samples: Seq<i32>, n: nat) -> Seq<u8>
    decreases n,
{
    if n == 0 {
        Seq::empty()
    } else {
        payload_i32(samples, (n - 1) as nat) + le_bytes(unsigned_32(samples[n - 1] as int), 4)
    }
}

/// What the pixels of an image are sent as.
pub open spec fn image_body_of(image: CachedImage) -> Seq<u8> {
    match image.pixels {
        CachedPixels::U16(grid) => fields_bytes(
            header_fields(image.width, image.height, TRANSMISSION_U16),
            11,
        ) + payload_u16(samples_u16(grid), samples_u16(grid).len()),
        CachedPixels::I32(grid) => fields_bytes(
            header_fields(image.width, image.height, TRANSMISSION_I32),
            11,
        ) + payload_i32(samples_i32(grid), samples_i32(grid).len()),
    }
}

/// The pixels of an image in the `ImageBytes` format, in the sample type
/// that they are stored in.
pub fn image_body(image: &CachedImage) -> (r: Vec<u8>)
    ensures
        r@ == image_body_of(*image),
{
    match &image.pixels {
        CachedPixels::U16(grid) => {
            let samples = grid.samples();
            let mut payload: Vec<u8> = Vec::new();
            let mut i: usize = 0;
            while i < samples.len()
                invariant
                    i <= samples.len(),
                    payload@ == payload_u16(samples@, i as nat),
                decreases samples.len() - i,
            {
                push_u16(&mut payload, samples[i]);
                i = i + 1;
            }
            imagebytes(image.width, image.height, TRANSMISSION_U16, &payload)
        },
        CachedPixels::I32(grid) => {
            let samples = grid.samples();
            let mut payload: Vec<u8> = Vec::new();
            let mut i: usize = 0;
            while i < samples.len()
                invariant
                    i <= samples.len(),
                    payload@ == payload_i32(samples@, i as nat),
                decreases samples.len() - i,
            {
                push_i32(&mut payload, samples[i]);
                i = i + 1;
            }
            imagebytes(image.width, image.height, TRANSMISSION_I32, &payload)
        },
    }
}

/// The header is as long as it says: every field can be read back from its
/// four bytes.
pub proof fn header_reads_back(fields: Seq<nat>, n: nat, i: int)
    requires
        0 <= i < n <= fields.len(),
        forall|k: int| 0 <= k < fields.len() ==> #[trigger] fields[k] < 0x1_0000_0000,
    ensures
        fields_bytes(fields, n).len() == 4 * n,
        le_value(fields_bytes(fields, n).subrange(4 * i, 4 * i + 4)) == fields[i],
    decreases n,
{
    lemma_fields_len(fields, n);
    lemma_fields_len(fields, (n - 1) as nat);
    let all = fields_bytes(fields, n);
    if i < n - 1 {
        header_reads_back(fields, (n - 1) as nat, i);
        assert(all.subrange(4 * i, 4 * i + 4) =~= fields_bytes(
            fields,
            (n - 1) as nat,
        ).subrange(4 * i, 4 * i + 4));
    } else {
        reveal_with_fuel(pow256, 5);
        le_round_trip(fields[i], 4);
        assert(all.subrange(4 * i, 4 * i + 4) =~= le_bytes(fields[i], 4));
    }
}

proof fn lemma_fields_len(fields: Seq<nat>, n: nat)
    requires
        n <= fields.len(),
        forall|k: int| 0 <= k < fields.len() ==> #[trigger] fields[k] < 0x1_0000_0000,
    ensures
        fields_bytes(fields, n).len() == 4 * n,
    decreases n,
{
    if n > 0 {
        lemma_fields_len(fields, (n - 1) as nat);
        reveal_with_fuel(pow256, 5);
        le_round_trip(fields[n - 1], 4);
    }
}

/// A 16-bit sample reads back from its two bytes.
pub proof fn samples_u16_read_back(samples: Seq<u16>, n: nat, i: int)
    requires
        0 <= i < n <= samples.len(),
    ensures
        payload_u16(samples, n).len() == 2 * n,
        le_value(payload_u16(samples, n).subrange(2 * i, 2 * i + 2)) == samples[i],
    decreases n,
{
    reveal_with_fuel(pow256, 3);
    lemma_payload_u16_len(samples, n);
    lemma_payload_u16_len(samples, (n - 1) as nat);
    let all = payload_u16(samples, n);
    if i < n - 1 {
        samples_u16_read_back(samples, (n - 1) as nat, i);
        assert(all.subrange(2 * i, 2 * i + 2) =~= payload_u16(
            samples,
            (n - 1) as nat,
        ).subrange(2 * i, 2 * i + 2));
    } else {
        le_round_trip(samples[i] as nat, 2);
        assert(all.subrange(2 * i, 2 * i + 2) =~= le_bytes(samples[i] as nat, 2));
    }
}

proof fn lemma_payload_u16_len(samples: Seq<u16>, n: nat)
    requires
        n <= samples.len(),
    ensures
        payload_u16(samples, n).len() == 2 * n,
    decreases n,
{
    if n > 0 {
        lemma_payload_u16_len(samples, (n - 1) as nat);
        lemma_le_bytes_2(samples[n - 1] as nat);
    }
}

/// A 32-bit sample reads back from its four bytes.
pub proof fn samples_i32_read_back(samples: Seq<i32>, n: nat, i: int)
    requires
        0 <= i < n <= samples.len(),
    ensures
        payload_i32(samples, n).len() == 4 * n,
        signed_32(le_value(payload_i32(samples, n).subrange(4 * i, 4 * i + 4))) == samples[i],
    decreases n,
{
    reveal_with_fuel(pow256, 5);
    lemma_payload_i32_len(samples, n);
    lemma_payload_i32_len(samples, (n - 1) as nat);
    let all = payload_i32(samples, n);
    if i < n - 1 {
        samples_i32_read_back(samples, (n - 1) as nat, i);
        assert(all.subrange(4 * i, 4 * i + 4) =~= payload_i32(
            samples,
            (n - 1) as nat,
        ).subrange(4 * i, 4 * i + 4));
    } else {
        le_round_trip(unsigned_32(samples[i] as int), 4);
        assert(all.subrange(4 * i, 4 * i + 4) =~= le_bytes(unsigned_32(samples[i] as int), 4));
    }
}

proof fn lemma_payload_i32_len(samples: Seq<i32>, n: nat)
    requires
        n <= samples.len(),
    ensures
        payload_i32(samples, n).len() == 4 * n,
    decreases n,
{
    if n > 0 {
        lemma_payload_i32_len(samples, (n - 1) as nat);
        lemma_le_bytes_4(unsigned_32(samples[n - 1] as int));
    }
}

/// The samples of an image start where its header says they do.
pub proof fn samples_start_behind_the_header(width: u32, height: u32, transmission: i32)
    ensures
        fields_bytes(header_fields(width, height, transmission), 11).len()
            == IMAGEBYTES_HEADER_LEN,
        header_fields(width, height, transmission)[4] == IMAGEBYTES_HEADER_LEN,
{
    lemma_fields_len(header_fields(width, height, transmission), 11);
}

/// Four bytes of a header are the number of its field, the lowest first.
proof fn lemma_field(fields: Seq<nat>, i: int)
    requires
        0 <= i < 11 == fields.len(),
        forall|k: int| 0 <= k < fields.len() ==> #[trigger] fields[k] < 0x1_0000_0000,
    ensures
        fields_bytes(fields, 11).len() == 44,
        ({
            let b = fields_bytes(fields, 11);
            b[4 * i] + 0x100 * b[4 * i + 1] + 0x1_0000 * b[4 * i + 2] + 0x100_0000 * b[4 * i + 3]
                == fields[i]
        }),
{
    header_reads_back(fields, 11, i);
    let all = fields_bytes(fields, 11);
    lemma_le_value_4(all.subrange(4 * i, 4 * i + 4));
}

/// The number that four bytes stand for.
proof fn lemma_le_value_4(b: Seq<u8>)
    requires
        b.len() == 4,
    ensures
        le_value(b) == b[0] + 0x100 * b[1] + 0x1_0000 * b[2] + 0x100_0000 * b[3],
{
    reveal_with_fuel(le_value, 5);
    assert(b.drop_first()[0] == b[1]);
    assert(b.drop_first().drop_first()[0] == b[2]);
    assert(b.drop_first().drop_first().drop_first()[0] == b[3]);
}

/// The number that two bytes stand for.
proof fn lemma_le_value_2(b: Seq<u8>)
    requires
        b.len() == 2,
    ensures
        le_value(b) == b[0] + 0x100 * b[1],
{
    reveal_with_fuel(le_value, 3);
    assert(b.drop_first()[0] == b[1]);
}

/// The body that an image is sent as says what the image is: of the eleven
/// numbers in its header, four bytes each and the lowest first, the ninth is
/// the width of the image and the tenth its height; the fifth is where the
/// samples start; the sixth is the code of a 32-bit logical type; the
/// seventh is the code of the sample type on the wire; there are two
/// dimensions; and the version is one, with no error and no transaction.
pub proof fn image_header_tells_the_image(image: CachedImage, i: int)
    requires
        0 <= i < 11,
    ensures
        ({
            let b = image_body_of(image);
            let field = b[4 * i] + 0x100 * b[4 * i + 1] + 0x1_0000 * b[4 * i + 2] + 0x100_0000
                * b[4 * i + 3];
            &&& b.len() >= 44
            &&& i == 0 ==> field == 1
            &&& 1 <= i <= 3 || i == 10 ==> field == 0
            &&& i == 4 ==> field == 44
            &&& i == 5 ==> field == 2
            &&& i == 6 && image.pixels is U16 ==> field == 8
            &&& i == 6 && image.pixels is I32 ==> field == 2
            &&& i == 7 ==> field == 2
            &&& i == 8 ==> field == image.width
            &&& i == 9 ==> field == image.height
        }),
{
    let transmission = match image.pixels {
        CachedPixels::U16(_) => TRANSMISSION_U16,
        CachedPixels::I32(_) => TRANSMISSION_I32,
    };
    let fields = header_fields(image.width, image.height, transmission);
    lemma_field(fields, i);
    let head = fields_bytes(fields, 11);
    let b = image_body_of(image);
    assert(forall|k: int| 0 <= k < 44 ==> b[k] == head[k]);
}

/// Behind the header the body has the samples of the image, all of them and
/// nothing else, in their order and the lowest byte of each first: two bytes
/// for a sample of 16 bits, four in two's complement for one of 32.
pub proof fn image_body_tells_the_samples(image: CachedImage, i: int)
    requires
        0 <= i < image.pixels.values().len(),
    ensures
        ({
            let b = image_body_of(image);
            let values = image.pixels.values();
            &&& image.pixels is U16 ==> {
                &&& b.len() == 44 + 2 * values.len()
                &&& b[44 + 2 * i] + 0x100 * b[45 + 2 * i] == values[i]
            }
            &&& image.pixels is I32 ==> {
                let number = b[44 + 4 * i] + 0x100 * b[45 + 4 * i] + 0x1_0000 * b[46 + 4 * i]
                    + 0x100_0000 * b[47 + 4 * i];
                &&& b.len() == 44 + 4 * values.len()
                &&& values[i] >= 0 ==> number == values[i]
                &&& values[i] < 0 ==> number == values[i] + 0x1_0000_0000
            }
        }),
{
    let b = image_body_of(image);
    match image.pixels {
        CachedPixels::U16(grid) => {
            let samples = samples_u16(grid);
            let head = fields_bytes(
                header_fields(image.width, image.height, TRANSMISSION_U16),
                11,
            );
            lemma_field(header_fields(image.width, image.height, TRANSMISSION_U16), 0);
            let tail = payload_u16(samples, samples.len());
            samples_u16_read_back(samples, samples.len(), i);
            lemma_le_value_2(tail.subrange(2 * i, 2 * i + 2));
            assert(b == head + tail);
            assert(b[44 + 2 * i] == tail[2 * i] && b[45 + 2 * i] == tail[2 * i + 1]);
        },
        CachedPixels::I32(grid) => {
            let samples = samples_i32(grid);
            let head = fields_bytes(
                header_fields(image.width, image.height, TRANSMISSION_I32),
                11,
            );
            lemma_field(header_fields(image.width, image.height, TRANSMISSION_I32), 0);
            let tail = payload_i32(samples, samples.len());
            samples_i32_read_back(samples, samples.len(), i);
            let four = tail.subrange(4 * i, 4 * i + 4);
            lemma_le_value_4(four);
            assert(b == head + tail);
            assert(b[44 + 4 * i] == tail[4 * i] && b[45 + 4 * i] == tail[4 * i + 1]);
            assert(b[46 + 4 * i] == tail[4 * i + 2] && b[47 + 4 * i] == tail[4 * i + 3]);
        },
    }
}

/// A header tells the width first and then the height, behind the sample
/// type on the wire and the rank, and its numbers are written with their
/// lowest byte first.
pub proof fn headers_tell_what_they_are_given(width: u32, height: u32, transmission: i32, v: nat)
    requires
        0 <= transmission,
        v < 0x1_0000_0000,
    ensures
        ({
            let fields = header_fields(width, height, transmission);
            &&& fields.len() == 11
            &&& fields[0] == 1 && fields[1] == 0 && fields[2] == 0 && fields[3] == 0
            &&& fields[4] == 44 && fields[5] == 2 && fields[6] == transmission && fields[7] == 2
            &&& fields[8] == width && fields[9] == height && fields[10] == 0
        }),
        ({
            let b = le_bytes(v, 4);
            b.len() == 4 && b[0] + 0x100 * b[1] + 0x1_0000 * b[2] + 0x100_0000 * b[3] == v
        }),
        v < 0x1_0000 ==> {
            let b = le_bytes(v, 2);
            b.len() == 2 && b[0] + 0x100 * b[1] == v
        },
{
    reveal_with_fuel(pow256, 5);
    le_round_trip(v, 4);
    lemma_le_value_4(le_bytes(v, 4));
    if v < 0x1_0000 {
        le_round_trip(v, 2);
        lemma_le_value_2(le_bytes(v, 2));
    }
}

} // verus!
