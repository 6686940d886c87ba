//! An id for the image itself: xxh3-128 over the JPEG data without the metadata segments, so
//! it survives a metadata write, a rename and a move, and changes when the pixels do.

use vstd::prelude::*;

verus! {

const SOI: u8 = 0xd8;

const EOI: u8 = 0xd9;

const SOS: u8 = 0xda;

const COMMENT: u8 = 0xfe;

// ---- What the bytes say ------------------------------------------------------------------------

/// Whether a segment with this marker holds metadata.
pub open spec fn is_metadata(marker: u8) -> bool {
    0xe0 <= marker <= 0xef || marker == 0xfe
}

/// Whether a marker stands alone, with no segment behind it.
pub open spec fn stands_alone(marker: u8) -> bool {
    0xd0 <= marker <= 0xd8 || marker == 0x01
}

/// How long a segment says it is, the two bytes that say so counted.
pub open spec fn told_length(bytes: Seq<u8>, at: int) -> int {
    bytes[at + 2] * 256 + bytes[at + 3]
}

/// Where the next segment begins: the place after a filling byte, a marker that stands alone or a
/// whole segment. There is none where the image begins or ends, nor in what is no JPEG.
pub open spec fn next_segment(bytes: Seq<u8>, at: int) -> Option<int> {
    if at + 1 >= bytes.len() || bytes[at] != 0xff {
        None
    } else if bytes[at + 1] == 0xff {
        Some(at + 1)
    } else if bytes[at + 1] == 0xda || bytes[at + 1] == 0xd9 {
        None
    } else if stands_alone(bytes[at + 1]) {
        Some(at + 2)
    } else if at + 3 < bytes.len() && told_length(bytes, at) >= 2 && at + 2 + told_length(bytes, at)
        <= bytes.len() {
        Some(at + 2 + told_length(bytes, at))
    } else {
        None
    }
}

/// What is kept of the step to the next segment: the segment, unless it is metadata.
pub open spec fn kept_step(bytes: Seq<u8>, at: int, next: int) -> Seq<u8> {
    if bytes[at + 1] == 0xff || stands_alone(bytes[at + 1]) || is_metadata(bytes[at + 1]) {
        Seq::empty()
    } else {
        bytes.subrange(at, next)
    }
}

/// Where the last end of image among the places from `from` ends, or where the bytes do.
pub open spec fn image_end(bytes: Seq<u8>, from: int, before: int) -> int
    decreases before - from,
{
    if before <= from {
        bytes.len() as int
    } else if before < bytes.len() && bytes[before - 1] == 0xff && bytes[before] == 0xd9 {
        before + 1
    } else {
        image_end(bytes, from, before - 1)
    }
}

/// Everything from a segment on but the metadata: the segments up to the image, and the image up
/// to the last end of one.
pub open spec fn image_from(bytes: Seq<u8>, at: int) -> Option<Seq<u8>>
    decreases bytes.len() - at,
{
    if at < 0 || at + 1 >= bytes.len() || bytes[at] != 0xff {
        None
    } else if bytes[at + 1] == 0xda {
        Some(bytes.subrange(at, image_end(bytes, at, bytes.len() as int)))
    } else if bytes[at + 1] == 0xd9 {
        Some(Seq::empty())
    } else {
        match next_segment(bytes, at) {
            Some(next) => match image_from(bytes, next) {
                Some(rest) => Some(kept_step(bytes, at, next) + rest),
                None => None,
            },
            None => None,
        }
    }
}

/// The image data of a JPEG: everything but the metadata. What is no JPEG has none.
pub open spec fn image_of(bytes: Seq<u8>) -> Option<Seq<u8>> {
    if bytes.len() < 4 || bytes[0] != 0xff || bytes[1] != 0xd8 {
        None
    } else {
        image_from(bytes, 2)
    }
}

/// A number as hexadecimal digits, as many as are asked for.
pub open spec fn hex(n: nat, digits: nat) -> Seq<char>
    decreases digits,
{
    if digits == 0 {
        Seq::empty()
    } else {
        hex(n / 16, (digits - 1) as nat).push(hex_digit(n % 16))
    }
}

pub open spec fn hex_digit(n: nat) -> char {
    "0123456789abcdef"@[n as int]
}

/// The id of a photo's image.
pub open spec fn id_of(bytes: Seq<u8>) -> Option<Seq<char>> {
    match image_of(bytes) {
        Some(image) => Some(hex(xxh3_digest(image) as nat, 32)),
        None => None,
    }
}

// ---- Reading them ------------------------------------------------------------------------------

fn last_end_of_image(bytes: &[u8], from: usize) -> (end: usize)
    requires
        from <= bytes@.len(),
    ensures
        end == image_end(bytes@, from as int, bytes@.len() as int),
        from <= end <= bytes@.len(),
{
    let mut before: usize = bytes.len();
    while before > from
        invariant
            from <= before <= bytes@.len(),
            image_end(bytes@, from as int, bytes@.len() as int) == image_end(
                bytes@,
                from as int,
                before as int,
            ),
        decreases before,
    {
        if before < bytes.len() && bytes[before - 1] == 0xff && bytes[before] == EOI {
            return before + 1;
        }
        before -= 1;
    }
    bytes.len()
}

fn push_range(list: &mut Vec<u8>, bytes: &[u8], from: usize, to: usize)
    requires
        from <= to <= bytes@.len(),
    ensures
        final(list)@ == old(list)@ + bytes@.subrange(from as int, to as int),
{
    let ghost before = list@;
    assert(list@ =~= before + bytes@.subrange(from as int, from as int));
    for i in from..to
        invariant
            from <= to <= bytes@.len(),
            list@ == before + bytes@.subrange(from as int, i as int),
    {
        list.push(bytes[i]);
        assert(bytes@.subrange(from as int, i + 1) =~= bytes@.subrange(from as int, i as int).push(
            bytes@[i as int],
        ));
    }
}

/// Everything but the metadata: APPn and comment segments are skipped, the rest of the file
/// from the first real segment to the end of image is kept.
pub fn image_data(bytes: &[u8]) -> (image: Option<Vec<u8>>)
    ensures
        match image {
            Some(image) => image_of(bytes@) == Some(image@),
            None => image_of(bytes@) is None,
        },
{
    if bytes.len() < 4 || bytes[0] != 0xff || bytes[1] != SOI {
        return None;
    }
    let mut image: Vec<u8> = Vec::new();
    let mut at: usize = 2;
    loop
        invariant
            2 <= at <= bytes@.len(),
            image_of(bytes@) == (match image_from(bytes@, at as int) {
                Some(rest) => Some(image@ + rest),
                None => None,
            }),
        decreases bytes@.len() - at,
    {
        if bytes.len() - at < 2 || bytes[at] != 0xff {
            return None;
        }
        let marker: u8 = bytes[at + 1];
        if marker == SOS {
            let end: usize = last_end_of_image(bytes, at);
            push_range(&mut image, bytes, at, end);
            return Some(image);
        }
        if marker == EOI {
            assert(image@ + Seq::<u8>::empty() =~= image@);
            return Some(image);
        }
        let ghost before = image@;
        let ghost here = at as int;
        if marker == 0xff {
            at += 1;
        } else if (0xd0 <= marker && marker <= 0xd8) || marker == 0x01 {
            at += 2;
        } else {
            if bytes.len() - at < 4 {
                return None;
            }
            let length: usize = bytes[at + 2] as usize * 256 + bytes[at + 3] as usize;
            if length < 2 || length > bytes.len() - at - 2 {
                return None;
            }
            let next: usize = at + 2 + length;
            if !((0xe0 <= marker && marker <= 0xef) || marker == COMMENT) {
                push_range(&mut image, bytes, at, next);
            }
            at = next;
        }
        proof {
            assert(next_segment(bytes@, here) == Some(at as int));
            assert(image@ =~= before + kept_step(bytes@, here, at as int));
            if let Some(rest) = image_from(bytes@, at as int) {
                assert(image@ + rest =~= before + (kept_step(bytes@, here, at as int) + rest));
            }
        }
    }
}

/// What xxh3-128 makes of bytes.
pub uninterp spec fn xxh3_digest(bytes: Seq<u8>) -> u128;

/// `xxhash_rust::xxh3::Xxh3`: the 128-bit digest of bytes, through `new`, one `update` and
/// `digest128`. Which number it is is not stated.
#[verifier::external_body]
fn xxh3(bytes: &[u8]) -> (digest: u128)
    ensures
        digest == xxh3_digest(bytes@),
{
    let mut hasher = xxhash_rust::xxh3::Xxh3::new();
    hasher.update(bytes);
    hasher.digest128()
}

fn hex_of(n: u128) -> (text: String)
    ensures
        text@ == hex(n as nat, 32),
{
    proof {
        reveal_strlit("0123456789abcdef");
    }
    let digits: [char; 16] = [
        '0',
        '1',
        '2',
        '3',
        '4',
        '5',
        '6',
        '7',
        '8',
        '9',
        'a',
        'b',
        'c',
        'd',
        'e',
        'f',
    ];
    assert("0123456789abcdef"@ =~= digits@);
    let mut back: Vec<char> = Vec::new();
    let mut left: u128 = n;
    let ghost whole = hex(n as nat, 32);
    assert(back@.reverse() =~= Seq::empty());
    assert(whole + Seq::<char>::empty() =~= whole);
    for i in 0..32usize
        invariant
            back@.len() == i,
            "0123456789abcdef"@ == digits@,
            whole == hex(left as nat, (32 - i) as nat) + back@.reverse(),
    {
        let ghost before = back@;
        let ghost rest = left as nat;
        let digit: char = digits[(left % 16) as usize];
        back.push(digit);
        left = left / 16;
        proof {
            let last = hex_digit(rest % 16);
            assert(digit == last);
            assert(back@.reverse() =~= seq![last] + before.reverse());
            assert(hex(rest, (32 - i) as nat) == hex(rest / 16, (32 - i - 1) as nat).push(last));
            assert(hex(rest / 16, (32 - i - 1) as nat).push(last) + before.reverse() =~= hex(
                rest / 16,
                (32 - i - 1) as nat,
            ) + back@.reverse());
        }
    }
    let mut text = String::new();
    assert(whole =~= back@.reverse());
    for i in 0..32usize
        invariant
            back@.len() == 32,
            text@ == back@.reverse().take(i as int),
    {
        text.push(back[31 - i]);
        assert(back@.reverse().take(i + 1) =~= back@.reverse().take(i as int).push(
            back@.reverse()[i as int],
        ));
    }
    assert(back@.reverse().take(32) =~= back@.reverse());
    text
}

pub fn content_id(bytes: &[u8]) -> (id: Option<String>)
    ensures
        crate::text::view_opt(id) == id_of(bytes@),
{
    match image_data(bytes) {
        Some(image) => Some(hex_of(xxh3(&image))),
        None => None,
    }
}

// ---- What the id rests on ----------------------------------------------------------------------

/// Whether whole segments lead from one place to another; filling bytes belong to the segment
/// they stand before.
pub open spec fn segments_lead(bytes: Seq<u8>, from: int, to: int) -> bool
    decreases to - from,
{
    from == to || (0 <= from < to && match next_segment(bytes, from) {
        Some(next) => from + 1 < to && from < next <= to && segments_lead(bytes, next, to),
        None => false,
    })
}

/// What is kept of the segments from one place to another.
pub open spec fn kept_segments(bytes: Seq<u8>, from: int, to: int) -> Seq<u8>
    decreases to - from,
{
    if from >= to {
        Seq::empty()
    } else {
        match next_segment(bytes, from) {
            Some(next) => if from < next <= to {
                kept_step(bytes, from, next) + kept_segments(bytes, next, to)
            } else {
                Seq::empty()
            },
            None => Seq::empty(),
        }
    }
}

/// A whole metadata segment.
pub open spec fn metadata_segment(segment: Seq<u8>) -> bool {
    &&& segment.len() >= 4
    &&& segment[0] == 0xff
    &&& is_metadata(segment[1])
    &&& segment[2] * 256 + segment[3] + 2 == segment.len()
}

proof fn lemma_segments(bytes: Seq<u8>, from: int, to: int)
    requires
        segments_lead(bytes, from, to),
        0 <= from,
    ensures
        image_from(bytes, from) == (match image_from(bytes, to) {
            Some(rest) => Some(kept_segments(bytes, from, to) + rest),
            None => None,
        }),
    decreases to - from,
{
    if from == to {
        if let Some(rest) = image_from(bytes, to) {
            assert(Seq::<u8>::empty() + rest =~= rest);
        }
    } else {
        let next = next_segment(bytes, from)->0;
        lemma_segments(bytes, next, to);
        if let Some(rest) = image_from(bytes, to) {
            assert(kept_step(bytes, from, next) + (kept_segments(bytes, next, to) + rest) =~= (
            kept_step(bytes, from, next) + kept_segments(bytes, next, to)) + rest);
        }
    }
}

/// The segments of a start are read the same whatever follows it.
proof fn lemma_same_start(one: Seq<u8>, other: Seq<u8>, from: int, to: int)
    requires
        0 <= from <= to <= one.len(),
        to <= other.len(),
        one.take(to) == other.take(to),
        segments_lead(one, from, to),
    ensures
        segments_lead(other, from, to),
        kept_segments(one, from, to) == kept_segments(other, from, to),
    decreases to - from,
{
    if from < to {
        let next = next_segment(one, from)->0;
        assert forall|i: int| 0 <= i < to implies one[i] == other[i] by {
            assert(one.take(to)[i] == one[i]);
            assert(other.take(to)[i] == other[i]);
        }
        assert(next_segment(other, from) == Some(next));
        assert(kept_step(one, from, next) =~= kept_step(other, from, next));
        lemma_same_start(one, other, next, to);
    }
}

proof fn lemma_same_end(one: Seq<u8>, i: int, other: Seq<u8>, j: int, ahead: int)
    requires
        0 <= i <= one.len(),
        0 <= j <= other.len(),
        one.skip(i) == other.skip(j),
        0 <= ahead <= one.len() - i,
    ensures
        one.len() - i == other.len() - j,
        image_end(one, i, i + ahead) - i == image_end(other, j, j + ahead) - j,
        i <= image_end(one, i, i + ahead) <= one.len(),
    decreases ahead,
{
    assert(one.skip(i).len() == one.len() - i);
    assert(other.skip(j).len() == other.len() - j);
    if ahead > 0 {
        lemma_same_end(one, i, other, j, ahead - 1);
        assert(one.skip(i)[ahead - 1] == one[i + ahead - 1]);
        assert(other.skip(j)[ahead - 1] == other[j + ahead - 1]);
        if i + ahead < one.len() {
            assert(one.skip(i)[ahead] == one[i + ahead]);
            assert(other.skip(j)[ahead] == other[j + ahead]);
        }
    }
}

/// What is read from a place on is told by what stands there.
proof fn lemma_same_rest(one: Seq<u8>, i: int, other: Seq<u8>, j: int)
    requires
        0 <= i <= one.len(),
        0 <= j <= other.len(),
        one.skip(i) == other.skip(j),
    ensures
        image_from(one, i) == image_from(other, j),
    decreases one.len() - i,
{
    lemma_same_end(one, i, other, j, one.len() - i);
    assert forall|k: int| 0 <= k < one.len() - i implies #[trigger] one[i + k] == other[j + k] by {
        assert(one.skip(i)[k] == one[i + k]);
        assert(other.skip(j)[k] == other[j + k]);
    }
    if i + 1 < one.len() {
        assert(one[i + 0] == other[j + 0]);
        assert(one[i + 1] == other[j + 1]);
        if i + 3 < one.len() {
            assert(one[i + 2] == other[j + 2]);
            assert(one[i + 3] == other[j + 3]);
        }
        let end = image_end(one, i, one.len() as int);
        assert(one.subrange(i, end) =~= one.skip(i).take(end - i));
        assert(other.subrange(j, j + (end - i)) =~= other.skip(j).take(end - i));
        if let Some(next) = next_segment(one, i) {
            let step = next - i;
            assert(next_segment(other, j) == Some(j + step));
            assert(one.skip(next) =~= one.skip(i).skip(step));
            assert(other.skip(j + step) =~= other.skip(j).skip(step));
            lemma_same_rest(one, next, other, j + step);
            assert(one.subrange(i, next) =~= one.skip(i).take(step));
            assert(other.subrange(j, j + step) =~= other.skip(j).take(step));
        }
    }
}

/// A metadata segment written into a photo, or taken out of it, leaves its id alone: it may
/// stand wherever a segment may.
pub proof fn metadata_moves_no_id(head: Seq<u8>, segment: Seq<u8>, tail: Seq<u8>)
    requires
        head.len() >= 2,
        head[0] == 0xff,
        head[1] == 0xd8,
        segments_lead(head, 2, head.len() as int),
        metadata_segment(segment),
    ensures
        image_of(head + segment + tail) == image_of(head + tail),
        id_of(head + segment + tail) == id_of(head + tail),
{
    let with = head + segment + tail;
    let without = head + tail;
    let at = head.len() as int;
    let next = at + segment.len();
    assert(with.take(at) =~= head.take(at));
    assert(without.take(at) =~= head.take(at));
    lemma_same_start(head, with, 2, at);
    lemma_same_start(head, without, 2, at);
    lemma_segments(with, 2, at);
    lemma_segments(without, 2, at);
    assert(with[at] == segment[0]);
    assert(with[at + 1] == segment[1]);
    assert(with[at + 2] == segment[2]);
    assert(with[at + 3] == segment[3]);
    assert(next_segment(with, at) == Some(next));
    assert(with.skip(next) =~= tail);
    assert(without.skip(at) =~= tail);
    lemma_same_rest(with, next, without, at);
    if let Some(rest) = image_from(with, next) {
        assert(Seq::<u8>::empty() + rest =~= rest);
    }
    if without.len() < 4 {
        assert(image_from(without, 2) is None) by {
            if at > 2 {
                let step = next_segment(head, 2)->0;
                assert(false);
            }
        }
    }
}

proof fn lemma_no_later_end(bytes: Seq<u8>, extra: Seq<u8>, from: int, before: int)
    requires
        0 <= from,
        from + 2 <= bytes.len() <= before <= bytes.len() + extra.len(),
        bytes[bytes.len() - 2] == 0xff,
        bytes[bytes.len() - 1] == 0xd9,
        forall|i: int|
            0 <= i < extra.len() - 1 ==> !(#[trigger] extra[i] == 0xff && extra[i + 1] == 0xd9),
    ensures
        image_end(bytes + extra, from, before) == bytes.len(),
    decreases before,
{
    let all = bytes + extra;
    if before == bytes.len() {
        assert(all[before - 1] == 0xd9);
        reveal_with_fuel(image_end, 2);
        assert(all[before - 2] == 0xff);
    } else {
        if before < all.len() {
            assert(all[before] == extra[before - bytes.len()]);
            if before - 1 >= bytes.len() {
                assert(all[before - 1] == extra[before - 1 - bytes.len()]);
            } else {
                assert(all[before - 1] == bytes[before - 1]);
            }
        }
        lemma_no_later_end(bytes, extra, from, before - 1);
    }
}

/// What follows the end of the image leaves the id alone, a further end of image in it aside.
pub proof fn what_follows_the_image_moves_no_id(bytes: Seq<u8>, at: int, extra: Seq<u8>)
    requires
        2 <= at,
        at + 4 <= bytes.len(),
        bytes[0] == 0xff,
        bytes[1] == 0xd8,
        segments_lead(bytes, 2, at),
        bytes[at] == 0xff,
        bytes[at + 1] == 0xda,
        bytes[bytes.len() - 2] == 0xff,
        bytes[bytes.len() - 1] == 0xd9,
        forall|i: int|
            0 <= i < extra.len() - 1 ==> !(#[trigger] extra[i] == 0xff && extra[i + 1] == 0xd9),
    ensures
        image_of(bytes + extra) == image_of(bytes),
        id_of(bytes + extra) == id_of(bytes),
{
    let all = bytes + extra;
    assert(all.take(at) =~= bytes.take(at));
    lemma_same_start(bytes, all, 2, at);
    lemma_segments(bytes, 2, at);
    lemma_segments(all, 2, at);
    lemma_no_later_end(bytes, extra, at, all.len() as int);
    lemma_no_later_end(bytes, Seq::empty(), at, bytes.len() as int);
    assert(bytes + Seq::<u8>::empty() =~= bytes);
    assert(all.subrange(at, bytes.len() as int) =~= bytes.subrange(at, bytes.len() as int));
}

/// The image of a photo is what is kept of its segments and everything from the start of its scan
/// to the end of the image: every byte of the scan is in it.
pub proof fn every_byte_of_the_scan_is_kept(bytes: Seq<u8>, at: int)
    requires
        2 <= at,
        at + 4 <= bytes.len(),
        bytes[0] == 0xff,
        bytes[1] == 0xd8,
        segments_lead(bytes, 2, at),
        bytes[at] == 0xff,
        bytes[at + 1] == 0xda,
        bytes[bytes.len() - 2] == 0xff,
        bytes[bytes.len() - 1] == 0xd9,
    ensures
        image_of(bytes) matches Some(image) && image.len() >= bytes.len() - at && image.skip(
            image.len() - (bytes.len() - at),
        ) == bytes.skip(at),
{
    lemma_segments(bytes, 2, at);
    lemma_no_later_end(bytes, Seq::empty(), at, bytes.len() as int);
    assert(bytes + Seq::<u8>::empty() =~= bytes);
    let image = image_of(bytes)->0;
    assert(image.skip(image.len() - (bytes.len() - at)) =~= bytes.skip(at));
}

/// A segment that is no metadata is kept whole: a photo whose tables differ has another image.
pub proof fn a_segment_of_the_image_is_kept(bytes: Seq<u8>, at: int)
    requires
        0 <= at,
        at + 3 < bytes.len(),
        bytes[at] == 0xff,
        bytes[at + 1] != 0xff,
        bytes[at + 1] != 0xda,
        bytes[at + 1] != 0xd9,
        !(0xd0 <= bytes[at + 1] <= 0xd8) && bytes[at + 1] != 0x01,
        bytes[at + 2] * 256 + bytes[at + 3] >= 2,
        at + 2 + bytes[at + 2] * 256 + bytes[at + 3] <= bytes.len(),
    ensures
        ({
            let next = at + 2 + bytes[at + 2] * 256 + bytes[at + 3];
            &&& image_from(bytes, at) is Some <==> image_from(bytes, next) is Some
            &&& image_from(bytes, at) matches Some(image) ==> image == if 0xe0 <= bytes[at + 1]
                <= 0xef || bytes[at + 1] == 0xfe {
                image_from(bytes, next)->0
            } else {
                bytes.subrange(at, next) + image_from(bytes, next)->0
            }
        }),
{
    let next = at + 2 + bytes[at + 2] * 256 + bytes[at + 3];
    assert(next_segment(bytes, at) == Some(next));
    if image_from(bytes, next) is Some {
        let rest = image_from(bytes, next)->0;
        assert(Seq::<u8>::empty() + rest =~= rest);
    }
}

proof fn lemma_hex_digits(a: nat, b: nat)
    requires
        a < 16,
        b < 16,
        hex_digit(a) == hex_digit(b),
    ensures
        a == b,
{
    reveal_strlit("0123456789abcdef");
    let digits = "0123456789abcdef"@;
    assert forall|i: int, j: int| 0 <= i < j < 16 implies digits[i] != digits[j] by {
        assert(digits[i] as u32 == if i < 10 {
            48 + i
        } else {
            87 + i
        });
        assert(digits[j] as u32 == if j < 10 {
            48 + j
        } else {
            87 + j
        });
    }
}

/// An id has as many digits as are asked for, and two numbers that fit in them have the same
/// digits only where they are the same.
pub proof fn different_numbers_have_different_digits(n: nat, m: nat, digits: nat)
    ensures
        hex(n, digits).len() == digits,
        hex(n, digits) == hex(m, digits) && n < vstd::arithmetic::power::pow(16, digits) && m
            < vstd::arithmetic::power::pow(16, digits) ==> n == m,
    decreases digits,
{
    vstd::arithmetic::power::lemma_pow0(16);
    if digits > 0 {
        let less = (digits - 1) as nat;
        different_numbers_have_different_digits(n / 16, m / 16, less);
        vstd::arithmetic::power::lemma_pow_adds(16, 1, less);
        vstd::arithmetic::power::lemma_pow1(16);
        let all = vstd::arithmetic::power::pow(16, digits);
        let part = vstd::arithmetic::power::pow(16, less);
        assert(all == 16 * part);
        if hex(n, digits) == hex(m, digits) && n < all && m < all {
            assert(hex(n, digits).drop_last() =~= hex(n / 16, less));
            assert(hex(m, digits).drop_last() =~= hex(m / 16, less));
            assert(hex(n, digits).last() == hex_digit(n % 16));
            assert(hex(m, digits).last() == hex_digit(m % 16));
            lemma_hex_digits(n % 16, m % 16);
            assert(n / 16 < part && m / 16 < part);
            assert(n == n / 16 * 16 + n % 16);
            assert(m == m / 16 * 16 + m % 16);
        }
    }
}

/// The image ends behind the last end marker, and with the file where there is none.
pub proof fn an_image_ends_behind_its_last_end_marker(bytes: Seq<u8>, from: int, before: int)
    requires
        0 <= from,
        before <= bytes.len(),
    ensures
        ({
            let end = image_end(bytes, from, before);
            let marked = exists|i: int|
                from < i <= before && i < bytes.len() && bytes[i - 1] == 0xff && #[trigger] bytes[i]
                    == 0xd9;
            &&& !marked ==> end == bytes.len()
            &&& marked ==> from + 2 <= end <= bytes.len() && bytes[end - 2] == 0xff && bytes[end
                - 1] == 0xd9 && forall|i: int|
                end <= i <= before && i < bytes.len() ==> !(bytes[i - 1] == 0xff
                    && #[trigger] bytes[i] == 0xd9)
        }),
    decreases before - from,
{
    if from < before {
        if before < bytes.len() && bytes[before - 1] == 0xff && bytes[before] == 0xd9 {
            assert(bytes[before] == 0xd9);
        } else {
            an_image_ends_behind_its_last_end_marker(bytes, from, before - 1);
        }
    }
}

} // verus!
