use photo_core::identity::{content_id, image_data};

const SOI: u8 = 0xd8;
const EOI: u8 = 0xd9;
const SOS: u8 = 0xda;

fn jpeg(app_payload: &[u8], pixels: &[u8]) -> Vec<u8> {
    let mut out = vec![0xff, SOI];
    out.extend([0xff, 0xe1]);
    out.extend(((app_payload.len() + 2) as u16).to_be_bytes());
    out.extend(app_payload);
    out.extend([0xff, 0xdb]);
    out.extend(4u16.to_be_bytes());
    out.extend([0x00, 0x11]);
    out.extend([0xff, SOS]);
    out.extend(4u16.to_be_bytes());
    out.extend([0x00, 0x01]);
    out.extend(pixels);
    out.extend([0xff, EOI]);
    out
}

#[test]
fn ignores_the_metadata_segments() {
    let one = jpeg(b"Exif small", b"same pixels");
    let other = jpeg(b"Exif considerably longer with tags", b"same pixels");
    assert_ne!(one, other);
    assert_eq!(content_id(&one), content_id(&other));
}

#[test]
fn changes_with_the_pixels() {
    let one = jpeg(b"Exif", b"pixels one");
    let other = jpeg(b"Exif", b"pixels two");
    assert_ne!(content_id(&one), content_id(&other));
}

#[test]
fn ignores_what_follows_the_end_of_image() {
    let plain = jpeg(b"Exif", b"pixels");
    let mut with_appendix = plain.clone();
    with_appendix.extend(b"a multi picture appendix");
    assert_eq!(content_id(&plain), content_id(&with_appendix));
}

#[test]
fn refuses_what_is_not_a_jpeg() {
    assert_eq!(content_id(b"not an image at all"), None);
    assert_eq!(content_id(&[]), None);
    assert_eq!(content_id(&[0xff, SOI]), None);
}

#[test]
fn reads_as_hex() {
    let id = content_id(&jpeg(b"Exif", b"pixels")).unwrap();
    assert_eq!(id.len(), 32);
    assert!(id.chars().all(|c| c.is_ascii_hexdigit()));
}

#[test]
fn an_id_is_the_hash_of_the_image_data() {
    let photo = jpeg(b"Exif", b"pixels");
    let data = image_data(&photo).unwrap();
    assert!(data.len() < photo.len());
    assert_eq!(content_id(&photo), Some(format!("{:032x}", xxhash_rust::xxh3::xxh3_128(&data))));
}
