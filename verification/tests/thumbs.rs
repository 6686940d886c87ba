use photo_core::thumbs::{
    either, encoded, finish, lenient, longest_side, scale_for, turn, upright, Decoded, Deed, Error, Size, Thumbs,
};

#[test]
fn a_turn_moves_the_pixels_it_should() {
    // A 2x1 picture: red, then green.
    let pixels = vec![255, 0, 0, 0, 255, 0];
    let (upright, width, height) = turn(pixels.clone(), 2, 1, 1);
    assert_eq!((upright, width, height), (pixels.clone(), 2, 1));

    let (mirrored, ..) = turn(pixels.clone(), 2, 1, 2);
    assert_eq!(mirrored, vec![0, 255, 0, 255, 0, 0]);

    // Rotated 90 degrees clockwise the red pixel sits at the top.
    let (rotated, width, height) = turn(pixels, 2, 1, 6);
    assert_eq!((width, height), (1, 2));
    assert_eq!(rotated, vec![255, 0, 0, 0, 255, 0]);
}

#[test]
fn a_picture_turned_back_is_the_picture_it_was() {
    let picture: Vec<u8> = (0..2 * 3 * 3).collect();
    for (there, back) in [(1, 1), (2, 2), (3, 3), (4, 4), (5, 5), (6, 8), (7, 7), (8, 6)] {
        let (turned, width, height) = turn(picture.clone(), 2, 3, there);
        assert_eq!((width, height), if there >= 5 { (3, 2) } else { (2, 3) });
        assert_eq!(turn(turned, width, height, back), (picture.clone(), 2, 3), "orientation {there}");
    }
}

#[test]
fn a_path_is_only_built_from_a_content_id() {
    let thumbs = Thumbs::new("/tmp/thumbs".to_string());
    for wrong in ["../../escape", "/etc/passwd", "", "zz"] {
        assert!(matches!(thumbs.path(wrong, Size::Small), Err(Error::NotAnId(_))));
        assert!(thumbs.store(wrong, Size::Small, |_: &str| false).is_err());
        assert!(thumbs.forget(wrong).is_err());
        assert!(!thumbs.has(wrong, Size::Small, |_: &str| true));
    }
    let id = "0123456789abcdef0123456789abcdef";
    assert_eq!(
        thumbs.path(id, Size::Small).unwrap(),
        format!("/tmp/thumbs/{}/01/{id}.webp", Size::Small.as_str())
    );
}

#[test]
fn a_second_call_does_not_encode_again() {
    let thumbs = Thumbs::new("/tmp/thumbs".to_string());
    let id = "abcdef0123456789abcdef0123456789";
    let mut files: Vec<(String, Vec<u8>)> = Vec::new();
    let store = |files: &[(String, Vec<u8>)], made: Result<Vec<u8>, Error>| {
        let target = thumbs.store(id, Size::Small, |path: &str| files.iter().any(|(file, _)| file == path));
        Thumbs::deed(target, || made.clone())
    };
    let failed = Error::Unusable("rubbish".to_string());
    assert_eq!(store(&files, Err(failed.clone())), Deed::Fail(failed.clone()), "nothing is left behind");

    let Deed::Write { path, bytes } = store(&files, Ok(vec![1, 2, 3])) else { panic!("it is not there") };
    assert_eq!((path.clone(), bytes.clone()), (thumbs.path(id, Size::Small).unwrap(), vec![1, 2, 3]));
    files.push((path, bytes));
    assert_eq!(store(&files, Ok(vec![4])), Deed::Nothing);
    assert_eq!(store(&files, Err(failed)), Deed::Nothing, "whatever would be made of it");

    let target = thumbs.store("zz", Size::Small, |_: &str| false);
    let wrong = Thumbs::deed(target, || panic!("nothing is made"));
    assert_eq!(wrong, Deed::Fail(Error::NotAnId("zz".to_string())));
    assert_ne!(thumbs.path(id, Size::Small), thumbs.path(id, Size::Large));
}

#[test]
fn a_picture_that_is_there_is_not_made_again() {
    let thumbs = Thumbs::new("/tmp/thumbs".to_string());
    let id = "0123456789abcdef0123456789abcdef";
    let path = thumbs.path(id, Size::Small).unwrap();
    assert_eq!(thumbs.store(id, Size::Small, |_: &str| true), Ok(None));
    assert_eq!(thumbs.store(id, Size::Small, |_: &str| false), Ok(Some(path.clone())));
    assert!(thumbs.has(id, Size::Small, |file: &str| file == path));
    assert!(!thumbs.has(id, Size::Large, |file: &str| file == path), "the other size is its own file");
    assert_eq!(thumbs.forget(id).unwrap().len(), 2);
}

#[test]
fn sweeping_keeps_what_the_photos_point_at() {
    let thumbs = Thumbs::new("/tmp/thumbs".to_string());
    let kept = "aaaaaaaaaaaaaaaaaaaaaaaaaaaaaaaa";
    let dropped = "bbbbbbbbbbbbbbbbbbbbbbbbbbbbbbbb";
    let mut stale = Vec::new();
    for size in Size::ALL {
        let found: Vec<String> = [kept, dropped].iter().map(|id| thumbs.path(id, size).unwrap()).collect();
        assert_eq!(thumbs.count(&found), 2);
        stale.extend(thumbs.sweep(&found, &[kept.to_string()]));
    }
    assert_eq!(stale.len(), 2, "both sizes of the stale one");
    assert_eq!(stale, Size::ALL.map(|size| thumbs.path(dropped, size).unwrap()));
    assert_eq!(thumbs.forget(kept).unwrap(), Size::ALL.map(|size| thumbs.path(kept, size).unwrap()));
    assert_eq!(thumbs.count(&[]), 0);
}

#[test]
fn the_smallest_scale_that_is_large_enough_is_taken() {
    let factors = [(2, 1), (1, 1), (1, 2), (1, 4), (1, 8)];
    assert_eq!(scale_for(&factors, 1600, 256), Some(3));
    assert_eq!(scale_for(&factors, 1600, 512), Some(2));
    assert_eq!(scale_for(&factors, 200, 256), Some(1), "never larger than the photo");
    assert_eq!(scale_for(&[(1, 2), (1, 4)], 1600, 1000), None);
}

fn grey(width: u32, height: u32) -> Decoded {
    Decoded {
        pixels: vec![128; (width * height * 3) as usize],
        width,
        height,
        full_width: width,
        full_height: height,
    }
}

fn measure(webp: &[u8]) -> (u32, u32) {
    let header = webp::BitstreamFeatures::new(webp).expect("a webp picture");
    (header.width(), header.height())
}

#[test]
fn a_small_picture_is_not_blown_up() {
    assert_eq!(longest_side(&grey(120, 90), 256), 120);
    assert_eq!(longest_side(&grey(1600, 900), 256), 256);
}

#[test]
fn a_finished_picture_is_a_webp_of_the_size_it_was_asked_in() {
    assert_eq!(measure(&finish(grey(160, 90), 64, 36, None).unwrap()), (64, 36));
    assert_eq!(measure(&finish(grey(160, 90), 64, 36, Some(6)).unwrap()), (36, 64));
    assert_eq!(measure(&finish(grey(64, 36), 64, 36, Some(3)).unwrap()), (64, 36));
}

#[test]
fn a_finished_picture_says_how_large_it_is() {
    let webp = finish(grey(1200, 90), 600, 45, Some(8)).unwrap();
    assert_eq!(&webp[0..4], b"RIFF");
    assert_eq!(&webp[8..16], b"WEBPVP8 ");
    assert_eq!(&webp[23..26], &[0x9d, 0x01, 0x2a]);
    assert_eq!(&webp[26..30], &[45, 0, 88, 2], "45 by 600, turned");
}

#[test]
fn a_finished_picture_is_turned_before_it_is_encoded() {
    // Red on the left, green on the right.
    let mut photo = grey(64, 32);
    for (at, point) in photo.pixels.chunks_mut(3).enumerate() {
        point.copy_from_slice(if at % 64 < 32 { &[255, 0, 0] } else { &[0, 255, 0] });
    }
    for (orientation, red_first) in [(1, true), (2, false), (3, false), (4, true)] {
        let webp = finish(photo.clone(), 32, 16, Some(orientation)).unwrap();
        let picture = webp::Decoder::new(&webp).decode().expect("a webp picture");
        assert_eq!((picture.width(), picture.height()), (32, 16));
        assert_eq!(picture[0] > picture[1], red_first, "orientation {orientation}");
    }
}

#[test]
fn what_could_not_be_encoded_is_unusable() {
    assert_eq!(encoded(Ok(vec![1, 2])), Ok(vec![1, 2]));
    assert_eq!(encoded(Err("no room".to_string())), Err(Error::Unusable("no room".to_string())));
}

#[test]
fn what_could_not_be_resized_is_unusable() {
    let failed = upright(Err("no memory".to_string()), 2, 1, None);
    assert!(matches!(failed, Err(Error::Unusable(why)) if why.contains("no memory")));
    let picture = upright(Ok(vec![255, 0, 0, 0, 255, 0]), 2, 1, Some(2)).unwrap();
    assert_eq!(picture, (vec![0, 255, 0, 255, 0, 0], 2, 1));
}

/// A picture in one shade. Every block of 8 by 8 points takes two bits, and all of them are zero.
fn jpeg(width: usize, height: usize) -> Vec<u8> {
    let mut bytes = vec![0xff, 0xd8, 0xff, 0xdb, 0x00, 0x43, 0x00];
    bytes.extend([1; 64]);
    let sides = [height >> 8, height & 255, width >> 8, width & 255].map(|part| part as u8);
    bytes.extend([0xff, 0xc0, 0x00, 0x0b, 8]);
    bytes.extend(sides);
    bytes.extend([1, 1, 0x11, 0]);
    for table in [0x00, 0x10] {
        bytes.extend([0xff, 0xc4, 0x00, 0x14, table, 1]);
        bytes.extend([0; 16]);
    }
    bytes.extend([0xff, 0xda, 0x00, 0x08, 1, 1, 0, 0, 0x3f, 0]);
    let bits = width.div_ceil(8) * height.div_ceil(8) * 2;
    bytes.extend(vec![0; bits / 8]);
    if bits % 8 > 0 {
        bytes.push(0xff >> (bits % 8));
    }
    bytes.extend([0xff, 0xd9]);
    bytes
}

/// What the fast decoder says of a file it cannot take.
fn refused() -> Result<Decoded, Error> {
    Err(Error::Unusable("not for the fast decoder".to_string()))
}

/// A thumbnail by way of the forgiving decoder, with the shape of the photo.
fn make(jpeg: &[u8], pixels: u32, orientation: Option<i64>) -> Result<Vec<u8>, Error> {
    let decoded = either(refused(), jpeg)?;
    let (width, height) = (f64::from(decoded.full_width), f64::from(decoded.full_height));
    let scale = f64::from(longest_side(&decoded, pixels)) / width.max(height);
    finish(decoded, (width * scale).round() as u32, (height * scale).round() as u32, orientation)
}

#[test]
fn the_longest_side_becomes_the_wanted_size() {
    let wide = make(&jpeg(1600, 900), 256, None).unwrap();
    assert_eq!(measure(&wide), (256, 144));

    let tall = make(&jpeg(900, 1600), 256, None).unwrap();
    assert_eq!(measure(&tall), (144, 256));

    let large = make(&jpeg(1600, 900), 512, None).unwrap();
    assert_eq!(measure(&large), (512, 288));
}

#[test]
fn a_small_photo_is_never_blown_up() {
    let small = make(&jpeg(120, 90), 256, None).unwrap();
    assert_eq!(measure(&small), (120, 90));
}

#[test]
fn every_orientation_comes_out_the_right_way_up() {
    let photo = jpeg(1600, 900);
    for orientation in 1..=8 {
        let thumbnail = make(&photo, 256, Some(orientation)).unwrap();
        let expected = match orientation {
            5..=8 => (144, 256),
            _ => (256, 144),
        };
        assert_eq!(measure(&thumbnail), expected, "orientation {orientation}");
    }
}

#[test]
fn a_stored_thumbnail_is_found_by_its_content_id() {
    let thumbs = Thumbs::new("/tmp/thumbs".to_string());
    let id = "0123456789abcdef0123456789abcdef";
    let mut files: Vec<(String, Vec<u8>)> = Vec::new();
    assert!(!thumbs.has(id, Size::Small, |path: &str| files.iter().any(|(file, _)| file == path)));

    let target = thumbs.store(id, Size::Small, |path: &str| files.iter().any(|(file, _)| file == path));
    let picture = make(&jpeg(800, 600), Size::Small.pixels(), None).unwrap();
    files.push((target.unwrap().unwrap(), picture));
    let is_file = |path: &str| files.iter().any(|(file, _)| file == path);
    assert!(thumbs.has(id, Size::Small, is_file));
    assert!(!thumbs.has(id, Size::Large, is_file), "the other size is its own file");
    let path = thumbs.path(id, Size::Small).unwrap();
    assert_eq!(measure(&files.iter().find(|(file, _)| *file == path).unwrap().1), (256, 192));
    assert_eq!(thumbs.count(&[path]), 1);
}

#[test]
fn the_forgiving_decoder_reads_the_same_picture() {
    let photo = jpeg(800, 600);
    let decoded = lenient(&photo).unwrap();
    assert_eq!((decoded.full_width, decoded.full_height), (800, 600));
    assert_eq!(decoded.pixels.len(), 800 * 600 * 3);
}

#[test]
fn a_damaged_photo_is_an_error_not_a_panic() {
    assert!(matches!(make(b"", 256, None), Err(Error::Unusable(_))));
    assert!(matches!(make(b"not a jpeg at all", 256, None), Err(Error::Unusable(_))));

    let mut cut = jpeg(800, 600);
    cut.truncate(40);
    assert!(make(&cut, 256, None).is_err());
}

#[test]
fn writes_nothing_outside_its_own_directory() {
    let thumbs = Thumbs::new("/tmp/thumbs".to_string());
    let id = "1234567890abcdef1234567890abcdef";
    for size in Size::ALL {
        let target = thumbs.store(id, size, |_: &str| false).unwrap().unwrap();
        assert!(target.starts_with("/tmp/thumbs/"), "{target} escaped");
        assert_eq!(thumbs.count(&[target]), 1);
    }
}

#[test]
fn the_forgiving_decoder_reads_a_picture_and_refuses_rubbish() {
    let decoded = lenient(&jpeg(8, 8)).unwrap();
    assert_eq!((decoded.width, decoded.height), (8, 8));
    assert_eq!((decoded.full_width, decoded.full_height), (8, 8));
    assert_eq!(decoded.pixels, vec![128; 8 * 8 * 3]);
    assert!(matches!(lenient(b""), Err(Error::Unusable(_))));
    assert!(matches!(lenient(b"not a jpeg at all"), Err(Error::Unusable(_))));
}

#[test]
fn the_forgiving_decoder_is_asked_only_where_the_fast_one_failed() {
    assert_eq!(either(Ok(grey(2, 1)), b"rubbish"), Ok(grey(2, 1)));
    let failed = Err(Error::Unusable("cut short".to_string()));
    assert_eq!(either(failed.clone(), &jpeg(8, 8)), lenient(&jpeg(8, 8)));
    assert!(either(failed, b"rubbish").is_err());
    assert!(Error::NotAnId("zz".to_string()).to_string().contains("zz"));
}
