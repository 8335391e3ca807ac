use image::{DynamicImage, ImageFormat, Rgb, RgbImage};
use serde_json::Value;
use simplealbum::probe::{
    decide_turn, display_dimensions, frame_dimensions, is_quarter_turn, probe_video,
};
use simplealbum::thumb::{
    delete_thumb, encoder_for, exif_orientation, finish_thumb, fit_poster, format_of_source,
    generate_image_thumb, needs_resize, orientation_of, oriented_dimensions, poll_child,
    render_thumb, scale_frame, thumb_place, Orientation, PollStep, ThumbError, ThumbFormat, TmpNames,
    JPEG_QUALITY, THUMB_MAX_DIM,
};
use std::path::Path;

fn degrees(value: &Value) -> Option<f64> {
    value.as_f64().or_else(|| value.as_str().and_then(|s| s.trim().parse::<f64>().ok()))
}

fn quarter(value: &Value) -> Option<bool> {
    degrees(value).map(|rotation| {
        let normalized = rotation.rem_euclid(360.0);
        (normalized - 90.0).abs() < 1.0 || (normalized - 270.0).abs() < 1.0
    })
}

fn object(members: Vec<(&str, Value)>) -> Value {
    Value::Object(members.into_iter().map(|(k, v)| (k.to_string(), v)).collect::<serde_json::Map<_, _>>())
}

fn stream(rotation: Value) -> Value {
    object(vec![
        ("width", Value::from(320)),
        ("height", Value::from(240)),
        ("side_data_list", Value::Array(vec![object(vec![("rotation", rotation)])])),
    ])
}

#[test]
fn quarter_turn_rotations_swap_dimensions() {
    let rotated = stream(Value::from(90));
    assert_eq!(display_dimensions(&rotated, &quarter), Some((240, 320)));

    // Negative and 270 degree spellings are the same quarter turn.
    for rotation in [-90.0, 270.0, -270.0] {
        let stream = stream(Value::from(rotation));
        assert_eq!(
            display_dimensions(&stream, &quarter),
            Some((240, 320)),
            "rotation {rotation}"
        );
    }

    // The older `rotate` tag is honoured when there is no side data.
    let tagged = object(vec![
        ("width", Value::from(320)),
        ("height", Value::from(240)),
        ("tags", object(vec![("rotate", Value::from("90"))])),
    ]);
    assert_eq!(display_dimensions(&tagged, &quarter), Some((240, 320)));
}

#[test]
fn non_quarter_turn_rotations_keep_dimensions() {
    for rotation in [0, 180, -180] {
        let stream = stream(Value::from(rotation));
        assert_eq!(
            display_dimensions(&stream, &quarter),
            Some((320, 240)),
            "rotation {rotation}"
        );
    }
    // No rotation information at all is the common case.
    let plain = object(vec![("width", Value::from(1920)), ("height", Value::from(1080))]);
    assert_eq!(display_dimensions(&plain, &quarter), Some((1920, 1080)));
}

#[test]
fn missing_dimensions_are_reported_as_none() {
    let stream = object(vec![("width", Value::from(320))]);
    assert_eq!(display_dimensions(&stream, &quarter), None);
}

#[test]
fn the_first_usable_rotation_counts() {
    let side_data = Value::Array(vec![
        object(vec![("other", Value::from(1))]),
        object(vec![("rotation", Value::from("no number"))]),
        object(vec![("rotation", Value::from(180))]),
        object(vec![("rotation", Value::from(90))]),
    ]);
    let both = object(vec![
        ("side_data_list", side_data),
        ("tags", object(vec![("rotate", Value::from("90"))])),
    ]);
    assert!(!is_quarter_turn(&both, &quarter));
    let no_list = object(vec![
        ("side_data_list", Value::from("text")),
        ("tags", object(vec![("rotate", Value::from(" 270 "))])),
    ]);
    assert!(is_quarter_turn(&no_list, &quarter));
    assert!(!is_quarter_turn(&Value::Null, &quarter));
}

#[test]
fn a_frame_is_shown_as_its_sides_and_turn_say() {
    assert_eq!(frame_dimensions(Some(320), Some(240), false), Some((320, 240)));
    assert_eq!(frame_dimensions(Some(320), Some(240), true), Some((240, 320)));
    assert_eq!(frame_dimensions(Some(u64::MAX), Some(1 << 32), false), Some((u32::MAX, 0)));
    assert_eq!(frame_dimensions(None, Some(240), true), None);
    assert_eq!(frame_dimensions(Some(320), None, true), None);
    assert!(decide_turn(Some(true), Some(false)));
    assert!(!decide_turn(Some(false), Some(true)));
    assert!(decide_turn(None, Some(true)));
    assert!(!decide_turn(None, None));
}

#[test]
fn a_probe_reports_dimensions_and_duration() {
    let text = br#"{"streams":[{"width":1920,"height":1080,"side_data_list":[{"rotation":-90}]}],
        "format":{"duration":"12.5"}}"#;
    let probe = probe_video(text, &quarter).unwrap();
    assert_eq!((probe.width, probe.height), (1080, 1920));
    assert_eq!(probe.duration.as_deref(), Some("12.5"));

    let silent = br#"{"streams":[{"width":4294967297,"height":2}],"format":{"duration":3}}"#;
    let probe = probe_video(silent, &quarter).unwrap();
    assert_eq!((probe.width, probe.height), (1, 2));
    assert_eq!(probe.duration, None);

    for text in ["", "{}", "not json", r#"{"streams":[]}"#, r#"{"streams":{"0":{"width":1,"height":1}}}"#] {
        assert!(probe_video(text.as_bytes(), &quarter).is_none(), "{text}");
    }
}

#[test]
fn encoder_matches_the_thumbnail_extension() {
    assert_eq!(encoder_for("png"), ThumbFormat::Png);
    assert_eq!(encoder_for("webp"), ThumbFormat::WebP);
    assert_eq!(encoder_for("jpg"), ThumbFormat::Jpeg);
    assert_eq!(encoder_for("jpeg"), ThumbFormat::Jpeg);
    assert_eq!(encoder_for(""), ThumbFormat::Jpeg);
}

#[test]
fn sources_are_read_by_their_extension() {
    assert_eq!(format_of_source("a.PNG"), Some(ThumbFormat::Png));
    assert_eq!(format_of_source("a.webp"), Some(ThumbFormat::WebP));
    assert_eq!(format_of_source("a.Jpeg"), Some(ThumbFormat::Jpeg));
    assert_eq!(format_of_source("jpg"), None);
    assert_eq!(format_of_source("a.gif"), None);
    assert_eq!(format_of_source("a.JFIF"), Some(ThumbFormat::Jpeg));
    assert_eq!(format_of_source("a/b.apng"), Some(ThumbFormat::Png));
    assert_eq!(format_of_source("a.jpg/b"), None);
}

#[test]
fn orientation_rotations_are_recognised() {
    // Values 5-8 are the ones that transpose the image.
    for exif in [5u8, 6, 7, 8] {
        let orientation = Orientation::from_exif(exif).unwrap();
        assert!(matches!(
            orientation,
            Orientation::Rotate90
                | Orientation::Rotate270
                | Orientation::Rotate90FlipH
                | Orientation::Rotate270FlipH
        ));
    }
    // 1-4 never change the aspect ratio.
    for exif in [1u8, 2, 3, 4] {
        let orientation = Orientation::from_exif(exif).unwrap();
        assert!(matches!(
            orientation,
            Orientation::NoTransforms
                | Orientation::FlipHorizontal
                | Orientation::Rotate180
                | Orientation::FlipVertical
        ));
    }
}

#[test]
fn unknown_orientations_turn_nothing() {
    assert_eq!(Orientation::from_exif(0), None);
    assert_eq!(Orientation::from_exif(9), None);
    assert_eq!(orientation_of(None), Orientation::NoTransforms);
    assert_eq!(orientation_of(Some(0)), Orientation::NoTransforms);
    assert_eq!(orientation_of(Some(6)), Orientation::Rotate90);
    assert_eq!(orientation_of(Some(256 + 8)), Orientation::Rotate270);
}

/// An image whose pixels differ enough that it does not shrink to nothing.
fn picture(width: u32, height: u32) -> DynamicImage {
    let image = RgbImage::from_fn(width, height, |x, y| {
        let n = x.wrapping_mul(2654435761).wrapping_add(y.wrapping_mul(40503));
        Rgb([(n >> 8) as u8, (n >> 13) as u8, (n >> 17) as u8])
    });
    DynamicImage::ImageRgb8(image)
}

fn encode(image: &DynamicImage, format: ImageFormat) -> Vec<u8> {
    let mut out = std::io::Cursor::new(Vec::new());
    image.write_to(&mut out, format).unwrap();
    out.into_inner()
}

/// A JPEG file with an Exif orientation.
fn oriented_jpeg(width: u32, height: u32, orientation: u16) -> Vec<u8> {
    let plain = encode(&picture(width, height), ImageFormat::Jpeg);
    let mut exif: Vec<u8> = b"Exif\0\0MM\0*\0\0\0\x08\0\x01\x01\x12\0\x03\0\0\0\x01".to_vec();
    exif.extend(orientation.to_be_bytes());
    exif.extend([0, 0, 0, 0, 0, 0]);
    let mut out = plain[..2].to_vec();
    out.extend([0xff, 0xe1]);
    out.extend(((exif.len() + 2) as u16).to_be_bytes());
    out.extend(exif);
    out.extend(&plain[2..]);
    out
}

#[test]
fn the_orientation_of_a_file_is_read() {
    assert_eq!(exif_orientation(&oriented_jpeg(8, 6, 6)), Orientation::Rotate90);
    assert_eq!(exif_orientation(&oriented_jpeg(8, 6, 3)), Orientation::Rotate180);
    assert_eq!(exif_orientation(&oriented_jpeg(8, 6, 77)), Orientation::NoTransforms);
    assert_eq!(exif_orientation(b"no image"), Orientation::NoTransforms);
}

#[test]
fn dimensions_are_those_shown() {
    assert_eq!(oriented_dimensions(&oriented_jpeg(80, 60, 1), "a.jpg"), Some((80, 60)));
    assert_eq!(oriented_dimensions(&oriented_jpeg(80, 60, 8), "a.jpg"), Some((60, 80)));
    let png = encode(&picture(7, 9), ImageFormat::Png);
    assert_eq!(oriented_dimensions(&png, "a.png"), Some((7, 9)));
    // A file is read as what its extension says.
    assert_eq!(oriented_dimensions(&png, "a.jpg"), None);
    assert_eq!(oriented_dimensions(&png, "a"), None);
}

#[test]
fn a_thumbnail_is_turned_and_scaled() {
    let source = oriented_jpeg(800, 600, 6);
    let thumb = generate_image_thumb(&source, "a.jpg", "thumbs/a_thumb.jpg").ok().unwrap();
    assert_eq!((thumb.width, thumb.height), (600, 800));
    let small = image::load_from_memory_with_format(&thumb.bytes, ImageFormat::Jpeg).unwrap();
    assert_eq!((small.width(), small.height()), (300, 400));

    let png = encode(&picture(30, 20), ImageFormat::Png);
    let thumb = generate_image_thumb(&png, "b.PNG", "thumbs/b_thumb.png").ok().unwrap();
    assert_eq!((thumb.width, thumb.height), (30, 20));
    let same = image::load_from_memory_with_format(&thumb.bytes, ImageFormat::Png).unwrap();
    assert_eq!(same.to_rgb8(), picture(30, 20).to_rgb8());

    let webp = encode(&picture(500, 10), ImageFormat::WebP);
    let thumb = generate_image_thumb(&webp, "c.webp", "thumbs/c_thumb.webp").ok().unwrap();
    let small = image::load_from_memory_with_format(&thumb.bytes, ImageFormat::WebP).unwrap();
    assert_eq!((small.width(), small.height()), (THUMB_MAX_DIM, 8));
}

#[test]
fn a_broken_source_has_no_thumbnail() {
    let failed = |bytes: &[u8], src: &str, dst: &str| {
        generate_image_thumb(bytes, src, dst).err().unwrap()
    };
    assert_eq!(failed(b"garbage", "a.jpg", "a_thumb.jpg"), ThumbError::Decode);
    let png = encode(&picture(2, 2), ImageFormat::Png);
    assert_eq!(failed(&png, "a.jpg", "a_thumb.jpg"), ThumbError::Decode);
    assert_eq!(failed(&png, "a", "a_thumb."), ThumbError::Decode);
    // A tiny JPEG is taken for a failed decode; a tiny PNG is not.
    let tiny = encode(&DynamicImage::new_rgb8(2, 2), ImageFormat::Jpeg);
    assert!(matches!(failed(&tiny, "a.jpg", "a_thumb.jpg"), ThumbError::TooSmall(n) if n < 1024));
    assert!(generate_image_thumb(&png, "a.png", "a_thumb.png").is_ok());
}

#[test]
fn a_finished_thumbnail_is_judged_by_its_size() {
    let judged = |bytes: Option<Vec<u8>>, format| finish_thumb(bytes, format, (3, 4));
    assert_eq!(judged(None, ThumbFormat::Png).err(), Some(ThumbError::Encode));
    assert_eq!(
        judged(Some(vec![0; 1023]), ThumbFormat::Jpeg).err(),
        Some(ThumbError::TooSmall(1023))
    );
    let kept = judged(Some(vec![7; 1024]), ThumbFormat::Jpeg).ok().unwrap();
    assert_eq!((kept.bytes.len(), kept.width, kept.height), (1024, 3, 4));
    assert!(judged(Some(vec![7]), ThumbFormat::WebP).is_ok());
}

#[test]
fn a_decoded_image_is_rendered() {
    assert_eq!(
        render_thumb(None, Orientation::Rotate90, ThumbFormat::Png).err(),
        Some(ThumbError::Decode)
    );

    let thumb =
        render_thumb(Some(picture(800, 600)), Orientation::Rotate90, ThumbFormat::Png).ok().unwrap();
    assert_eq!((thumb.width, thumb.height), (600, 800));
    let read = image::load_from_memory_with_format(&thumb.bytes, ImageFormat::Png).unwrap();
    assert_eq!((read.width(), read.height()), (300, 400));

    // A small image is not scaled up.
    let thumb = render_thumb(Some(picture(30, 20)), Orientation::NoTransforms, ThumbFormat::Png)
        .ok()
        .unwrap();
    let read = image::load_from_memory_with_format(&thumb.bytes, ImageFormat::Png).unwrap();
    assert_eq!((read.width(), read.height()), (30, 20));
}

#[test]
fn a_decoded_frame_is_scaled() {
    assert_eq!(scale_frame(None), Ok(None));
    assert_eq!(scale_frame(Some(picture(400, 300))), Ok(None));
    let scaled = scale_frame(Some(picture(1200, 300))).unwrap().unwrap();
    let read = image::load_from_memory_with_format(&scaled, ImageFormat::Jpeg).unwrap();
    assert_eq!((read.width(), read.height()), (400, 100));
}

#[test]
fn a_poster_is_scaled_only_when_it_is_too_large() {
    let large = encode(&picture(640, 480), ImageFormat::Jpeg);
    let scaled = fit_poster(&large).unwrap().unwrap();
    let image = image::load_from_memory_with_format(&scaled, ImageFormat::Jpeg).unwrap();
    assert_eq!((image.width(), image.height()), (400, 300));
    let small = encode(&picture(400, 400), ImageFormat::Jpeg);
    assert_eq!(fit_poster(&small), Ok(None));
    assert_eq!(fit_poster(b"no image"), Ok(None));
    // A large frame that does not decode is kept too.
    assert_eq!(fit_poster(&large[..20]), Ok(None));
    assert!(needs_resize((401, 1)) && needs_resize((1, 401)) && !needs_resize((400, 400)));
}

#[test]
fn tmp_paths_are_unique_and_hidden_next_to_the_target() {
    let dst = "/album/1970/thumbs/beach_thumb.jpg";
    let mut names = TmpNames::new();
    let a = names.tmp_path(dst);
    let b = names.tmp_path(dst);
    assert_ne!(a, b);
    assert_eq!(Path::new(&a).parent(), Path::new(dst).parent());
    assert!(Path::new(&a).file_name().unwrap().to_string_lossy().starts_with('.'));
}

#[test]
fn tmp_paths_are_numbered() {
    let mut names = TmpNames::new();
    for n in 0..12 {
        assert_eq!(names.tmp_path("t/beach_thumb.jpg"), format!("t/.{n}.beach_thumb.jpg.tmp"));
    }
}

#[test]
fn thumbnails_stand_beside_their_sources() {
    let place = thumb_place("/srv/photos/a/b.MP4").unwrap();
    assert_eq!(place.dir, "/srv/photos/a/thumbs");
    assert_eq!(place.file, "/srv/photos/a/thumbs/b_thumb.jpg");
    let gone = delete_thumb("/srv/photos", "a/c.PNG").unwrap();
    assert_eq!(gone.file, "/srv/photos/a/thumbs/c_thumb.png");
    // The name is that of the path that was deleted, not of the album.
    let gone = delete_thumb("/srv/photos", "").unwrap();
    assert_eq!(gone.file, "/srv/thumbs/_thumb.");
    assert!(thumb_place("/").is_none());
}

#[test]
fn a_child_is_waited_for_until_its_limit() {
    assert_eq!(poll_child(false, 0, 30_000), PollStep::Wait(20));
    assert_eq!(poll_child(false, 29_999, 30_000), PollStep::Wait(20));
    assert_eq!(poll_child(false, 30_000, 30_000), PollStep::Kill);
    // One that ended in time to be looked at is never killed.
    assert_eq!(poll_child(true, 30_001, 30_000), PollStep::Done);
}

/// The first entry of the first quantisation table of a JPEG.
fn first_quantiser(jpeg: &[u8]) -> u8 {
    let at = jpeg.windows(2).position(|w| w == [0xff, 0xdb]).unwrap();
    jpeg[at + 5]
}

#[test]
fn jpeg_thumbnails_are_written_in_their_quality() {
    assert_eq!(JPEG_QUALITY, 85);
    // The standard table begins with 16, and this quality scales it by 30 per cent.
    let source = encode(&picture(800, 600), ImageFormat::Png);
    let thumb = generate_image_thumb(&source, "a.png", "thumbs/a_thumb.jpg").ok().unwrap();
    assert_eq!(first_quantiser(&thumb.bytes), 5);
    let poster = fit_poster(&encode(&picture(800, 600), ImageFormat::Jpeg)).ok().unwrap();
    assert_eq!(first_quantiser(&poster.unwrap()), 5);
    // The default of the encoder is coarser.
    assert_eq!(first_quantiser(&encode(&picture(80, 60), ImageFormat::Jpeg)), 8);
}
