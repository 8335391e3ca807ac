//! Making thumbnails.

use crate::path;
use crate::text;
use crate::util;
use image::DynamicImage;
use vstd::prelude::*;

verus! {

/// Longest edge of a thumbnail, in pixels.
pub const THUMB_MAX_DIM: u32 = 400;

/// The quality in which a thumbnail is written as a JPEG, out of a hundred.
pub const JPEG_QUALITY: u8 = 85;

/// A JPEG thumbnail smaller than this many bytes comes of a failed decode.
pub const MIN_JPEG_BYTES: usize = 1024;

/// How long a probe of a video may take, in seconds.
pub const PROBE_TIMEOUT_SECS: u64 = 20;

/// How long the extraction of a poster frame may take, in seconds.
pub const EXTRACT_TIMEOUT_SECS: u64 = 30;

/// How long to wait before looking at a child process again, in milliseconds.
pub const POLL_MILLIS: u64 = 20;

/// What to do about a child process.
#[derive(Debug, Clone, Copy, PartialEq, Eq, Structural)]
pub enum PollStep {
    /// It has ended: take what it wrote.
    Done,
    /// It has outlived its limit: kill it, and give up on what it wrote.
    Kill,
    /// Look again after this many milliseconds.
    Wait(u64),
}

/// What to do about a child process.
pub open spec fn poll_step(exited: bool, elapsed_ms: u64, limit_ms: u64) -> PollStep {
    if exited {
        PollStep::Done
    } else if elapsed_ms >= limit_ms {
        PollStep::Kill
    } else {
        PollStep::Wait(POLL_MILLIS)
    }
}

/// Decides what to do about a child process that has been running for
/// `elapsed_ms`, and may run for `limit_ms`. One that has ended is never too late.
pub fn poll_child(exited: bool, elapsed_ms: u64, limit_ms: u64) -> (r: PollStep)
    ensures
        r == if exited {
            PollStep::Done
        } else if elapsed_ms >= limit_ms {
            PollStep::Kill
        } else {
            PollStep::Wait(POLL_MILLIS)
        },
        r == poll_step(exited, elapsed_ms, limit_ms),
{
    if exited {
        PollStep::Done
    } else if elapsed_ms >= limit_ms {
        PollStep::Kill
    } else {
        PollStep::Wait(POLL_MILLIS)
    }
}

/// The image formats of the album.
#[derive(Debug, Clone, Copy, PartialEq, Eq, Structural)]
pub enum ThumbFormat {
    Png,
    WebP,
    Jpeg,
}

/// How an image is to be turned before it is shown.
#[derive(Debug, Clone, Copy, PartialEq, Eq, Structural)]
pub enum Orientation {
    NoTransforms,
    Rotate90,
    Rotate180,
    Rotate270,
    FlipHorizontal,
    FlipVertical,
    Rotate90FlipH,
    Rotate270FlipH,
}

/// A decoded image of the `image` crate, as it stands.
#[verifier::external_type_specification]
#[verifier::external_body]
pub struct ExDynamicImage(image::DynamicImage);

/// The width and height of a decoded image.
pub uninterp spec fn size_of_image(img: DynamicImage) -> (u32, u32);

/// The width and height that `image::ImageReader::into_dimensions` reads from
/// the header of an image of the given format, nothing where it fails.
pub uninterp spec fn image_size(bytes: Seq<u8>, format: ThumbFormat) -> Option<(u32, u32)>;

/// Whether `image::load_from_memory_with_format` may decode these bytes to this
/// image. Decoders differ in the last bit of a pixel between machines, so more
/// than one image may be meant.
pub uninterp spec fn decodes_to(bytes: Seq<u8>, format: ThumbFormat, img: DynamicImage) -> bool;

/// What `image::DynamicImage::apply_orientation` makes of an image.
pub uninterp spec fn turned_image(img: DynamicImage, orientation: Orientation) -> DynamicImage;

/// Whether `image::DynamicImage::resize` with the Lanczos filter may make this
/// image of another, within the given bounds. Scaling works in floating point,
/// so more than one image may be meant.
pub uninterp spec fn resizes_to(
    img: DynamicImage,
    width: u32,
    height: u32,
    scaled: DynamicImage,
) -> bool;

/// The bytes that `image::DynamicImage::write_to` makes of an image in the given
/// format, nothing where it fails.
pub uninterp spec fn encoded(img: DynamicImage, format: ThumbFormat) -> Option<Seq<u8>>;

/// The bytes that `image::DynamicImage::write_with_encoder` makes of an image with
/// a JPEG encoder of the given quality, nothing where it fails.
pub uninterp spec fn encoded_jpeg(img: DynamicImage, quality: u8) -> Option<Seq<u8>>;

/// The first unsigned integer of the orientation field that
/// `exif::Reader::read_from_container` finds in a file, nothing where the file
/// has no such field.
pub uninterp spec fn exif_orientation_value(bytes: Seq<u8>) -> Option<u32>;

/// The orientation an Exif value stands for.
pub open spec fn orientation_for(value: u8) -> Option<Orientation> {
    if value == 1 {
        Some(Orientation::NoTransforms)
    } else if value == 2 {
        Some(Orientation::FlipHorizontal)
    } else if value == 3 {
        Some(Orientation::Rotate180)
    } else if value == 4 {
        Some(Orientation::FlipVertical)
    } else if value == 5 {
        Some(Orientation::Rotate90FlipH)
    } else if value == 6 {
        Some(Orientation::Rotate90)
    } else if value == 7 {
        Some(Orientation::Rotate270FlipH)
    } else if value == 8 {
        Some(Orientation::Rotate270)
    } else {
        None
    }
}

/// Whether an orientation exchanges width and height.
pub open spec fn transposes(orientation: Orientation) -> bool {
    orientation is Rotate90 || orientation is Rotate270 || orientation is Rotate90FlipH
        || orientation is Rotate270FlipH
}

/// The size of an image after it was turned.
pub open spec fn oriented_size(size: (u32, u32), orientation: Orientation) -> (u32, u32) {
    if transposes(orientation) {
        (size.1, size.0)
    } else {
        size
    }
}

/// Calls `exif::Reader::read_from_container` on the bytes of a file and reads the
/// first unsigned integer of its orientation field. The result is determined by
/// the bytes, and is named [`exif_orientation_value`].
#[verifier::external_body]
pub(crate) fn read_orientation_value(bytes: &[u8]) -> (r: Option<u32>)
    ensures
        r == exif_orientation_value(bytes@),
{
    let mut file = std::io::Cursor::new(bytes);
    let fields = exif::Reader::new().read_from_container(&mut file).ok()?;
    let field = fields.get_field(exif::Tag::Orientation, exif::In::PRIMARY)?;
    field.value.get_uint(0)
}

/// Calls `image::metadata::Orientation::from_exif`, which knows the values one
/// to eight.
#[verifier::external_body]
pub(crate) fn read_orientation(value: u8) -> (r: Option<Orientation>)
    ensures
        r == orientation_for(value),
{
    match image::metadata::Orientation::from_exif(value)? {
        image::metadata::Orientation::NoTransforms => Some(Orientation::NoTransforms),
        image::metadata::Orientation::Rotate90 => Some(Orientation::Rotate90),
        image::metadata::Orientation::Rotate180 => Some(Orientation::Rotate180),
        image::metadata::Orientation::Rotate270 => Some(Orientation::Rotate270),
        image::metadata::Orientation::FlipHorizontal => Some(Orientation::FlipHorizontal),
        image::metadata::Orientation::FlipVertical => Some(Orientation::FlipVertical),
        image::metadata::Orientation::Rotate90FlipH => Some(Orientation::Rotate90FlipH),
        image::metadata::Orientation::Rotate270FlipH => Some(Orientation::Rotate270FlipH),
    }
}

/// Calls `image::ImageReader::into_dimensions` on the bytes of an image of the
/// given format. The result is determined by both, and is named [`image_size`].
#[verifier::external_body]
pub(crate) fn read_size(bytes: &[u8], format: ThumbFormat) -> (r: Option<(u32, u32)>)
    ensures
        r == image_size(bytes@, format),
{
    let format = match format {
        ThumbFormat::Png => image::ImageFormat::Png,
        ThumbFormat::WebP => image::ImageFormat::WebP,
        ThumbFormat::Jpeg => image::ImageFormat::Jpeg,
    };
    let file = std::io::Cursor::new(bytes);
    image::ImageReader::with_format(file, format).into_dimensions().ok()
}

/// Whether `image::load_from_memory_with_format` decodes these bytes to an image
/// at all.
pub open spec fn decodes(bytes: Seq<u8>, format: ThumbFormat) -> bool {
    exists|img: DynamicImage| #[trigger] decodes_to(bytes, format, img)
}

/// Calls `image::load_from_memory_with_format`. Whether it succeeds is determined
/// by the bytes and the format: the bound on the memory it may take is a constant
/// of the crate. An image that is decoded is one that [`decodes_to`] allows, and
/// has the size its header gives.
#[verifier::external_body]
pub(crate) fn decode_image(bytes: &[u8], format: ThumbFormat) -> (r: Option<DynamicImage>)
    ensures
        r is Some == decodes(bytes@, format),
        r is Some ==> decodes_to(bytes@, format, r->0),
        r is Some ==> image_size(bytes@, format) == Some(size_of_image(r->0)),
{
    let format = match format {
        ThumbFormat::Png => image::ImageFormat::Png,
        ThumbFormat::WebP => image::ImageFormat::WebP,
        ThumbFormat::Jpeg => image::ImageFormat::Jpeg,
    };
    image::load_from_memory_with_format(bytes, format).ok()
}

/// Calls `image::GenericImageView::dimensions` on a decoded image.
#[verifier::external_body]
pub(crate) fn size_of(img: &DynamicImage) -> (r: (u32, u32))
    ensures
        r == size_of_image(*img),
{
    image::GenericImageView::dimensions(img)
}

/// Calls `image::DynamicImage::apply_orientation`. The result is determined by
/// the image and the orientation, and is named [`turned_image`]. Width and height
/// are exchanged by the four orientations that turn an image by a quarter.
#[verifier::external_body]
pub(crate) fn apply_orientation(img: &mut DynamicImage, orientation: Orientation)
    ensures
        *final(img) == turned_image(*old(img), orientation),
        size_of_image(*final(img)) == oriented_size(size_of_image(*old(img)), orientation),
{
    img.apply_orientation(match orientation {
        Orientation::NoTransforms => image::metadata::Orientation::NoTransforms,
        Orientation::Rotate90 => image::metadata::Orientation::Rotate90,
        Orientation::Rotate180 => image::metadata::Orientation::Rotate180,
        Orientation::Rotate270 => image::metadata::Orientation::Rotate270,
        Orientation::FlipHorizontal => image::metadata::Orientation::FlipHorizontal,
        Orientation::FlipVertical => image::metadata::Orientation::FlipVertical,
        Orientation::Rotate90FlipH => image::metadata::Orientation::Rotate90FlipH,
        Orientation::Rotate270FlipH => image::metadata::Orientation::Rotate270FlipH,
    });
}

/// Whether `new` is the largest size of the shape of `old` that fits into
/// `width` by `height`: the tighter bound is met exactly.
pub open spec fn is_fitted(old: (u32, u32), new: (u32, u32), width: u32, height: u32) -> bool {
    &&& 1 <= new.0 <= width
    &&& 1 <= new.1 <= height
    &&& old.0 > 0 && old.1 > 0 && width * old.1 <= height * old.0 ==> new.0 == width
    &&& old.0 > 0 && old.1 > 0 && height * old.0 <= width * old.1 ==> new.1 == height
}

/// Calls `image::DynamicImage::resize` with the Lanczos filter, which scales an
/// image to the largest size that fits into the bounds and keeps its shape. The
/// result is one that [`resizes_to`] allows.
#[verifier::external_body]
pub(crate) fn resize(img: &DynamicImage, width: u32, height: u32) -> (r: DynamicImage)
    requires
        0 < width < 0x1_0000,
        0 < height < 0x1_0000,
    ensures
        is_fitted(size_of_image(*img), size_of_image(r), width, height),
        resizes_to(*img, width, height, r),
{
    img.resize(width, height, image::imageops::FilterType::Lanczos3)
}

/// Calls `image::DynamicImage::write_to`. The bytes are determined by the image
/// and the format, and are named [`encoded`].
#[verifier::external_body]
pub(crate) fn encode_image(img: &DynamicImage, format: ThumbFormat) -> (r: Option<Vec<u8>>)
    ensures
        r is Some == encoded(*img, format) is Some,
        r is Some ==> r->0@ == encoded(*img, format)->0,
{
    let format = match format {
        ThumbFormat::Png => image::ImageFormat::Png,
        ThumbFormat::WebP => image::ImageFormat::WebP,
        ThumbFormat::Jpeg => image::ImageFormat::Jpeg,
    };
    let mut out = std::io::Cursor::new(Vec::new());
    img.write_to(&mut out, format).ok()?;
    Some(out.into_inner())
}

/// Calls `image::DynamicImage::write_with_encoder` with the encoder that
/// `image::codecs::jpeg::JpegEncoder::new_with_quality` makes. The bytes are
/// determined by the image and the quality, and are named [`encoded_jpeg`].
#[verifier::external_body]
pub(crate) fn encode_jpeg(img: &DynamicImage, quality: u8) -> (r: Option<Vec<u8>>)
    ensures
        r is Some == encoded_jpeg(*img, quality) is Some,
        r is Some ==> r->0@ == encoded_jpeg(*img, quality)->0,
{
    let mut out = Vec::new();
    let encoder = image::codecs::jpeg::JpegEncoder::new_with_quality(&mut out, quality);
    img.write_with_encoder(encoder).ok()?;
    Some(out)
}

/// A thumbnail as it is written: a JPEG in the quality of thumbnails, any other
/// format as the format has it.
pub open spec fn written(thumb: DynamicImage, format: ThumbFormat) -> Option<Seq<u8>> {
    if format is Jpeg {
        encoded_jpeg(thumb, JPEG_QUALITY)
    } else {
        encoded(thumb, format)
    }
}

/// Writes a thumbnail in the given format.
fn write_thumb(thumb: &DynamicImage, format: ThumbFormat) -> (r: Option<Vec<u8>>)
    ensures
        bytes_view(r) == written(*thumb, format),
{
    if format == ThumbFormat::Jpeg {
        encode_jpeg(thumb, JPEG_QUALITY)
    } else {
        encode_image(thumb, format)
    }
}

impl Orientation {
    /// The orientation an Exif value stands for.
    pub fn from_exif(value: u8) -> (r: Option<Orientation>)
        ensures
            r == orientation_for(value),
    {
        read_orientation(value)
    }

    /// Whether the orientation exchanges width and height.
    pub fn swaps(self) -> (r: bool)
        ensures
            r == transposes(self),
    {
        match self {
            Orientation::Rotate90 => true,
            Orientation::Rotate270 => true,
            Orientation::Rotate90FlipH => true,
            Orientation::Rotate270FlipH => true,
            _ => false,
        }
    }
}

/// The orientation a field value stands for: of the value only its low byte
/// counts, and without one there is nothing to turn.
pub open spec fn orientation_from(value: Option<u32>) -> Orientation {
    match value {
        Some(value) => match orientation_for((value % 256) as u8) {
            Some(orientation) => orientation,
            None => Orientation::NoTransforms,
        },
        None => Orientation::NoTransforms,
    }
}

/// The orientation a field value stands for.
pub fn orientation_of(value: Option<u32>) -> (r: Orientation)
    ensures
        r == orientation_from(value),
{
    match value {
        Some(value) => match read_orientation((value % 256) as u8) {
            Some(orientation) => orientation,
            None => Orientation::NoTransforms,
        },
        None => Orientation::NoTransforms,
    }
}

/// The orientation recorded in a file, none where there is none.
pub fn exif_orientation(bytes: &[u8]) -> (r: Orientation)
    ensures
        r == orientation_from(exif_orientation_value(bytes@)),
{
    orientation_of(read_orientation_value(bytes))
}

/// The size of an image after it was turned.
pub fn turn_size(size: (u32, u32), orientation: Orientation) -> (r: (u32, u32))
    ensures
        r == oriented_size(size, orientation),
{
    if orientation.swaps() {
        (size.1, size.0)
    } else {
        size
    }
}

/// The format a thumbnail is written in, by its extension in lowercase.
pub open spec fn thumb_format(ext: Seq<char>) -> ThumbFormat {
    if ext == "png"@ {
        ThumbFormat::Png
    } else if ext == "webp"@ {
        ThumbFormat::WebP
    } else {
        ThumbFormat::Jpeg
    }
}

/// The format a thumbnail is written in. It must match the extension, because
/// that decides how the file is served.
pub fn encoder_for(ext: &str) -> (r: ThumbFormat)
    ensures
        r == thumb_format(ext@),
{
    if text::same_text(ext, "png") {
        ThumbFormat::Png
    } else if text::same_text(ext, "webp") {
        ThumbFormat::WebP
    } else {
        ThumbFormat::Jpeg
    }
}

/// The format a source with this extension is read as, nothing where the
/// extension is not one of a format of the album.
pub open spec fn extension_format(ext: Seq<char>) -> Option<ThumbFormat> {
    let ext = text::ascii_folded(ext);
    if ext == "png"@ || ext == "apng"@ {
        Some(ThumbFormat::Png)
    } else if ext == "webp"@ {
        Some(ThumbFormat::WebP)
    } else if ext == "jpg"@ || ext == "jpeg"@ || ext == "jfif"@ {
        Some(ThumbFormat::Jpeg)
    } else {
        None
    }
}

/// Calls `image::ImageFormat::from_extension`, which ignores the case of ASCII
/// letters. The formats besides PNG, WebP and JPEG are not read.
#[verifier::external_body]
pub(crate) fn read_extension(ext: &str) -> (r: Option<ThumbFormat>)
    ensures
        r == extension_format(ext@),
{
    match image::ImageFormat::from_extension(ext)? {
        image::ImageFormat::Png => Some(ThumbFormat::Png),
        image::ImageFormat::WebP => Some(ThumbFormat::WebP),
        image::ImageFormat::Jpeg => Some(ThumbFormat::Jpeg),
        _ => None,
    }
}

/// The format a source is read as, by its extension. A source without a known
/// extension cannot be read.
pub open spec fn source_format(name: Seq<char>) -> Option<ThumbFormat> {
    extension_format(util::extension_of(name))
}

/// The format a source is read as.
pub fn format_of_source(name: &str) -> (r: Option<ThumbFormat>)
    ensures
        r == source_format(name@),
{
    read_extension(&util::name_parts(name).1)
}

/// The size at which a file is shown, from its header and its orientation.
pub open spec fn shown_size(bytes: Seq<u8>, name: Seq<char>) -> Option<(u32, u32)> {
    match source_format(name) {
        Some(format) => match image_size(bytes, format) {
            Some(size) => Some(
                oriented_size(size, orientation_from(exif_orientation_value(bytes))),
            ),
            None => None,
        },
        None => None,
    }
}

/// The size at which an image is shown: its dimensions after its orientation is
/// applied. Only the header is read.
pub fn oriented_dimensions(bytes: &[u8], name: &str) -> (r: Option<(u32, u32)>)
    ensures
        r == shown_size(bytes@, name@),
{
    match format_of_source(name) {
        Some(format) => match read_size(bytes, format) {
            Some(size) => Some(turn_size(size, exif_orientation(bytes))),
            None => None,
        },
        None => None,
    }
}

/// Whether an image of this size is larger than a thumbnail.
pub open spec fn is_too_large(size: (u32, u32)) -> bool {
    size.0 > THUMB_MAX_DIM || size.1 > THUMB_MAX_DIM
}

/// Whether an image of this size has to be scaled down.
pub fn needs_resize(size: (u32, u32)) -> (r: bool)
    ensures
        r == is_too_large(size),
{
    size.0 > THUMB_MAX_DIM || size.1 > THUMB_MAX_DIM
}

/// Why a thumbnail could not be made.
#[derive(Debug, Clone, Copy, PartialEq, Eq, Structural)]
pub enum ThumbError {
    /// The source is not an image that can be read.
    Decode,
    /// The thumbnail could not be written in its format.
    Encode,
    /// The thumbnail came out with so few bytes that the source must have been
    /// read wrongly.
    TooSmall(usize),
}

/// A thumbnail, and the size at which its source is shown.
pub struct ImageThumb {
    pub bytes: Vec<u8>,
    pub width: u32,
    pub height: u32,
}

/// Whether a thumbnail is suspiciously small. Lossless formats shrink flat
/// images legitimately, so this is for JPEG alone.
pub open spec fn is_suspicious(format: ThumbFormat, len: nat) -> bool {
    format is Jpeg && len < MIN_JPEG_BYTES
}

/// The content of an [`ImageThumb`].
#[verifier::ext_equal]
pub struct Thumb {
    pub bytes: Seq<u8>,
    pub width: u32,
    pub height: u32,
}

impl View for ImageThumb {
    type V = Thumb;

    open spec fn view(&self) -> Thumb {
        Thumb { bytes: self.bytes@, width: self.width, height: self.height }
    }
}

/// The content of a thumbnail, or why there is none.
pub open spec fn thumb_view(r: Result<ImageThumb, ThumbError>) -> Result<Thumb, ThumbError> {
    match r {
        Ok(thumb) => Ok(thumb@),
        Err(e) => Err(e),
    }
}

/// What comes of the bytes of a thumbnail, whose source is shown at this size.
pub open spec fn judged(bytes: Option<Seq<u8>>, format: ThumbFormat, size: (u32, u32)) -> Result<
    Thumb,
    ThumbError,
> {
    match bytes {
        None => Err(ThumbError::Encode),
        Some(bytes) => if is_suspicious(format, bytes.len()) {
            Err(ThumbError::TooSmall(bytes.len() as usize))
        } else {
            Ok(Thumb { bytes, width: size.0, height: size.1 })
        },
    }
}

/// The bytes of a vector that may be absent.
pub open spec fn bytes_view(bytes: Option<Vec<u8>>) -> Option<Seq<u8>> {
    match bytes {
        Some(bytes) => Some(bytes@),
        None => None,
    }
}

/// Decides whether the bytes of a thumbnail can be kept.
pub fn finish_thumb(bytes: Option<Vec<u8>>, format: ThumbFormat, size: (u32, u32)) -> (r: Result<
    ImageThumb,
    ThumbError,
>)
    ensures
        thumb_view(r) == judged(bytes_view(bytes), format, size),
{
    match bytes {
        None => Err(ThumbError::Encode),
        Some(bytes) => {
            if format == ThumbFormat::Jpeg && bytes.len() < MIN_JPEG_BYTES {
                Err(ThumbError::TooSmall(bytes.len()))
            } else {
                Ok(ImageThumb { bytes, width: size.0, height: size.1 })
            }
        },
    }
}

/// Whether `thumb` is `img` as a thumbnail shows it: scaled down where it is too
/// large, and else as it is.
pub open spec fn is_thumb_of(img: DynamicImage, thumb: DynamicImage) -> bool {
    if is_too_large(size_of_image(img)) {
        &&& resizes_to(img, THUMB_MAX_DIM, THUMB_MAX_DIM, thumb)
        &&& is_fitted(size_of_image(img), size_of_image(thumb), THUMB_MAX_DIM, THUMB_MAX_DIM)
    } else {
        thumb == img
    }
}

/// Whether `r` is what comes of a thumbnail of the image `img` in the given format.
pub open spec fn is_rendering(
    img: DynamicImage,
    orientation: Orientation,
    format: ThumbFormat,
    r: Result<Thumb, ThumbError>,
) -> bool {
    exists|thumb: DynamicImage|
        {
            &&& is_thumb_of(turned_image(img, orientation), thumb)
            &&& r == judged(
                #[trigger] written(thumb, format),
                format,
                oriented_size(size_of_image(img), orientation),
            )
        }
}

/// Makes a thumbnail of a decoded image: turns it as it is shown, scales it down
/// where it is too large, and writes it in the given format. Without an image the
/// source could not be read.
pub fn render_thumb(
    decoded: Option<DynamicImage>,
    orientation: Orientation,
    format: ThumbFormat,
) -> (r: Result<ImageThumb, ThumbError>)
    ensures
        match decoded {
            None => thumb_view(r) == Err::<Thumb, ThumbError>(ThumbError::Decode),
            Some(img) => is_rendering(img, orientation, format, thumb_view(r)),
        },
{
    let mut img = match decoded {
        Some(img) => img,
        None => return Err(ThumbError::Decode),
    };
    apply_orientation(&mut img, orientation);
    let ghost turned = img;
    let size = size_of(&img);
    let thumb = if needs_resize(size) {
        resize(&img, THUMB_MAX_DIM, THUMB_MAX_DIM)
    } else {
        img
    };
    let out = write_thumb(&thumb, format);
    proof {
        assert(is_thumb_of(turned, thumb));
        assert(bytes_view(out) == written(thumb, format));
    }
    finish_thumb(out, format, size)
}

/// The extension of a thumbnail, in lowercase.
pub open spec fn thumb_extension(dst: Seq<char>) -> Seq<char> {
    text::lowercase(util::extension_of(dst))
}

/// Whether a source has a known format and decodes as that.
pub open spec fn is_readable(bytes: Seq<u8>, src: Seq<char>) -> bool {
    source_format(src) is Some && decodes(bytes, source_format(src)->0)
}

/// Whether `r` is what comes of making the thumbnail `dst` of the image `src` out of
/// these bytes.
pub open spec fn is_thumbnail_of(
    bytes: Seq<u8>,
    src: Seq<char>,
    dst: Seq<char>,
    r: Result<Thumb, ThumbError>,
) -> bool {
    &&& is_readable(bytes, src) ==> exists|img: DynamicImage|
        {
            &&& #[trigger] decodes_to(bytes, source_format(src)->0, img)
            &&& is_rendering(
                img,
                orientation_from(exif_orientation_value(bytes)),
                thumb_format(thumb_extension(dst)),
                r,
            )
        }
    &&& !is_readable(bytes, src) ==> r == Err::<Thumb, ThumbError>(ThumbError::Decode)
}

/// Makes the thumbnail `dst` of the image `src`, given the bytes of the image.
/// The thumbnail is turned as it is shown, and no larger than
/// [`THUMB_MAX_DIM`]; the size reported is that of the image, turned likewise.
/// There is none where the source does not decode.
pub fn generate_image_thumb(bytes: &[u8], src: &str, dst: &str) -> (r: Result<
    ImageThumb,
    ThumbError,
>)
    ensures
        is_readable(bytes@, src@) ==> exists|img: DynamicImage|
            {
                &&& #[trigger] decodes_to(bytes@, source_format(src@)->0, img)
                &&& is_rendering(
                    img,
                    orientation_from(exif_orientation_value(bytes@)),
                    thumb_format(thumb_extension(dst@)),
                    thumb_view(r),
                )
            },
        !is_readable(bytes@, src@) ==> thumb_view(r) == Err::<Thumb, ThumbError>(
            ThumbError::Decode,
        ),
        r is Ok ==> shown_size(bytes@, src@) == Some((r->Ok_0.width, r->Ok_0.height)),
        is_thumbnail_of(bytes@, src@, dst@, thumb_view(r)),
{
    let source = match format_of_source(src) {
        Some(source) => source,
        None => return Err(ThumbError::Decode),
    };
    let orientation = exif_orientation(bytes);
    let format = encoder_for(&text::to_lowercase(&util::name_parts(dst).1));
    let decoded = decode_image(bytes, source);
    proof {
        if decoded is Some {
            assert(decodes_to(bytes@, source, decoded->0));
        }
    }
    render_thumb(decoded, orientation, format)
}

/// Whether `r` is what comes of scaling a frame down: nothing where it is small
/// enough.
pub open spec fn is_scaling(frame: DynamicImage, r: Result<Option<Vec<u8>>, ThumbError>) -> bool {
    if is_too_large(size_of_image(frame)) {
        exists|small: DynamicImage|
            {
                &&& is_thumb_of(frame, small)
                &&& match #[trigger] written(small, ThumbFormat::Jpeg) {
                    Some(out) => r is Ok && bytes_view(r->Ok_0) == Some(out),
                    None => r is Err && r->Err_0 == ThumbError::Encode,
                }
            }
    } else {
        r is Ok && r->Ok_0 is None
    }
}

/// Scales a decoded frame down to the size of a thumbnail. A frame that is small
/// enough, or could not be read, is to be kept as it is, and nothing is returned.
pub fn scale_frame(decoded: Option<DynamicImage>) -> (r: Result<Option<Vec<u8>>, ThumbError>)
    ensures
        match decoded {
            None => r is Ok && r->Ok_0 is None,
            Some(frame) => is_scaling(frame, r),
        },
{
    let frame = match decoded {
        Some(frame) => frame,
        None => return Ok(None),
    };
    if !needs_resize(size_of(&frame)) {
        return Ok(None);
    }
    let small = resize(&frame, THUMB_MAX_DIM, THUMB_MAX_DIM);
    let out = write_thumb(&small, ThumbFormat::Jpeg);
    proof {
        assert(is_thumb_of(frame, small));
        assert(bytes_view(out) == written(small, ThumbFormat::Jpeg));
    }
    match out {
        Some(out) => Ok(Some(out)),
        None => Err(ThumbError::Encode),
    }
}

/// Whether the bytes are those of a frame that has to be scaled down: they decode,
/// and their header gives a size larger than a thumbnail.
pub open spec fn is_large_frame(bytes: Seq<u8>) -> bool {
    &&& decodes(bytes, ThumbFormat::Jpeg)
    &&& image_size(bytes, ThumbFormat::Jpeg) is Some
    &&& is_too_large(image_size(bytes, ThumbFormat::Jpeg)->0)
}

/// Scales the poster frame of a video down to the size of a thumbnail, given the
/// bytes of the frame. A frame that is small enough, or cannot be read, is kept
/// as it is, and nothing is returned.
pub fn fit_poster(bytes: &[u8]) -> (r: Result<Option<Vec<u8>>, ThumbError>)
    ensures
        is_large_frame(bytes@) ==> exists|frame: DynamicImage|
            {
                &&& #[trigger] decodes_to(bytes@, ThumbFormat::Jpeg, frame)
                &&& image_size(bytes@, ThumbFormat::Jpeg) == Some(size_of_image(frame))
                &&& is_scaling(frame, r)
            },
        !is_large_frame(bytes@) ==> r is Ok && r->Ok_0 is None,
{
    let decoded = decode_image(bytes, ThumbFormat::Jpeg);
    proof {
        if decoded is Some {
            assert(decodes_to(bytes@, ThumbFormat::Jpeg, decoded->0));
        }
    }
    scale_frame(decoded)
}

/// No thumbnail is larger than the bound.
pub proof fn law_thumbnails_fit(img: DynamicImage, thumb: DynamicImage)
    requires
        is_thumb_of(img, thumb),
    ensures
        size_of_image(thumb).0 <= THUMB_MAX_DIM,
        size_of_image(thumb).1 <= THUMB_MAX_DIM,
{
}

/// Turning an image back and forth by a quarter restores its size, and the other
/// orientations keep it.
pub proof fn law_turning_twice_restores_the_size(size: (u32, u32), orientation: Orientation)
    ensures
        oriented_size(oriented_size(size, orientation), orientation) == size,
        !transposes(orientation) ==> oriented_size(size, orientation) == size,
{
}

/// Where the thumbnail of a file belongs.
pub struct ThumbPlace {
    /// The folder of thumbnails.
    pub dir: String,
    /// The thumbnail.
    pub file: String,
}

/// The folder of thumbnails beside the file at `src`.
pub open spec fn thumbs_dir_of(src: Seq<char>) -> Option<Seq<char>> {
    match path::parent_of(src) {
        Some(parent) => Some(path::joined(parent, "thumbs"@)),
        None => None,
    }
}

/// The name of the file at `src`, empty where it has none.
pub open spec fn name_of(src: Seq<char>) -> Seq<char> {
    match path::file_name_of(src) {
        Some(name) => name,
        None => Seq::<char>::empty(),
    }
}

/// Where the thumbnail called after `name` belongs for the file at `src`, nothing
/// where `src` has no folder.
pub open spec fn place_of(src: Seq<char>, name: Seq<char>) -> Option<(Seq<char>, Seq<char>)> {
    match thumbs_dir_of(src) {
        Some(dir) => Some((dir, path::joined(dir, util::thumb_name_of(name)))),
        None => None,
    }
}

/// The paths of a place.
pub open spec fn place_view(place: Option<ThumbPlace>) -> Option<(Seq<char>, Seq<char>)> {
    match place {
        Some(place) => Some((place.dir@, place.file@)),
        None => None,
    }
}

fn place_for(src: &str, name: Option<String>) -> (r: Option<ThumbPlace>)
    ensures
        place_view(r) == place_of(
            src@,
            match name {
                Some(name) => name@,
                None => Seq::<char>::empty(),
            },
        ),
{
    let name = match name {
        Some(name) => name,
        None => String::new(),
    };
    match path::parent(src) {
        Some(parent) => {
            let dir = path::join_path(&parent, "thumbs");
            let file = path::join_path(&dir, &util::thumb_name(&name));
            Some(ThumbPlace { dir, file })
        },
        None => None,
    }
}

/// Where the thumbnail of the file at `src` belongs.
pub open spec fn own_place(src: Seq<char>) -> Option<(Seq<char>, Seq<char>)> {
    place_of(src, name_of(src))
}

/// Where the thumbnail of the file `rel` of the album at `root` lies.
pub open spec fn place_in_album(root: Seq<char>, rel: Seq<char>) -> Option<
    (Seq<char>, Seq<char>),
> {
    place_of(path::joined(root, rel), name_of(rel))
}

/// Where the thumbnail of the file at `src` belongs, nothing where `src` has no
/// folder.
pub fn thumb_place(src: &str) -> (r: Option<ThumbPlace>)
    ensures
        place_view(r) == place_of(src@, name_of(src@)),
        place_view(r) == own_place(src@),
{
    place_for(src, path::file_name(src))
}

/// Decides which thumbnail goes with the deleted file `rel` of the album at
/// `root`.
pub fn delete_thumb(root: &str, rel: &str) -> (r: Option<ThumbPlace>)
    ensures
        place_view(r) == place_of(path::joined(root@, rel@), name_of(rel@)),
        place_view(r) == place_in_album(root@, rel@),
{
    place_for(&path::join_path(root, rel), path::file_name(rel))
}

/// The name of a temporary file for the thumbnail `name`.
pub open spec fn tmp_name(n: u64, name: Seq<char>) -> Seq<char> {
    seq!['.'] + text::decimal(n as nat) + seq!['.'] + name + ".tmp"@
}

/// Numbers temporary files, so that no two jobs share one.
pub struct TmpNames {
    next: u64,
}

impl View for TmpNames {
    type V = u64;

    /// The number of the next file.
    closed spec fn view(&self) -> u64 {
        self.next
    }
}

impl TmpNames {
    /// Numbers start at zero.
    pub fn new() -> (r: Self)
        ensures
            r@ == 0,
    {
        TmpNames { next: 0 }
    }

    /// A path beside `dst` for writing it under another name. The name is hidden
    /// from listings and scans.
    pub fn tmp_path(&mut self, dst: &str) -> (r: String)
        ensures
            r@ == path::with_name(dst@, tmp_name(old(self)@, name_of(dst@))),
            final(self)@ == if old(self)@ == u64::MAX {
                0
            } else {
                (old(self)@ + 1) as u64
            },
    {
        let n: u64 = self.next;
        self.next = n.wrapping_add(1);
        let name = match path::file_name(dst) {
            Some(name) => name,
            None => String::new(),
        };
        let mut tmp: Vec<char> = Vec::new();
        tmp.push('.');
        let digits = text::decimal_chars(n);
        text::extend_chars(&mut tmp, &digits);
        tmp.push('.');
        text::extend_chars(&mut tmp, &text::to_chars(&name));
        text::extend_chars(&mut tmp, &text::to_chars(".tmp"));
        proof {
            assert(name@ =~= name_of(dst@));
            assert(tmp@ =~= tmp_name(n, name_of(dst@)));
        }
        path::with_file_name(dst, &text::from_chars(&tmp))
    }
}

/// A temporary file is hidden: its name begins with a dot.
pub proof fn law_temporary_files_are_hidden(n: u64, name: Seq<char>)
    ensures
        tmp_name(n, name)[0] == '.',
        crate::entry::is_passed_over(tmp_name(n, name)),
{
}

proof fn lemma_decimal(n: nat)
    ensures
        text::decimal(n).len() > 0,
        !text::decimal(n).contains('.'),
    decreases n,
{
    if n >= 10 {
        lemma_decimal(n / 10);
        let front = text::decimal(n / 10);
        let all = text::decimal(n);
        if all.contains('.') {
            let i = choose|i: int| 0 <= i < all.len() && all[i] == '.';
            if i < front.len() {
                assert(front[i] == '.');
                assert(front.contains('.'));
            }
        }
    }
}

proof fn lemma_decimal_injective(n: nat, m: nat)
    requires
        text::decimal(n) == text::decimal(m),
    ensures
        n == m,
    decreases n,
{
    lemma_decimal(n / 10);
    lemma_decimal(m / 10);
    let d = text::decimal(n);
    let e = text::decimal(m);
    assert(d.last() as int == 48 + n % 10);
    assert(e.last() as int == 48 + m % 10);
    if n >= 10 && m >= 10 {
        assert(text::decimal(n / 10) =~= d.drop_last());
        assert(text::decimal(m / 10) =~= e.drop_last());
        lemma_decimal_injective(n / 10, m / 10);
    } else {
        assert(n >= 10 ==> d.len() >= 2);
        assert(m >= 10 ==> e.len() >= 2);
    }
}

/// Two temporary files of the same thumbnail never share a name, as long as
/// their numbers differ.
pub proof fn law_temporary_files_are_unique(n: u64, m: u64, name: Seq<char>)
    requires
        n != m,
    ensures
        tmp_name(n, name) != tmp_name(m, name),
{
    if tmp_name(n, name) == tmp_name(m, name) {
        let d = text::decimal(n as nat);
        let e = text::decimal(m as nat);
        let a = tmp_name(n, name);
        let b = tmp_name(m, name);
        lemma_decimal(n as nat);
        lemma_decimal(m as nat);
        assert(a.len() == b.len());
        assert(d.len() == e.len());
        assert(d =~= a.subrange(1, 1 + d.len() as int));
        assert(e =~= b.subrange(1, 1 + e.len() as int));
        lemma_decimal_injective(n as nat, m as nat);
    }
}

/// A temporary file stands beside its thumbnail.
pub proof fn law_temporary_files_stand_beside_the_target(dst: Seq<char>, n: u64)
    requires
        path::file_name_of(dst) is Some,
    ensures
        path::with_name(dst, tmp_name(n, name_of(dst))) == path::joined(
            path::parent_of(dst)->0,
            tmp_name(n, name_of(dst)),
        ),
{
}

/// Whether `thumb` shows the whole of `img`: scaled to 400 pixels where either side
/// is longer, and else unchanged.
pub open spec fn shows(img: DynamicImage, thumb: DynamicImage) -> bool {
    if size_of_image(img).0 <= 400 && size_of_image(img).1 <= 400 {
        thumb == img
    } else {
        &&& resizes_to(img, 400, 400, thumb)
        &&& 1 <= size_of_image(thumb).0 <= 400 && 1 <= size_of_image(thumb).1 <= 400
    }
}

/// Whether `out` is a thumbnail written as a file: a JPEG at a quality of 85, and
/// any other format as it is.
pub open spec fn is_file_of(
    thumb: DynamicImage,
    format: ThumbFormat,
    out: Option<Seq<u8>>,
) -> bool {
    match format {
        ThumbFormat::Jpeg => out == encoded_jpeg(thumb, 85),
        ThumbFormat::Png => out == encoded(thumb, ThumbFormat::Png),
        ThumbFormat::WebP => out == encoded(thumb, ThumbFormat::WebP),
    }
}

/// A thumbnail shows the image as a viewer sees it: turned by its orientation,
/// whichever of the eight that is, and the size reported is that of the turned
/// image. What is kept is the file of such a thumbnail. Only a file that could not be
/// written, or a JPEG of less than a kilobyte, is an error.
pub proof fn law_a_thumbnail_shows_the_turned_image(
    img: DynamicImage,
    orientation: Orientation,
    format: ThumbFormat,
    r: Result<Thumb, ThumbError>,
)
    requires
        is_rendering(img, orientation, format, r),
    ensures
        exists|thumb: DynamicImage, out: Option<Seq<u8>>|
            #![trigger shows(turned_image(img, orientation), thumb), is_file_of(thumb, format, out)]
            {
                &&& shows(turned_image(img, orientation), thumb)
                &&& is_file_of(thumb, format, out)
                &&& match r {
                    Ok(kept) => out == Some(kept.bytes) && (format is Jpeg ==> kept.bytes.len()
                        >= 1024),
                    Err(e) => out is None && e is Encode || out is Some && format is Jpeg
                        && out->0.len() < 1024 && e is TooSmall,
                }
            },
        r matches Ok(kept) ==> match orientation {
            Orientation::NoTransforms
            | Orientation::Rotate180
            | Orientation::FlipHorizontal
            | Orientation::FlipVertical => (kept.width, kept.height) == size_of_image(img),
            Orientation::Rotate90
            | Orientation::Rotate270
            | Orientation::Rotate90FlipH
            | Orientation::Rotate270FlipH => (kept.height, kept.width) == size_of_image(img),
        },
{
    let turned = turned_image(img, orientation);
    let thumb = choose|thumb: DynamicImage|
        {
            &&& is_thumb_of(turned, thumb)
            &&& r == judged(
                #[trigger] written(thumb, format),
                format,
                oriented_size(size_of_image(img), orientation),
            )
        };
    let out = written(thumb, format);
    assert(shows(turned, thumb));
    assert(is_file_of(thumb, format, out));
}

/// The frame of a video is scaled like an image, and is kept as it is where it is
/// small enough.
pub proof fn law_a_poster_shows_the_frame(
    frame: DynamicImage,
    r: Result<Option<Vec<u8>>, ThumbError>,
)
    requires
        is_scaling(frame, r),
    ensures
        size_of_image(frame).0 <= 400 && size_of_image(frame).1 <= 400 ==> r is Ok && r->Ok_0
            is None,
        size_of_image(frame).0 > 400 || size_of_image(frame).1 > 400 ==> exists|
            thumb: DynamicImage,
        |
            #[trigger] shows(frame, thumb) && match r {
                Ok(out) => out is Some && encoded_jpeg(thumb, 85) == Some(out->0@),
                Err(e) => encoded_jpeg(thumb, 85) is None && e is Encode,
            },
{
    if is_too_large(size_of_image(frame)) {
        let small = choose|small: DynamicImage|
            {
                &&& is_thumb_of(frame, small)
                &&& match #[trigger] written(small, ThumbFormat::Jpeg) {
                    Some(out) => r is Ok && bytes_view(r->Ok_0) == Some(out),
                    None => r is Err && r->Err_0 == ThumbError::Encode,
                }
            };
        assert(shows(frame, small));
    }
}

/// Which way up an image is shown, by the value of its orientation field: one to
/// eight each stand for a turn of their own, and anything else, or no value at all,
/// for none. Of a value only the low byte counts.
pub proof fn law_orientations_by_value(high: u32, low: u32)
    requires
        low < 256,
        high < 0x100_0000,
    ensures
        ({
            let o = orientation_from(Some((high * 256 + low) as u32));
            &&& o is FlipHorizontal <==> low == 2
            &&& o is Rotate180 <==> low == 3
            &&& o is FlipVertical <==> low == 4
            &&& o is Rotate90FlipH <==> low == 5
            &&& o is Rotate90 <==> low == 6
            &&& o is Rotate270FlipH <==> low == 7
            &&& o is Rotate270 <==> low == 8
            &&& o is NoTransforms <==> low < 2 || low > 8
        }),
        orientation_from(None) is NoTransforms,
{
    assert((high * 256 + low) % 256 == low);
}

/// A thumbnail is written in the format its extension names, and JPEG where that is
/// neither PNG nor WebP; and a source is read as what its extension names.
pub proof fn law_formats_follow_the_extension(stem: Seq<char>, ext: Seq<char>)
    requires
        stem.len() > 0,
        ext.len() > 0,
        !stem.contains('/'),
        !ext.contains('/'),
        !ext.contains('.'),
    ensures
        ({
            let name = stem + "."@ + ext;
            let key = text::lowercase(ext);
            &&& thumb_format(thumb_extension(name)) is Png <==> key == "png"@
            &&& thumb_format(thumb_extension(name)) is WebP <==> key == "webp"@
            &&& source_format(name) == extension_format(ext)
        }),
{
    reveal_strlit("png");
    reveal_strlit("webp");
    assert("png"@.len() != "webp"@.len());
    util::lemma_name_parts(stem, ext);
}

/// The thumbnail of an image is of the same format as the image: it is written as
/// what its source is read as.
pub proof fn law_a_thumbnail_keeps_the_format(stem: Seq<char>, ext: Seq<char>)
    requires
        stem.len() > 0,
        ext.len() > 0,
        !stem.contains('/'),
        !ext.contains('/'),
        !ext.contains('.'),
        vstd::utf8::is_ascii_chars(ext),
        util::image_name(stem + "."@ + ext),
    ensures
        source_format(stem + "."@ + ext) == Some(
            thumb_format(thumb_extension(util::thumb_name_of(stem + "."@ + ext))),
        ),
{
    reveal_strlit("jpg");
    reveal_strlit("jpeg");
    reveal_strlit("png");
    reveal_strlit("webp");
    reveal_strlit("apng");
    reveal_strlit("jfif");
    reveal_strlit("_thumb.");
    reveal_strlit(".");
    reveal_strlit("_thumb");
    let name = stem + "."@ + ext;
    let key = text::lowercase(ext);
    util::lemma_name_parts(stem, ext);
    util::law_media_are_told_by_their_extension(stem, ext);
    util::law_images_and_videos_are_disjoint(name);
    let base = stem + "_thumb"@;
    assert(!base.contains('/')) by {
        if base.contains('/') {
            let k = choose|k: int| 0 <= k < base.len() && base[k] == '/';
            if k < stem.len() {
                assert(stem[k] == '/');
            }
        }
    }
    assert(util::thumb_name_of(name) =~= base + "."@ + key);
    util::lemma_name_parts(base, key);
    assert(key == text::ascii_folded(ext));
    assert(text::lowercase(key) =~= key);
    assert("png"@[0] != "jpg"@[0] && "png"@.len() == 3 && "webp"@[0] != "jpeg"@[0]);
    assert("webp"@[0] != "apng"@[0] && "webp"@[0] != "jfif"@[0]);
    assert("jpeg"@[1] != "jfif"@[1] && "jpeg"@[0] != "apng"@[0]);
}

/// The thumbnail of a file lies in `thumbs` beside it, and the thumbnail that goes
/// with a deleted file is that same one.
pub proof fn law_thumbnails_lie_beside_their_source(
    root: Seq<char>,
    dir: Seq<char>,
    name: Seq<char>,
)
    requires
        path::is_plain_path(root),
        path::is_plain_path(dir),
        path::is_plain(name),
        !name.contains('/'),
        name != path::dot_dot(),
    ensures
        ({
            let folder = "/"@ + root + "/"@ + dir;
            let rel = dir + "/"@ + name;
            let place = Some(
                (folder + "/thumbs"@, folder + "/thumbs/"@ + util::thumb_name_of(name)),
            );
            &&& path::joined("/"@ + root, rel) == folder + "/"@ + name
            &&& own_place(folder + "/"@ + name) == place
            &&& place_in_album("/"@ + root, rel) == place
        }),
{
    reveal_strlit("/");
    reveal_strlit("thumbs");
    reveal_strlit("/thumbs");
    reveal_strlit("/thumbs/");
    let rel = dir + "/"@ + name;
    let folder = "/"@ + root + "/"@ + dir;
    let inner = root + "/"@ + dir;
    assert(inner =~= root.push('/') + dir);
    text::lemma_split_append(root, dir, '/');
    assert(path::is_plain_path(inner)) by {
        let a = path::segments(root);
        let b = path::segments(dir);
        assert forall|i: int| 0 <= i < path::segments(inner).len() implies path::is_plain(
            #[trigger] path::segments(inner)[i],
        ) by {
            if i < a.len() {
                assert(path::segments(inner)[i] == a[i]);
            } else {
                assert(path::segments(inner)[i] == b[i - a.len()]);
            }
        }
    }
    assert(folder =~= "/"@ + inner);
    path::law_a_file_lies_in_its_folder(inner, name);
    path::lemma_last_name(dir, name);
    path::law_a_file_lies_in_its_folder(dir, name);
    path::lemma_plain_path(dir);
    path::lemma_first_char(dir);
    assert(rel[0] == dir[0]);
    path::lemma_join_names(root, rel);
    path::lemma_join_names(inner, "thumbs"@);
    let thumbs = folder + "/thumbs"@;
    assert(path::joined(folder, "thumbs"@) =~= thumbs);
    let file = util::thumb_name_of(name);
    assert(path::joined(thumbs, file) =~= thumbs + "/"@ + file) by {
        lemma_thumb_name_is_no_root(name);
        assert(thumbs.last() != '/');
    }
    assert(thumbs + "/"@ + file =~= folder + "/thumbs/"@ + file);
    assert(path::joined("/"@ + root, rel) =~= folder + "/"@ + name);
}

/// The thumbnail name of a bare name does not begin with a separator.
proof fn lemma_thumb_name_is_no_root(name: Seq<char>)
    requires
        !name.contains('/'),
    ensures
        !(util::thumb_name_of(name).len() > 0 && util::thumb_name_of(name)[0] == '/'),
{
    reveal_strlit("_thumb.");
    reveal_strlit("_thumb.jpg");
    text::lemma_split_plain(name, '/');
    let parts = path::segments(name);
    assert(parts.drop_first() =~= Seq::<Seq<char>>::empty());
    assert(path::body(parts).last() == name);
    let pieces = text::split(name, '.');
    text::lemma_split_pieces(name, '.');
    text::lemma_join_split(name, '.');
    let stem = util::stem_of(name);
    if stem.len() > 0 {
        if pieces.len() > 1 && stem != name {
            assert(name =~= stem.push('.') + pieces.last());
        }
        assert(stem[0] == name[0]);
        assert(name.contains(name[0]));
    }
}

/// The thumbnail of a file is made of what the file decodes to, as the format its
/// name says, turned as its orientation field says; and no file but one that does
/// not decode is refused as unreadable.
pub proof fn law_a_file_gives_its_own_thumbnail(
    bytes: Seq<u8>,
    src: Seq<char>,
    dst: Seq<char>,
    r: Result<Thumb, ThumbError>,
)
    requires
        is_thumbnail_of(bytes, src, dst, r),
    ensures
        r matches Err(e) && e is Decode <==> source_format(src) is None || !(exists|
            img: DynamicImage,
        |
            #[trigger] decodes_to(bytes, source_format(src)->0, img)),
        r matches Ok(kept) ==> exists|img: DynamicImage, thumb: DynamicImage|
            #![trigger decodes_to(bytes, source_format(src)->0, img), is_file_of(
                thumb,
                thumb_format(thumb_extension(dst)),
                Some(kept.bytes),
            )]
            {
                &&& decodes_to(bytes, source_format(src)->0, img)
                &&& shows(
                    turned_image(img, orientation_from(exif_orientation_value(bytes))),
                    thumb,
                )
                &&& is_file_of(thumb, thumb_format(thumb_extension(dst)), Some(kept.bytes))
            },
{
    if is_readable(bytes, src) {
        let o = orientation_from(exif_orientation_value(bytes));
        let format = thumb_format(thumb_extension(dst));
        let img = choose|img: DynamicImage|
            {
                &&& #[trigger] decodes_to(bytes, source_format(src)->0, img)
                &&& is_rendering(img, o, format, r)
            };
        law_a_thumbnail_shows_the_turned_image(img, o, format, r);
        if r is Ok {
            let (thumb, out) = choose|thumb: DynamicImage, out: Option<Seq<u8>>|
                #![trigger shows(turned_image(img, o), thumb), is_file_of(thumb, format, out)]
                {
                    &&& shows(turned_image(img, o), thumb)
                    &&& is_file_of(thumb, format, out)
                    &&& match r {
                        Ok(kept) => out == Some(kept.bytes) && (format is Jpeg ==> kept.bytes.len()
                            >= 1024),
                        Err(e) => out is None && e is Encode || out is Some && format is Jpeg
                            && out->0.len() < 1024 && e is TooSmall,
                    }
                };
            assert(is_file_of(thumb, format, Some(r->Ok_0.bytes)));
        }
    }
}

/// The dimensions of a file are those its header gives, exchanged where its
/// orientation field is one of the four that turn it on its side.
pub proof fn law_dimensions_are_those_a_viewer_sees(bytes: Seq<u8>, name: Seq<char>)
    ensures
        ({
            let format = source_format(name);
            let size = image_size(bytes, format->0);
            let value = exif_orientation_value(bytes);
            let on_its_side = value is Some && 5 <= value->0 % 256 <= 8;
            &&& shown_size(bytes, name) is Some <==> format is Some && size is Some
            &&& format is Some ==> match size {
                Some((width, height)) => shown_size(bytes, name) == Some(
                    if on_its_side {
                        (height, width)
                    } else {
                        (width, height)
                    },
                ),
                None => true,
            }
        }),
{
}

/// A child process that has ended is never killed, one that has not is killed from
/// its limit on, and before that it is looked at again after 20 milliseconds.
pub proof fn law_a_child_is_killed_at_its_limit(elapsed_ms: u64, limit_ms: u64)
    ensures
        poll_step(true, elapsed_ms, limit_ms) is Done,
        poll_step(false, elapsed_ms, limit_ms) is Kill <==> elapsed_ms >= limit_ms,
        elapsed_ms < limit_ms ==> poll_step(false, elapsed_ms, limit_ms) == PollStep::Wait(20),
{
}

} // verus!
