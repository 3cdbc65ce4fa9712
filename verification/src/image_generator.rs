//! The dimensions and the drawing rules of the renderer that turns a point set
//! into a picture.
//!
//! The renderer itself scales coordinates, resamples and encodes, which is
//! rounding arithmetic and the work of an image codec. What is kept here is
//! what it decides in whole numbers: how large the picture and its working
//! canvas are, how large the mark of a point is and which pixels it covers,
//! and what a finished request reports.
use vstd::prelude::*;
use vstd::string::StringExecFns;

verus! {

/// Side of the picture where the caller names none.
pub const DEFAULT_SIDE: u32 = 150;

/// Least side of the working canvas.
pub const MIN_BASE_SIDE: u32 = 50;

/// Greatest side of the working canvas.
pub const MAX_BASE_SIDE: u32 = 500;

/// The key for which the renderer draws its built-in sample and asks no
/// service.
pub const SAMPLE_KEY: &'static str = "sample_test_key";

/// What stands before the encoded picture in its data URL.
pub const JPEG_URL_PREFIX: &'static str = "data:image/jpeg;base64,";

/// The character for a group of six bits, in the standard alphabet: the
/// capitals, the small letters, the digits, `+` and `/`.
pub open spec fn base64_digit(group: int) -> char {
    if group < 26 {
        (65 + group) as u8 as char
    } else if group < 52 {
        (71 + group) as u8 as char
    } else if group < 62 {
        (group - 4) as u8 as char
    } else if group == 62 {
        '+'
    } else {
        '/'
    }
}

/// The bytes in base64 with the standard alphabet and padding: four
/// characters for every three bytes, and for a last one or two bytes two or
/// three characters filled up with `=`.
pub open spec fn base64_text(bytes: Seq<u8>) -> Seq<char>
    decreases bytes.len(),
{
    let first = bytes[0] as int;
    let second = bytes[1] as int;
    let third = bytes[2] as int;
    if bytes.len() == 0 {
        Seq::<char>::empty()
    } else if bytes.len() == 1 {
        seq![base64_digit(first / 4), base64_digit(first % 4 * 16), '=', '=']
    } else if bytes.len() == 2 {
        seq![
            base64_digit(first / 4),
            base64_digit(first % 4 * 16 + second / 16),
            base64_digit(second % 16 * 4),
            '=',
        ]
    } else {
        seq![
            base64_digit(first / 4),
            base64_digit(first % 4 * 16 + second / 16),
            base64_digit(second % 16 * 4 + third / 64),
            base64_digit(third % 64),
        ] + base64_text(bytes.skip(3))
    }
}

/// The number of characters that `n` bytes take in base64: four for every
/// three bytes or part of three.
pub open spec fn base64_length(n: nat) -> nat {
    (n + 2) / 3 * 4
}

/// The text of bytes in base64 has the length that `base64_length` gives.
pub proof fn law_base64_length(bytes: Seq<u8>)
    ensures
        base64_text(bytes).len() == base64_length(bytes.len()),
    decreases bytes.len(),
{
    if bytes.len() >= 3 {
        law_base64_length(bytes.skip(3));
    }
}

/// `base64::Engine::encode` of the engine `general_purpose::STANDARD`: the
/// contract claims that it returns the bytes in base64 with the alphabet of
/// RFC 4648 and with padding. It is asked only for inputs whose encoded
/// length fits a `usize`, as the crate panics on the others.
#[verifier::external_body]
fn encode_standard(bytes: &Vec<u8>) -> (text: String)
    requires
        base64_length(bytes.len() as nat) <= usize::MAX,
    ensures
        text@ == base64_text(bytes@),
{
    base64::Engine::encode(&base64::engine::general_purpose::STANDARD, bytes)
}

/// The data URL of an encoded JPEG picture.
pub fn encode_image_to_base64(jpeg: &Vec<u8>) -> (url: String)
    requires
        base64_length(jpeg.len() as nat) <= usize::MAX,
    ensures
        url@ == JPEG_URL_PREFIX@ + base64_text(jpeg@),
{
    let text = encode_standard(jpeg);
    String::from_str(JPEG_URL_PREFIX).concat(text.as_str())
}

/// What a request for a picture reports: the picture, encoded, or why there
/// is none.
#[derive(Clone, Debug, PartialEq, Eq)]
pub struct ImageResult {
    pub success: bool,
    pub image_base64: Option<String>,
    pub error: Option<String>,
}

/// A renderer of pictures of a given width and height.
#[derive(Clone, Copy, Debug, PartialEq, Eq)]
pub struct ImageGenerator {
    width: u32,
    height: u32,
}

impl ImageResult {
    /// The report of a picture that was made.
    pub fn succeeded(image_base64: String) -> (r: ImageResult)
        ensures
            r.success,
            r.image_base64 == Some(image_base64),
            r.error is None,
    {
        ImageResult { success: true, image_base64: Some(image_base64), error: None }
    }

    /// The report of a picture that could not be made.
    pub fn failed(error: String) -> (r: ImageResult)
        ensures
            !r.success,
            r.image_base64 is None,
            r.error == Some(error),
    {
        ImageResult { success: false, image_base64: None, error: Some(error) }
    }
}

/// Pixel `a` comes before pixel `b` when the canvas is read column by column.
pub open spec fn column_order(a: (u32, u32), b: (u32, u32)) -> bool {
    a.0 < b.0 || (a.0 == b.0 && a.1 < b.1)
}

/// The pixel lies on the canvas and within `half` pixels of the centre along
/// both axes.
pub open spec fn in_mark(
    x: int,
    y: int,
    centre_x: int,
    centre_y: int,
    half: int,
    width: int,
    height: int,
) -> bool {
    &&& 0 <= x < width
    &&& 0 <= y < height
    &&& centre_x - half <= x <= centre_x + half
    &&& centre_y - half <= y <= centre_y + half
}

impl ImageGenerator {
    /// The key asks for the built-in sample.
    pub fn uses_sample_data(image_key: &String) -> (r: bool)
        ensures
            r == (image_key@ == SAMPLE_KEY@),
    {
        *image_key == String::from_str(SAMPLE_KEY)
    }

    /// The width of the pictures, in pixels.
    pub closed spec fn spec_width(&self) -> u32 {
        self.width
    }

    /// The height of the pictures, in pixels.
    pub closed spec fn spec_height(&self) -> u32 {
        self.height
    }

    /// A renderer of pictures of this width and height.
    pub fn new(width: u32, height: u32) -> (generator: Self)
        ensures
            generator.spec_width() == width,
            generator.spec_height() == height,
    {
        Self { width, height }
    }

    /// The width of the pictures, in pixels.
    #[verifier::when_used_as_spec(spec_width)]
    pub fn width(&self) -> (w: u32)
        ensures
            w == self.spec_width(),
    {
        self.width
    }

    /// The height of the pictures, in pixels.
    #[verifier::when_used_as_spec(spec_height)]
    pub fn height(&self) -> (h: u32)
        ensures
            h == self.spec_height(),
    {
        self.height
    }

    /// The side of the working canvas along an axis, from ten times the range
    /// of the data along it: that number, but no less than 50 and no more
    /// than 500.
    pub fn base_resolution(scaled_range: u32) -> (side: u32)
        ensures
            MIN_BASE_SIDE <= side <= MAX_BASE_SIDE,
            MIN_BASE_SIDE <= scaled_range <= MAX_BASE_SIDE ==> side == scaled_range,
            scaled_range < MIN_BASE_SIDE ==> side == MIN_BASE_SIDE,
            scaled_range > MAX_BASE_SIDE ==> side == MAX_BASE_SIDE,
    {
        if scaled_range < MIN_BASE_SIDE {
            MIN_BASE_SIDE
        } else if scaled_range > MAX_BASE_SIDE {
            MAX_BASE_SIDE
        } else {
            scaled_range
        }
    }

    /// The side of the square that marks a point: a tenth of the shorter side
    /// of the canvas, and at least one pixel.
    pub open spec fn spec_point_size(img_width: u32, img_height: u32) -> u32 {
        let tenth = if img_width / 10 <= img_height / 10 {
            img_width / 10
        } else {
            img_height / 10
        };
        if tenth >= 1 {
            tenth
        } else {
            1
        }
    }

    /// The side of the square that marks a point.
    #[verifier::when_used_as_spec(spec_point_size)]
    pub fn point_size(img_width: u32, img_height: u32) -> (size: u32)
        ensures
            size == Self::spec_point_size(img_width, img_height),
    {
        let across = img_width / 10;
        let down = img_height / 10;
        let tenth = if across <= down {
            across
        } else {
            down
        };
        if tenth >= 1 {
            tenth
        } else {
            1
        }
    }

    /// The pixels that the mark of a point covers: those of the canvas within
    /// half the point size of the centre, each once, column by column.
    pub fn point_pixels(pixel_x: u32, pixel_y: u32, img_width: u32, img_height: u32) -> (pixels:
        Vec<(u32, u32)>)
        ensures
            forall|i: int, j: int|
                0 <= i < j < pixels.len() ==> column_order(#[trigger] pixels[i], #[trigger] pixels[j]),
            forall|x: u32, y: u32|
                #[trigger] pixels@.contains((x, y)) <==> in_mark(
                    x as int,
                    y as int,
                    pixel_x as int,
                    pixel_y as int,
                    (Self::spec_point_size(img_width, img_height) / 2) as int,
                    img_width as int,
                    img_height as int,
                ),
    {
        let half: i64 = (Self::point_size(img_width, img_height) / 2) as i64;
        let mut pixels: Vec<(u32, u32)> = Vec::new();
        let mut dx: i64 = -half;
        while dx <= half
            invariant
                0 <= half <= 0x7fff_ffff,
                half == Self::spec_point_size(img_width, img_height) / 2,
                -half <= dx <= half + 1,
                forall|i: int, j: int|
                    0 <= i < j < pixels.len() ==> column_order(
                        #[trigger] pixels[i],
                        #[trigger] pixels[j],
                    ),
                forall|x: u32, y: u32|
                    #[trigger] pixels@.contains((x, y)) <==> x < pixel_x + dx && in_mark(
                        x as int,
                        y as int,
                        pixel_x as int,
                        pixel_y as int,
                        half as int,
                        img_width as int,
                        img_height as int,
                    ),
            decreases half + 1 - dx,
        {
            let new_x: i64 = pixel_x as i64 + dx;
            let mut dy: i64 = -half;
            while dy <= half
                invariant
                    0 <= half <= 0x7fff_ffff,
                    -half <= dx <= half,
                    -half <= dy <= half + 1,
                    new_x == pixel_x + dx,
                    forall|i: int, j: int|
                        0 <= i < j < pixels.len() ==> column_order(
                            #[trigger] pixels[i],
                            #[trigger] pixels[j],
                        ),
                    forall|x: u32, y: u32|
                        #[trigger] pixels@.contains((x, y)) <==> (x < new_x || (x == new_x && y
                            < pixel_y + dy)) && in_mark(
                            x as int,
                            y as int,
                            pixel_x as int,
                            pixel_y as int,
                            half as int,
                            img_width as int,
                            img_height as int,
                        ),
                decreases half + 1 - dy,
            {
                let new_y: i64 = pixel_y as i64 + dy;
                if new_x >= 0 && new_x < img_width as i64 && new_y >= 0 && new_y < img_height as i64 {
                    let ghost before = pixels@;
                    let pixel = (new_x as u32, new_y as u32);
                    assert forall|i: int| 0 <= i < before.len() implies column_order(
                        #[trigger] before[i],
                        pixel,
                    ) by {
                        assert(before.contains((before[i].0, before[i].1)));
                    }
                    pixels.push(pixel);
                    assert forall|x: u32, y: u32| #[trigger]
                        pixels@.contains((x, y)) <==> (before.contains((x, y)) || (x, y)
                            == pixel) by {
                        if before.contains((x, y)) {
                            let i = choose|i: int| 0 <= i < before.len() && before[i] == (x, y);
                            assert(pixels@[i] == (x, y));
                        }
                        if (x, y) == pixel {
                            assert(pixels@[before.len() as int] == pixel);
                        }
                    }
                }
                dy = dy + 1;
            }
            dx = dx + 1;
        }
        pixels
    }
}

impl Default for ImageGenerator {
    fn default() -> (generator: Self)
        ensures
            generator.spec_width() == DEFAULT_SIDE,
            generator.spec_height() == DEFAULT_SIDE,
    {
        Self::new(DEFAULT_SIDE, DEFAULT_SIDE)
    }
}

} // verus!
