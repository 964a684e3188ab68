//! Images and access to their pixels.

use vstd::prelude::*;

verus! {

/// An image with three bytes (red, green, blue) per pixel, row by row.
pub struct RgbImage {
    width: u32,
    height: u32,
    raw: Vec<u8>,
}

/// The position of the first byte of pixel `(x, y)` in an image of the given width.
pub open spec fn pixel_offset(width: nat, x: int, y: int) -> int {
    3 * (y * width + x)
}

impl RgbImage {
    #[verifier::type_invariant]
    pub closed spec fn well_formed(self) -> bool {
        self.raw@.len() == 3 * (self.height * self.width)
    }

    pub closed spec fn spec_width(self) -> u32 {
        self.width
    }

    pub closed spec fn spec_height(self) -> u32 {
        self.height
    }

    /// The bytes of all pixels, row by row.
    pub closed spec fn bytes(self) -> Seq<u8> {
        self.raw@
    }

    /// The colour of pixel `(x, y)`.
    pub open spec fn pixel(self, x: int, y: int) -> (u8, u8, u8) {
        let i = pixel_offset(self.spec_width() as nat, x, y);
        (self.bytes()[i], self.bytes()[i + 1], self.bytes()[i + 2])
    }

    /// Every pixel is black.
    pub open spec fn black(self) -> bool {
        forall|x: int, y: int|
            0 <= x < self.spec_width() && 0 <= y < self.spec_height() ==> #[trigger] self.pixel(x, y) == (0u8, 0u8, 0u8)
    }

    /// A black image.
    pub fn new(width: u32, height: u32) -> (img: RgbImage)
        requires
            3 * (height * width) <= isize::MAX,
        ensures
            img.spec_width() == width,
            img.spec_height() == height,
            img.bytes() == Seq::new((3 * (height * width)) as nat, |i: int| 0u8),
            img.black(),
    {
        proof {
            assert(height * width <= 0xffff_ffff * 0xffff_ffff) by (nonlinear_arith)
                requires height <= 0xffff_ffff, width <= 0xffff_ffff;
        }
        let count: u64 = height as u64 * width as u64;
        let len: usize = 3 * count as usize;
        let raw: Vec<u8> = vec![0u8; len];
        assert(raw@ =~= Seq::new((3 * (height * width)) as nat, |i: int| 0u8));
        let img = RgbImage { width, height, raw };
        proof {
            assert forall|x: int, y: int| 0 <= x < width && 0 <= y < height implies #[trigger] img.pixel(x, y) == (
                0u8,
                0u8,
                0u8,
            ) by {
                lemma_pixel_inside(width as int, height as int, x, y);
            }
        }
        img
    }

    /// The image with the given bytes, where there are as many as its size asks for.
    pub fn from_raw(width: u32, height: u32, raw: Vec<u8>) -> (r: Option<RgbImage>)
        ensures
            r is Some <==> raw@.len() == 3 * (height * width),
            r matches Some(img) ==> {
                &&& img.spec_width() == width
                &&& img.spec_height() == height
                &&& img.bytes() == raw@
            },
    {
        proof {
            assert(height * width <= 0xffff_ffff * 0xffff_ffff) by (nonlinear_arith)
                requires height <= 0xffff_ffff, width <= 0xffff_ffff;
        }
        let count: u64 = height as u64 * width as u64;
        if raw.len() % 3 == 0 && (raw.len() / 3) as u64 == count {
            Some(RgbImage { width, height, raw })
        } else {
            None
        }
    }

    pub fn width(&self) -> (r: u32)
        ensures
            r == self.spec_width(),
    {
        self.width
    }

    pub fn height(&self) -> (r: u32)
        ensures
            r == self.spec_height(),
    {
        self.height
    }

    pub fn dimensions(&self) -> (r: (u32, u32))
        ensures
            r == (self.spec_width(), self.spec_height()),
    {
        (self.width, self.height)
    }

    pub fn as_raw(&self) -> (r: &Vec<u8>)
        ensures
            r@ == self.bytes(),
            r@.len() == 3 * (self.spec_height() * self.spec_width()),
    {
        proof {
            use_type_invariant(self);
        }
        &self.raw
    }

    pub fn get_pixel(&self, x: u32, y: u32) -> (p: (u8, u8, u8))
        requires
            x < self.spec_width(),
            y < self.spec_height(),
        ensures
            p == self.pixel(x as int, y as int),
    {
        proof {
            use_type_invariant(self);
            lemma_pixel_inside(self.width as int, self.height as int, x as int, y as int);
            assert(self.raw.len() <= usize::MAX);
        }
        let i: usize = 3 * (y as usize * self.width as usize + x as usize);
        (self.raw[i], self.raw[i + 1], self.raw[i + 2])
    }

    /// Gives pixel `(x, y)` the colour `p`; the others keep theirs.
    pub fn put_pixel(&mut self, x: u32, y: u32, p: (u8, u8, u8))
        requires
            x < old(self).spec_width(),
            y < old(self).spec_height(),
        ensures
            final(self).spec_width() == old(self).spec_width(),
            final(self).spec_height() == old(self).spec_height(),
            final(self).pixel(x as int, y as int) == p,
            forall|a: int, b: int|
                0 <= a < old(self).spec_width() && 0 <= b < old(self).spec_height() && (a != x || b != y)
                    ==> #[trigger] final(self).pixel(a, b) == old(self).pixel(a, b),
    {
        proof {
            use_type_invariant(&*self);
            lemma_pixel_inside(self.width as int, self.height as int, x as int, y as int);
            assert(self.raw.len() <= usize::MAX);
        }
        let ghost before = *self;
        let i: usize = 3 * (y as usize * self.width as usize + x as usize);
        self.raw[i] = p.0;
        self.raw[i + 1] = p.1;
        self.raw[i + 2] = p.2;
        proof {
            assert forall|a: int, b: int|
                0 <= a < before.spec_width() && 0 <= b < before.spec_height() && (a != x || b != y) implies #[trigger] self.pixel(
                a,
                b,
            ) == before.pixel(a, b) by {
                lemma_pixel_inside(self.width as int, self.height as int, a, b);
                lemma_pixels_apart(self.width as int, x as int, y as int, a, b);
            }
        }
    }
}

/// A pixel inside an image has its three bytes inside the buffer.
pub proof fn lemma_pixel_inside(width: int, height: int, x: int, y: int)
    requires
        0 <= x < width,
        0 <= y < height,
    ensures
        0 <= y * width <= y * width + x < height * width,
{
    assert(0 <= y * width && y * width + x < height * width) by (nonlinear_arith)
        requires 0 <= x < width, 0 <= y, y + 1 <= height;
}

/// Different pixels stand at different places.
pub proof fn lemma_pixels_apart(width: int, x: int, y: int, a: int, b: int)
    requires
        0 <= x < width,
        0 <= a < width,
        a != x || b != y,
    ensures
        b * width + a != y * width + x,
{
    if b < y {
        assert(b * width + a < y * width + x) by (nonlinear_arith)
            requires 0 <= x < width, 0 <= a < width, b + 1 <= y;
    } else if y < b {
        assert(y * width + x < b * width + a) by (nonlinear_arith)
            requires 0 <= x < width, 0 <= a < width, y + 1 <= b;
    }
}

/// Something that pixels can be read from.
pub trait PixelSource {
    spec fn source_width(&self) -> u32;

    spec fn source_height(&self) -> u32;

    /// The colour at `(x, y)`.
    spec fn colour(&self, x: int, y: int) -> (u8, u8, u8);

    fn source_size(&self) -> (r: (u32, u32))
        ensures
            r == (self.source_width(), self.source_height()),
    ;

    fn colour_at(&self, x: u32, y: u32) -> (p: (u8, u8, u8))
        requires
            x < self.source_width(),
            y < self.source_height(),
        ensures
            p == self.colour(x as int, y as int),
    ;
}

impl PixelSource for RgbImage {
    open spec fn source_width(&self) -> u32 {
        self.spec_width()
    }

    open spec fn source_height(&self) -> u32 {
        self.spec_height()
    }

    open spec fn colour(&self, x: int, y: int) -> (u8, u8, u8) {
        self.pixel(x, y)
    }

    fn source_size(&self) -> (r: (u32, u32)) {
        self.dimensions()
    }

    fn colour_at(&self, x: u32, y: u32) -> (p: (u8, u8, u8)) {
        self.get_pixel(x, y)
    }
}

/// `image::DynamicImage`: an image in one of several pixel formats.
#[verifier::external_type_specification]
#[verifier::external_body]
pub struct ExDynamicImage(image::DynamicImage);

/// The width and height of an image, in this order.
pub uninterp spec fn dynamic_size(img: image::DynamicImage) -> Seq<u32>;

/// The pixels of an image as red, green, blue and alpha bytes, row by row.
pub uninterp spec fn dynamic_rgba(img: image::DynamicImage) -> Seq<(u8, u8, u8, u8)>;

/// The bytes of an image that was converted to red, green and blue, row by row.
pub uninterp spec fn dynamic_rgb8(img: image::DynamicImage) -> Seq<u8>;

/// `image::GenericImageView::dimensions` of a `DynamicImage`: width and height.
#[verifier::external_body]
fn dynamic_dimensions(img: &image::DynamicImage) -> (r: (u32, u32))
    ensures
        dynamic_size(*img) == seq![r.0, r.1],
{
    image::GenericImageView::dimensions(img)
}

/// `image::GenericImageView::get_pixel` of a `DynamicImage`: the pixel in column
/// `x` of row `y`, as red, green, blue and alpha. It panics outside the image,
/// which `requires` leaves out.
#[verifier::external_body]
fn dynamic_get_pixel(img: &image::DynamicImage, x: u32, y: u32) -> (p: (u8, u8, u8, u8))
    requires
        x < dynamic_size(*img)[0],
        y < dynamic_size(*img)[1],
    ensures
        p == dynamic_rgba(*img)[y * dynamic_size(*img)[0] + x],
{
    let pixel = image::GenericImageView::get_pixel(img, x, y);
    (pixel[0], pixel[1], pixel[2], pixel[3])
}

/// `image::DynamicImage::to_rgb8`: the image converted to red, green and blue,
/// as width, height and bytes. The size stays, and there are at least three
/// bytes for each pixel; a buffer that was made longer than that keeps its rest.
/// How each pixel format is converted is left to the name `dynamic_rgb8`.
#[verifier::external_body]
fn dynamic_to_rgb8(img: &image::DynamicImage) -> (r: (u32, u32, Vec<u8>))
    ensures
        dynamic_size(*img) == seq![r.0, r.1],
        r.2@ == dynamic_rgb8(*img),
        r.2@.len() >= 3 * (r.1 * r.0),
{
    let buffer = img.to_rgb8();
    (buffer.width(), buffer.height(), buffer.into_raw())
}

impl PixelSource for image::DynamicImage {
    open spec fn source_width(&self) -> u32 {
        dynamic_size(*self)[0]
    }

    open spec fn source_height(&self) -> u32 {
        dynamic_size(*self)[1]
    }

    open spec fn colour(&self, x: int, y: int) -> (u8, u8, u8) {
        let p = dynamic_rgba(*self)[y * dynamic_size(*self)[0] + x];
        (p.0, p.1, p.2)
    }

    fn source_size(&self) -> (r: (u32, u32)) {
        dynamic_dimensions(self)
    }

    fn colour_at(&self, x: u32, y: u32) -> (p: (u8, u8, u8)) {
        let p = dynamic_get_pixel(self, x, y);
        (p.0, p.1, p.2)
    }
}

/// The image holds the red, green and blue bytes of an image of any format.
pub open spec fn converted(rgb: RgbImage, img: image::DynamicImage) -> bool {
    &&& rgb.spec_width() == img.source_width()
    &&& rgb.spec_height() == img.source_height()
    &&& rgb.bytes() == dynamic_rgb8(img).take(3 * (rgb.spec_height() * rgb.spec_width()))
}

impl RgbImage {
    /// The red, green and blue bytes of an image of any format.
    pub fn from_dynamic(img: &image::DynamicImage) -> (r: RgbImage)
        ensures
            converted(r, *img),
    {
        let (width, height, mut raw) = dynamic_to_rgb8(img);
        proof {
            assert(0 <= height * width <= 0xffff_ffff * 0xffff_ffff) by (nonlinear_arith)
                requires height <= 0xffff_ffff, width <= 0xffff_ffff;
            assert(raw.len() <= usize::MAX);
        }
        let count: u64 = height as u64 * width as u64;
        let len: usize = 3 * count as usize;
        raw.truncate(len);
        RgbImage { width, height, raw }
    }
}

/// Pixels stand row by row, and each is three bytes: red, green and blue.
pub proof fn law_pixels_stand_row_by_row(img: RgbImage, x: int, y: int)
    ensures
        ({
            let (w, i) = (img.spec_width() as int, 3 * (y * img.spec_width() + x));
            &&& img.pixel(x, y).0 == img.bytes()[i]
            &&& img.pixel(x, y).1 == img.bytes()[i + 1]
            &&& img.pixel(x, y).2 == img.bytes()[i + 2]
            &&& pixel_offset(w as nat, 0, 0) == 0
            &&& pixel_offset(w as nat, x + 1, y) == pixel_offset(w as nat, x, y) + 3
            &&& pixel_offset(w as nat, 0, y + 1) == pixel_offset(w as nat, w - 1, y) + 3
        }),
{
    let w = img.spec_width() as int;
    assert((y + 1) * w == y * w + w) by (nonlinear_arith);
    assert(0 * w == 0);
}

/// A converted image has the size of the image it came from, and its pixels are the
/// converted bytes, row by row.
pub proof fn law_converted_pixels(rgb: RgbImage, img: image::DynamicImage, x: int, y: int)
    requires
        converted(rgb, img),
        dynamic_rgb8(img).len() >= 3 * (rgb.spec_height() * rgb.spec_width()),
        0 <= x < rgb.spec_width(),
        0 <= y < rgb.spec_height(),
    ensures
        rgb.spec_width() == dynamic_size(img)[0],
        rgb.spec_height() == dynamic_size(img)[1],
        ({
            let i = 3 * (y * dynamic_size(img)[0] + x);
            let bytes = dynamic_rgb8(img);
            rgb.pixel(x, y) == (bytes[i], bytes[i + 1], bytes[i + 2])
        }),
{
    lemma_pixel_inside(rgb.spec_width() as int, rgb.spec_height() as int, x, y);
}

/// Sampling reads the pixels of an image where they stand, and no alpha.
pub proof fn law_colours_of_images(rgb: RgbImage, img: image::DynamicImage, x: int, y: int)
    ensures
        rgb.colour(x, y) == rgb.pixel(x, y),
        rgb.source_width() == rgb.spec_width(),
        rgb.source_height() == rgb.spec_height(),
        img.source_width() == dynamic_size(img)[0],
        img.source_height() == dynamic_size(img)[1],
        img.colour(x, y).0 == dynamic_rgba(img)[y * dynamic_size(img)[0] + x].0,
        img.colour(x, y).1 == dynamic_rgba(img)[y * dynamic_size(img)[0] + x].1,
        img.colour(x, y).2 == dynamic_rgba(img)[y * dynamic_size(img)[0] + x].2,
{
}

} // verus!
