//! The picture of the desktop behind the launcher: when the last one still
//! serves, and how a new one is encoded.
use crate::data_uri::{base64_text, encode_base64};
use image::{ImageFormat, RgbaImage};
use std::io::Cursor;
use vstd::prelude::*;

verus! {

/// For how many milliseconds a grab serves without a look at the desktop.
pub const BACKDROP_TTL_MS: u64 = 800;

/// The width of the thumbnail that the fingerprint is taken from.
pub const THUMB_W: usize = 64;

/// The height of the thumbnail that the fingerprint is taken from.
pub const THUMB_H: usize = 36;

/// How many bits of the fingerprint may differ on the same desktop.
pub const THUMB_MAX_DIFF_BITS: u32 = 24;

/// How many of the lowest `n` bits of a number are set.
pub open spec fn ones(x: u32, n: nat) -> nat
    decreases n,
{
    if n == 0 {
        0
    } else {
        ones(x, (n - 1) as nat) + ((x >> ((n - 1) as u32)) & 1) as nat
    }
}

/// `u32::count_ones`: how many bits are set.
pub assume_specification[ u32::count_ones ](x: u32) -> (r: u32)
    ensures
        r == ones(x, 32),
;

/// How many bits of the first `n` words differ.
pub open spec fn differing(a: Seq<u32>, b: Seq<u32>, n: int) -> nat
    decreases n,
{
    if n <= 0 {
        0
    } else {
        differing(a, b, n - 1) + ones(a[n - 1] ^ b[n - 1], 32)
    }
}

/// The length of the shorter one.
pub open spec fn shorter(a: Seq<u32>, b: Seq<u32>) -> int {
    if a.len() < b.len() {
        a.len() as int
    } else {
        b.len() as int
    }
}

proof fn lemma_ones(x: u32, n: nat)
    requires
        n <= 32,
    ensures
        ones(x, n) <= n,
    decreases n,
{
    if n > 0 {
        lemma_ones(x, (n - 1) as nat);
        let k = (n - 1) as u32;
        assert((x >> k) & 1 <= 1) by (bit_vector);
    }
}

/// How many bits of two fingerprints differ. Words beyond the shorter one do not
/// count.
pub fn hamming_bits(a: &[u32], b: &[u32]) -> (r: u32)
    requires
        shorter(a@, b@) <= 0x7ff_ffff,
    ensures
        r == differing(a@, b@, shorter(a@, b@)),
{
    let n: usize = if a.len() < b.len() {
        a.len()
    } else {
        b.len()
    };
    let mut sum: u32 = 0;
    let mut i: usize = 0;
    while i < n
        invariant
            n == shorter(a@, b@),
            n <= 0x7ff_ffff,
            i <= n <= a@.len(),
            n <= b@.len(),
            sum == differing(a@, b@, i as int),
            sum <= 32 * i,
        decreases n - i,
    {
        let x: u32 = a[i] ^ b[i];
        proof {
            lemma_ones(x, 32);
        }
        sum = sum + x.count_ones();
        i = i + 1;
    }
    sum
}

/// A fingerprint does not differ from itself.
pub proof fn law_no_distance_to_itself(a: Seq<u32>, n: int)
    ensures
        differing(a, a, n) == 0,
    decreases n,
{
    if n > 0 {
        law_no_distance_to_itself(a, n - 1);
        let x = a[n - 1];
        assert(x ^ x == 0u32) by (bit_vector);
        lemma_zero_ones(32);
    }
}

proof fn lemma_zero_ones(n: nat)
    requires
        n <= 32,
    ensures
        ones(0, n) == 0,
    decreases n,
{
    if n > 0 {
        lemma_zero_ones((n - 1) as nat);
        let k = (n - 1) as u32;
        assert((0u32 >> k) & 1 == 0) by (bit_vector);
    }
}

/// Two fingerprints differ as much in either order.
pub proof fn law_distance_is_symmetric(a: Seq<u32>, b: Seq<u32>, n: int)
    ensures
        differing(a, b, n) == differing(b, a, n),
    decreases n,
{
    if n > 0 {
        law_distance_is_symmetric(a, b, n - 1);
        let x = a[n - 1];
        let y = b[n - 1];
        assert(x ^ y == y ^ x) by (bit_vector);
    }
}

/// The brightness of the pixel at a place of a thumbnail.
pub open spec fn brightness(pixels: Seq<u8>, x: int, y: int) -> int {
    let i = (y * THUMB_W + x) * 4;
    (pixels[i] as int + pixels[i + 1] as int + pixels[i + 2] as int) / 3
}

/// Bit `b` of the fingerprint of a thumbnail: the pixel is brighter than its
/// left neighbor.
pub open spec fn print_bit(pixels: Seq<u8>, b: int) -> bool {
    let x = b % 63;
    let y = b / 63;
    brightness(pixels, x + 1, y) > brightness(pixels, x, y)
}

/// Bit `b` of a list of words is set.
pub open spec fn bit_set(words: Seq<u32>, b: int) -> bool {
    (words[b / 32] >> ((b % 32) as u32)) & 1 == 1
}

/// The brightness of the pixel at a place of a thumbnail.
fn brightness_at(pixels: &[u8], x: usize, y: usize) -> (r: u32)
    requires
        pixels@.len() >= 9216,
        x < 64,
        y < 36,
    ensures
        r == brightness(pixels@, x as int, y as int),
{
    let i: usize = (y * 64 + x) * 4;
    (pixels[i] as u32 + pixels[i + 1] as u32 + pixels[i + 2] as u32) / 3
}

/// The fingerprint of a thumbnail, from its pixels of four bytes each: one bit
/// for each pixel but the first of a row.
pub fn thumb_dhash(pixels: &[u8]) -> (r: Vec<u32>)
    requires
        pixels@.len() >= 9216,
    ensures
        r.len() == 71,
        forall|b: int| 0 <= b < 2268 ==> #[trigger] bit_set(r@, b) == print_bit(pixels@, b),
        forall|b: int| 2268 <= b < 2272 ==> !#[trigger] bit_set(r@, b),
{
    let mut out: Vec<u32> = Vec::new();
    while out.len() < 71
        invariant
            out.len() <= 71,
            forall|i: int| 0 <= i < out.len() ==> out@[i] == 0u32,
        decreases 71 - out.len(),
    {
        out.push(0);
    }
    assert forall|b: int| 0 <= b < 2272 implies !#[trigger] bit_set(out@, b) by {
        let k = (b % 32) as u32;
        assert((0u32 >> k) & 1 == 0) by (bit_vector);
    }
    let mut b: usize = 0;
    while b < 2268
        invariant
            b <= 2268,
            pixels@.len() >= 9216,
            out.len() == 71,
            forall|k: int| 0 <= k < b ==> #[trigger] bit_set(out@, k) == print_bit(pixels@, k),
            forall|k: int| b <= k < 2272 ==> !#[trigger] bit_set(out@, k),
        decreases 2268 - b,
    {
        let x: usize = b % 63;
        let y: usize = b / 63;
        let l = brightness_at(pixels, x, y);
        let r = brightness_at(pixels, x + 1, y);
        if r > l {
            let word: usize = b / 32;
            let bit: u32 = (b % 32) as u32;
            let w: u32 = out[word];
            let set: u32 = w | (1u32 << bit);
            let ghost before = out@;
            out.set(word, set);
            proof {
                assert forall|k: int| 0 <= k < 2272 implies #[trigger] bit_set(out@, k) == (
                bit_set(before, k) || k == b) by {
                    if k / 32 == word {
                        let j = (k % 32) as u32;
                        assert(((w | (1u32 << bit)) >> j) & 1 == 1 <==> (w >> j) & 1 == 1 || j
                            == bit) by (bit_vector)
                            requires
                                j < 32,
                                bit < 32,
                        ;
                        assert(k == 32 * (k / 32) + k % 32);
                        assert(b as int == 32 * (b as int / 32) + b as int % 32);
                    }
                }
            }
        }
        b = b + 1;
    }
    out
}

/// Swaps the first and the third byte of each pixel of four bytes: blue and red
/// change places.
pub fn swap_red_blue(pixels: &mut Vec<u8>)
    ensures
        final(pixels).len() == old(pixels).len(),
        forall|i: int|
            0 <= i < old(pixels).len() ==> #[trigger] final(pixels)@[i] == swapped(
                old(pixels)@,
                i,
            ),
{
    let n: usize = pixels.len() / 4;
    let ghost before = pixels@;
    let mut k: usize = 0;
    while k < n
        invariant
            n == before.len() / 4,
            k <= n,
            pixels@.len() == before.len(),
            forall|i: int|
                0 <= i < before.len() ==> #[trigger] pixels@[i] == if i < 4 * k {
                    swapped(before, i)
                } else {
                    before[i]
                },
        decreases n - k,
    {
        assert(pixels.len() == before.len() && 4 * k + 3 < before.len());
        let i: usize = 4 * k;
        let blue: u8 = pixels[i];
        let red: u8 = pixels[i + 2];
        pixels.set(i, red);
        pixels.set(i + 2, blue);
        k = k + 1;
    }
}

/// The byte that stands at a place after the swap.
pub open spec fn swapped(pixels: Seq<u8>, i: int) -> u8 {
    if i / 4 >= pixels.len() as int / 4 {
        pixels[i]
    } else if i % 4 == 0 {
        pixels[i + 2]
    } else if i % 4 == 2 {
        pixels[i - 2]
    } else {
        pixels[i]
    }
}

/// A grab of the desktop: the encoded picture, and its size on the screen.
pub struct BackdropGrab {
    pub uri: String,
    pub width: u32,
    pub height: u32,
}

impl Clone for BackdropGrab {
    fn clone(&self) -> (r: Self)
        ensures
            r == *self,
    {
        BackdropGrab { uri: self.uri.clone(), width: self.width, height: self.height }
    }
}

/// The left, top, right and bottom of a window.
pub struct Rect {
    pub left: i32,
    pub top: i32,
    pub right: i32,
    pub bottom: i32,
}

/// The last grab, when it was taken, what it covers, and the fingerprint of the
/// desktop at that time.
pub struct Backdrop {
    pub grab: Option<BackdropGrab>,
    pub at: Option<u64>,
    pub rect: Option<Rect>,
    pub thumb: Option<Vec<u32>>,
}

/// What is to be done for the backdrop.
#[derive(Clone, Copy, PartialEq, Eq, Structural)]
pub enum BackdropStep {
    /// The last grab serves.
    Reuse,
    /// The fingerprint of the desktop decides.
    Compare,
    /// The desktop has to be grabbed.
    Capture,
}

impl Backdrop {
    /// The last grab covers a window.
    pub open spec fn covers(&self, rect: Option<Rect>) -> bool {
        self.rect is Some && rect is Some && self.rect->0 == rect->0
    }

    /// The last grab is recent.
    pub open spec fn recent(&self, now: u64) -> bool {
        self.at is Some && now - self.at->0 < BACKDROP_TTL_MS
    }

    /// Nothing was grabbed yet.
    pub fn new() -> (r: Backdrop)
        ensures
            r == (Backdrop { grab: None, at: None, rect: None, thumb: None }),
    {
        Backdrop { grab: None, at: None, rect: None, thumb: None }
    }

    /// What is to be done for a window at a time in milliseconds: a recent grab
    /// of the same place serves; an older one of the same place only where the
    /// desktop did not change.
    pub fn capture_backdrop(&self, rect: &Option<Rect>, now: u64) -> (r: BackdropStep)
        ensures
            r == if !self.covers(*rect) {
                BackdropStep::Capture
            } else if !self.recent(now) {
                BackdropStep::Compare
            } else if self.grab is Some {
                BackdropStep::Reuse
            } else {
                BackdropStep::Capture
            },
    {
        let covers = match (&self.rect, rect) {
            (Some(c), Some(w)) => c.left == w.left && c.top == w.top && c.right == w.right
                && c.bottom == w.bottom,
            _ => false,
        };
        if !covers {
            return BackdropStep::Capture;
        }
        let recent = match self.at {
            Some(t) => now < t || now - t < BACKDROP_TTL_MS,
            None => false,
        };
        if !recent {
            return BackdropStep::Compare;
        }
        match &self.grab {
            Some(_) => BackdropStep::Reuse,
            None => BackdropStep::Capture,
        }
    }

    /// The fingerprint says that the desktop did not change.
    pub open spec fn unchanged(&self, thumb: Option<Vec<u32>>) -> bool {
        thumb is Some && self.thumb is Some && differing(
            thumb->0@,
            self.thumb->0@,
            shorter(thumb->0@, self.thumb->0@),
        ) <= THUMB_MAX_DIFF_BITS
    }

    /// Takes the fingerprint of the desktop at a time. Where it did not change,
    /// the last grab counts as new, and serves if there is one.
    pub fn compared(&mut self, thumb: &Option<Vec<u32>>, now: u64) -> (r: BackdropStep)
        requires
            thumb is Some ==> thumb->0@.len() <= 0x7ff_ffff,
        ensures
            *final(self) == if old(self).unchanged(*thumb) {
                Backdrop { at: Some(now), ..*old(self) }
            } else {
                *old(self)
            },
            r == if old(self).unchanged(*thumb) && old(self).grab is Some {
                BackdropStep::Reuse
            } else {
                BackdropStep::Capture
            },
    {
        let same = match (thumb, &self.thumb) {
            (Some(a), Some(b)) => hamming_bits(a.as_slice(), b.as_slice()) <= THUMB_MAX_DIFF_BITS,
            _ => false,
        };
        if same {
            self.at = Some(now);
            if self.grab.is_some() {
                return BackdropStep::Reuse;
            }
        }
        BackdropStep::Capture
    }

    /// Keeps a new grab.
    pub fn keep(
        &mut self,
        grab: BackdropGrab,
        rect: Option<Rect>,
        thumb: Option<Vec<u32>>,
        now: u64,
    )
        ensures
            *final(self) == (Backdrop { grab: Some(grab), at: Some(now), rect, thumb }),
    {
        self.grab = Some(grab);
        self.at = Some(now);
        self.rect = rect;
        self.thumb = thumb;
    }
}

/// What `image` makes of pixels scaled down to another size, if there are
/// enough of them.
pub uninterp spec fn thumbnail_pixels(
    width: u32,
    height: u32,
    rgba: Seq<u8>,
    new_width: u32,
    new_height: u32,
) -> Option<Seq<u8>>;

/// The JPEG file that `image` makes of pixels, if it can.
pub uninterp spec fn jpeg_file(width: u32, height: u32, rgba: Seq<u8>, quality: u8) -> Option<
    Seq<u8>,
>;

/// The PNG file that `image` makes of pixels, if it can.
pub uninterp spec fn png_file(width: u32, height: u32, rgba: Seq<u8>) -> Option<Seq<u8>>;

/// The bytes of an optional list.
pub open spec fn opt_bytes(o: Option<Vec<u8>>) -> Option<Seq<u8>> {
    match o {
        Some(v) => Some(v@),
        None => None,
    }
}

/// `image::imageops::thumbnail`: the pixels scaled down. The result depends on
/// the sizes and the pixels alone; there is none where the pixels are too few.
/// What the pixels are is left unsaid. The new size is at least a third of the
/// old one, so that no sum over a block of pixels overflows.
#[verifier::external_body]
fn thumbnail(
    width: u32,
    height: u32,
    rgba: Vec<u8>,
    new_width: u32,
    new_height: u32,
) -> (r: Option<Vec<u8>>)
    requires
        0 < width <= 3 * new_width,
        0 < height <= 3 * new_height,
    ensures
        opt_bytes(r) == thumbnail_pixels(width, height, rgba@, new_width, new_height),
{
    let img = RgbaImage::from_raw(width, height, rgba)?;
    Some(image::imageops::thumbnail(&img, new_width, new_height).into_raw())
}

/// `image::codecs::jpeg::JpegEncoder::encode_image`: a JPEG file of the pixels.
/// The result depends on the size, the pixels and the quality alone; what the
/// file holds is left unsaid.
#[verifier::external_body]
fn jpeg(width: u32, height: u32, rgba: Vec<u8>, quality: u8) -> (r: Option<Vec<u8>>)
    ensures
        opt_bytes(r) == jpeg_file(width, height, rgba@, quality),
{
    let img = RgbaImage::from_raw(width, height, rgba)?;
    let mut out = Cursor::new(Vec::new());
    let mut enc = image::codecs::jpeg::JpegEncoder::new_with_quality(&mut out, quality);
    enc.encode_image(&img).ok()?;
    Some(out.into_inner())
}

/// `image::ImageBuffer::write_to`: a PNG file of the pixels. The result depends
/// on the size and the pixels alone; what the file holds is left unsaid.
#[verifier::external_body]
fn png(width: u32, height: u32, rgba: Vec<u8>) -> (r: Option<Vec<u8>>)
    ensures
        opt_bytes(r) == png_file(width, height, rgba@),
{
    let img = RgbaImage::from_raw(width, height, rgba)?;
    let mut out = Cursor::new(Vec::new());
    img.write_to(&mut out, ImageFormat::Png).ok()?;
    Some(out.into_inner())
}

/// Half of a size, but not nothing.
pub open spec fn half(n: u32) -> u32 {
    if n < 2 {
        1
    } else {
        n / 2
    }
}

/// The pixels after the swap.
pub open spec fn all_swapped(pixels: Seq<u8>) -> Seq<u8> {
    Seq::new(pixels.len(), |i: int| swapped(pixels, i))
}

/// The file of a grab: the pixels in the order of `image`, at half the size, as
/// a JPEG of quality 55.
pub open spec fn grab_file(width: u32, height: u32, bgra: Seq<u8>) -> Option<Seq<u8>> {
    match thumbnail_pixels(width, height, all_swapped(bgra), half(width), half(height)) {
        Some(small) => jpeg_file(half(width), half(height), small, 55),
        None => None,
    }
}

/// Encodes a grab of the desktop from its pixels of four bytes, blue first.
pub fn encode_grab(width: u32, height: u32, bgra: Vec<u8>) -> (r: Option<BackdropGrab>)
    requires
        0 < width,
        0 < height,
    ensures
        r is Some <==> grab_file(width, height, bgra@) is Some,
        r is Some ==> {
            &&& r->0.uri@ == "data:image/jpeg;base64,"@ + base64_text(
                grab_file(width, height, bgra@)->0,
            )
            &&& r->0.width == width
            &&& r->0.height == height
        },
{
    let mut rgba = bgra;
    swap_red_blue(&mut rgba);
    assert(rgba@ =~= all_swapped(bgra@));
    let w: u32 = if width < 2 {
        1
    } else {
        width / 2
    };
    let h: u32 = if height < 2 {
        1
    } else {
        height / 2
    };
    let small = match thumbnail(width, height, rgba, w, h) {
        Some(p) => p,
        None => {
            return None;
        },
    };
    match jpeg(w, h, small, 55) {
        Some(file) => {
            let text = encode_base64(file.as_slice());
            let mut uri = "data:image/jpeg;base64,".to_owned();
            uri.push_str(text.as_str());
            Some(BackdropGrab { uri, width, height })
        },
        None => None,
    }
}

/// The PNG file of an icon, from the pixels of a bitmap, blue first. There is
/// none where the bitmap has no size.
pub fn hbitmap_to_png(width: i32, height: i32, bgra: Vec<u8>) -> (r: Option<Vec<u8>>)
    ensures
        opt_bytes(r) == if width <= 0 || height <= 0 {
            None
        } else {
            png_file(width as u32, height as u32, all_swapped(bgra@))
        },
{
    if width <= 0 || height <= 0 {
        return None;
    }
    let mut rgba = bgra;
    swap_red_blue(&mut rgba);
    assert(rgba@ =~= all_swapped(bgra@));
    png(width as u32, height as u32, rgba)
}

/// Counting bits: a number with one bit set has one, and two numbers that have
/// none in common have together as many as each of them.
pub proof fn law_bits_are_counted(x: u32, y: u32, k: u32)
    requires
        k < 32,
        x & y == 0,
    ensures
        ones(1u32 << k, 32) == 1,
        ones(x | y, 32) == ones(x, 32) + ones(y, 32),
        ones(0, 32) == 0,
{
    lemma_one_bit(k, 32);
    lemma_joined_bits(x, y, 32);
    assert(0u32 | 0u32 == 0u32 && 0u32 & 0u32 == 0u32) by (bit_vector);
    lemma_joined_bits(0, 0, 32);
}

proof fn lemma_one_bit(k: u32, n: nat)
    requires
        k < 32,
        n <= 32,
    ensures
        ones(1u32 << k, n) == if k < n {
            1nat
        } else {
            0
        },
    decreases n,
{
    if n > 0 {
        let m = (n - 1) as u32;
        lemma_one_bit(k, (n - 1) as nat);
        assert(((1u32 << k) >> m) & 1 == if m == k {
            1u32
        } else {
            0u32
        }) by (bit_vector)
            requires
                k < 32,
                m < 32,
        ;
    }
}

proof fn lemma_joined_bits(x: u32, y: u32, n: nat)
    requires
        x & y == 0,
        n <= 32,
    ensures
        ones(x | y, n) == ones(x, n) + ones(y, n),
    decreases n,
{
    if n > 0 {
        let m = (n - 1) as u32;
        lemma_joined_bits(x, y, (n - 1) as nat);
        assert(((x | y) >> m) & 1 == ((x >> m) & 1) + ((y >> m) & 1)) by (bit_vector)
            requires
                x & y == 0,
                m < 32,
        ;
    }
}

/// Swapping red and blue in each pixel twice gives the pixels back; green and
/// alpha stay as they are.
pub proof fn law_swapping_twice_gives_the_pixels_back(pixels: Seq<u8>, p: int)
    requires
        pixels.len() % 4 == 0,
        0 <= p < pixels.len() as int / 4,
    ensures
        all_swapped(all_swapped(pixels)) == pixels,
        all_swapped(pixels)[4 * p] == pixels[4 * p + 2],
        all_swapped(pixels)[4 * p + 1] == pixels[4 * p + 1],
        all_swapped(pixels)[4 * p + 2] == pixels[4 * p],
        all_swapped(pixels)[4 * p + 3] == pixels[4 * p + 3],
{
    let once = all_swapped(pixels);
    let twice = all_swapped(once);
    assert forall|i: int| 0 <= i < pixels.len() implies #[trigger] twice[i] == pixels[i] by {
        let q = i / 4;
        if i % 4 == 0 {
            assert(once[i + 2] == swapped(pixels, i + 2));
        } else if i % 4 == 2 {
            assert(once[i - 2] == swapped(pixels, i - 2));
        } else {
            assert(once[i] == swapped(pixels, i));
        }
    }
    assert(twice =~= pixels);
}

/// A grab serves as it is for less than 800 milliseconds, and for the window that
/// it was made for; after that it serves as long as at most 24 bits of the
/// fingerprint differ.
pub proof fn law_how_long_a_grab_serves(b: Backdrop, now: u64, thumb: Vec<u32>)
    ensures
        b.recent(now) <==> b.at is Some && now < b.at->0 + 800,
        b.thumb is Some && thumb@ == b.thumb->0@ ==> b.unchanged(Some(thumb)),
        b.thumb is None ==> !b.unchanged(Some(thumb)),
        b.unchanged(Some(thumb)) ==> differing(
            thumb@,
            b.thumb->0@,
            shorter(thumb@, b.thumb->0@),
        ) <= 24,
        b.thumb is Some && differing(thumb@, b.thumb->0@, shorter(thumb@, b.thumb->0@)) <= 24
            ==> b.unchanged(Some(thumb)),
{
    if b.thumb is Some && thumb@ == b.thumb->0@ {
        law_no_distance_to_itself(thumb@, shorter(thumb@, thumb@));
    }
}

/// A bit of the fingerprint tells that a pixel is brighter than its left neighbor:
/// 63 bits for each of the 36 rows, from the left, the brightness of a pixel being
/// the mean of its first three bytes.
pub proof fn law_bit_compares_neighbors(pixels: Seq<u8>, x: int, y: int)
    requires
        0 <= x < 63,
        0 <= y < 36,
        pixels.len() >= 9216,
    ensures
        ({
            let i = 256 * y + 4 * x;
            print_bit(pixels, 63 * y + x) <==> (pixels[i + 4] + pixels[i + 5] + pixels[i + 6]) / 3
                > (pixels[i] + pixels[i + 1] + pixels[i + 2]) / 3
        }),
{
    let b = 63 * y + x;
    assert(b % 63 == x && b / 63 == y);
    assert((y * THUMB_W + x) * 4 == 256 * y + 4 * x);
    assert((y * THUMB_W + (x + 1)) * 4 == 256 * y + 4 * x + 4);
}

/// A grab is shown at half its size, rounded down, but never without a pixel.
pub proof fn law_half_the_size(n: u32)
    ensures
        half(n) >= 1,
        n >= 2 ==> 2 * half(n) <= n < 2 * half(n) + 2,
        n < 2 ==> half(n) == 1,
{
}

/// A grab serves only the window that it was made for.
pub proof fn law_grab_serves_its_window(grab: Backdrop, a: Rect, b: Rect)
    ensures
        grab.covers(Some(a)) && grab.covers(Some(b)) ==> a == b,
        grab.rect == Some(a) ==> grab.covers(Some(a)),
        !grab.covers(None),
        grab.rect is None ==> !grab.covers(Some(a)),
{
}

} // verus!
