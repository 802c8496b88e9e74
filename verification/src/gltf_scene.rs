//! Images shared by the primitives of a glTF scene, and their mip chains.
//!
//! Every level a GPU texture declares must be uploaded, so an image carries
//! its whole chain, down to one texel.

use vstd::prelude::*;

verus! {

#[derive(Debug)]
pub struct GltfError(pub String);

/// One decoded RGBA8 image.
pub struct CpuImage {
    pub rgba: Vec<u8>,
    pub width: u32,
    pub height: u32,
}

/// `floor(log2(n))` for `n >= 1`; 0 below.
pub open spec fn spec_floor_log2(n: nat) -> nat
    decreases n,
{
    if n < 2 {
        0
    } else {
        1 + spec_floor_log2(n / 2)
    }
}

proof fn lemma_floor_log2_below(n: nat, k: nat)
    requires
        n < vstd::arithmetic::power2::pow2(k),
        k >= 1,
    ensures
        spec_floor_log2(n) < k,
    decreases k,
{
    if n >= 2 {
        vstd::arithmetic::power2::lemma_pow2_unfold(k);
        assert(n / 2 < vstd::arithmetic::power2::pow2((k - 1) as nat));
        if k >= 2 {
            lemma_floor_log2_below(n / 2, (k - 1) as nat);
        } else {
            assert(vstd::arithmetic::power2::pow2(0) == 1) by {
                vstd::arithmetic::power2::lemma2_to64();
            }
        }
    }
}

proof fn lemma_floor_log2_u32(n: u32)
    ensures
        spec_floor_log2(n as nat) < 32,
{
    vstd::arithmetic::power2::lemma2_to64();
    lemma_floor_log2_below(n as nat, 32);
}

pub fn floor_log2(n: u32) -> (r: u32)
    ensures
        r == spec_floor_log2(n as nat),
        r < 32,
{
    proof {
        lemma_floor_log2_u32(n);
    }
    let mut m = n;
    let mut r: u32 = 0;
    while m >= 2
        invariant
            r + spec_floor_log2(m as nat) == spec_floor_log2(n as nat),
            spec_floor_log2(n as nat) < 32,
        decreases m,
    {
        m = m / 2;
        r = r + 1;
    }
    r
}

/// Levels of a full chain: halve the larger side until it is one texel.
pub open spec fn spec_mip_levels(width: u32, height: u32) -> nat {
    let m = if width >= height { width } else { height };
    spec_floor_log2(if m >= 1 { m as nat } else { 1 }) + 1
}

/// A side halved, never below one texel.
pub open spec fn half(n: u32) -> u32 {
    if n / 2 >= 1 { n / 2 } else { 1 }
}

/// A side halved `k` times.
pub open spec fn halved(n: u32, k: nat) -> u32
    decreases k,
{
    if k == 0 {
        n
    } else {
        half(halved(n, (k - 1) as nat))
    }
}

/// `next` is what `downsample` made of `prev`, level `k - 1` of an image of
/// `width` x `height`, at the extent of level `k`.
pub open spec fn made_from<F: Fn(&[u8], u32, u32) -> (Vec<u8>, u32, u32)>(
    downsample: F,
    prev: Vec<u8>,
    next: Vec<u8>,
    width: u32,
    height: u32,
    k: nat,
) -> bool {
    exists|s: &[u8]|
        s@ == prev@ && #[trigger] downsample.ensures(
            (s, halved(width, (k - 1) as nat), halved(height, (k - 1) as nat)),
            (next, halved(width, k), halved(height, k)),
        )
}

impl CpuImage {
    pub fn mip_levels(&self) -> (n: u32)
        ensures
            n == spec_mip_levels(self.width, self.height),
    {
        let m = if self.width >= self.height { self.width } else { self.height };
        let m = if m >= 1 { m } else { 1 };
        floor_log2(m) + 1
    }

    /// Level 0 first, then each level made from the one before by
    /// `downsample`, which halves each side (never below one texel).
    pub fn mip_chain<F: Fn(&[u8], u32, u32) -> (Vec<u8>, u32, u32)>(&self, downsample: F) -> (chain: Vec<
        Vec<u8>,
    >)
        requires
            forall|s: &[u8], w: u32, h: u32| #[trigger] downsample.requires((s, w, h)),
            forall|s: &[u8], w: u32, h: u32, r: (Vec<u8>, u32, u32)|
                #[trigger] downsample.ensures((s, w, h), r) ==> r.1 == half(w) && r.2 == half(h),
        ensures
            chain@.len() == spec_mip_levels(self.width, self.height),
            chain@[0]@ == self.rgba@,
            forall|k: int|
                1 <= k < chain@.len() ==> #[trigger] made_from(
                    downsample,
                    chain@[k - 1],
                    chain@[k],
                    self.width,
                    self.height,
                    k as nat,
                ),
    {
        let levels = self.mip_levels();
        let mut out: Vec<Vec<u8>> = Vec::new();
        out.push(self.rgba.clone());
        let mut w = self.width;
        let mut h = self.height;
        let mut k: u32 = 1;
        while k < levels
            invariant
                1 <= k,
                k <= levels || levels == 0,
                levels == spec_mip_levels(self.width, self.height),
                out@.len() == k,
                out@[0]@ == self.rgba@,
                w == halved(self.width, (k - 1) as nat),
                h == halved(self.height, (k - 1) as nat),
                forall|s: &[u8], w: u32, h: u32| #[trigger] downsample.requires((s, w, h)),
                forall|s: &[u8], w: u32, h: u32, r: (Vec<u8>, u32, u32)|
                    #[trigger] downsample.ensures((s, w, h), r) ==> r.1 == half(w) && r.2 == half(h),
                forall|j: int|
                    1 <= j < out@.len() ==> #[trigger] made_from(
                        downsample,
                        out@[j - 1],
                        out@[j],
                        self.width,
                        self.height,
                        j as nat,
                    ),
            decreases levels - k,
        {
            let prev = out[out.len() - 1].as_slice();
            let ghost prev_view = prev@;
            let (next, nw, nh) = downsample(prev, w, h);
            let ghost old_out = out@;
            proof {
                assert(prev@ == out@[k - 1]@);
            }
            out.push(next);
            assert(made_from(downsample, out@[k - 1], out@[k as int], self.width, self.height, k as nat));
            assert forall|j: int| 1 <= j < out@.len() implies #[trigger] made_from(
                downsample,
                out@[j - 1],
                out@[j],
                self.width,
                self.height,
                j as nat,
            ) by {
                if j < k {
                    assert(out@[j] == old_out[j] && out@[j - 1] == old_out[j - 1]);
                }
            }
            w = nw;
            h = nh;
            k = k + 1;
        }
        out
    }
}

/// How a glTF image stores its pixels.
#[derive(Clone, Copy, Debug, PartialEq, Eq, Structural)]
pub enum PixelLayout {
    Rgba8,
    Rgb8,
    R8,
    Rg8,
    /// Anything else (16-bit or float channels): not decoded.
    Other,
}

/// A glTF image widened to RGBA8: RGB gets an opaque alpha, grey is spread
/// over RGB, grey-alpha keeps its alpha, and a layout that is not decoded
/// becomes a flat light grey of the image's size.
pub open spec fn spec_rgba_of(layout: PixelLayout, pixels: Seq<u8>, texels: nat) -> Seq<u8> {
    match layout {
        PixelLayout::Rgba8 => pixels,
        PixelLayout::Rgb8 => Seq::new(
            4 * (pixels.len() / 3),
            |i: int| if i % 4 == 3 { 255u8 } else { pixels[3 * (i / 4) + i % 4] },
        ),
        PixelLayout::R8 => Seq::new(
            4 * pixels.len(),
            |i: int| if i % 4 == 3 { 255u8 } else { pixels[i / 4] },
        ),
        PixelLayout::Rg8 => Seq::new(
            4 * (pixels.len() / 2),
            |i: int| if i % 4 == 3 { pixels[2 * (i / 4) + 1] } else { pixels[2 * (i / 4)] },
        ),
        PixelLayout::Other => Seq::new(4 * texels, |i: int| if i % 4 == 3 { 255u8 } else { 200u8 }),
    }
}

/// What a layout needs of its pixel bytes: whole texels.
pub open spec fn whole_texels(layout: PixelLayout, len: nat) -> bool {
    match layout {
        PixelLayout::Rgb8 => len % 3 == 0,
        PixelLayout::Rg8 => len % 2 == 0,
        _ => true,
    }
}

/// A decoded glTF image as RGBA8, `width` x `height`.
pub fn to_rgba(layout: PixelLayout, pixels: &[u8], width: u32, height: u32) -> (img: CpuImage)
    requires
        whole_texels(layout, pixels@.len()),
        4 * pixels@.len() <= usize::MAX,
        4 * width * height <= usize::MAX,
    ensures
        img.width == width,
        img.height == height,
        img.rgba@ == spec_rgba_of(layout, pixels@, (width * height) as nat),
{
    let ghost want = spec_rgba_of(layout, pixels@, (width * height) as nat);
    proof {
        assert(width * height <= 4 * width * height) by (nonlinear_arith);
        assert(4 * (width * height) == 4 * width * height) by (nonlinear_arith);
    }
    let n_out: usize = match layout {
        PixelLayout::Rgba8 => pixels.len(),
        PixelLayout::Rgb8 => 4 * (pixels.len() / 3),
        PixelLayout::R8 => 4 * pixels.len(),
        PixelLayout::Rg8 => 4 * (pixels.len() / 2),
        PixelLayout::Other => 4 * (width as usize * height as usize),
    };
    proof {
        assert(n_out == want.len());
    }
    let mut rgba: Vec<u8> = Vec::new();
    let mut i: usize = 0;
    while i < n_out
        invariant
            i <= n_out,
            n_out == want.len(),
            want == spec_rgba_of(layout, pixels@, (width * height) as nat),
            whole_texels(layout, pixels@.len()),
            rgba@ == want.take(i as int),
        decreases n_out - i,
    {
        let t = i / 4;
        let c = i % 4;
        let v: u8 = match layout {
            PixelLayout::Rgba8 => pixels[i],
            PixelLayout::Rgb8 => if c == 3 {
                255
            } else {
                pixels[3 * t + c]
            },
            PixelLayout::R8 => if c == 3 {
                255
            } else {
                pixels[t]
            },
            PixelLayout::Rg8 => if c == 3 {
                pixels[2 * t + 1]
            } else {
                pixels[2 * t]
            },
            PixelLayout::Other => if c == 3 {
                255
            } else {
                200
            },
        };
        proof {
            assert(v == want[i as int]);
        }
        rgba.push(v);
        proof {
            assert(rgba@ =~= want.take(i + 1));
        }
        i = i + 1;
    }
    proof {
        assert(want.take(n_out as int) =~= want);
    }
    CpuImage { rgba, width, height }
}

/// Which image a primitive's colour comes from: a glTF image, or a flat
/// base colour (its RGBA8 bytes) when it has no texture.
#[derive(Clone, Copy, Debug, PartialEq, Eq, Structural)]
pub enum ImageKey {
    Source(usize),
    Factor { r: u8, g: u8, b: u8, a: u8 },
}

/// The images of a scene, by key: image `i` of the scene is the one made for
/// key `i`. No key is there twice, so a key shared by many primitives makes
/// one image.
pub struct ImageTable {
    keys: Vec<ImageKey>,
}

impl View for ImageTable {
    type V = Seq<ImageKey>;

    closed spec fn view(&self) -> Seq<ImageKey> {
        self.keys@
    }
}

impl ImageTable {
    pub fn new() -> (t: Self)
        ensures
            t@ == Seq::<ImageKey>::empty(),
    {
        ImageTable { keys: Vec::new() }
    }

    /// The image for `key`: the one made for it before (`false`), or a new
    /// one at the end of the scene's images, which the caller makes (`true`).
    pub fn index_of(&mut self, key: ImageKey) -> (r: (usize, bool))
        requires
            old(self)@.no_duplicates(),
        ensures
            final(self)@.no_duplicates(),
            if old(self)@.contains(key) {
                !r.1 && r.0 < old(self)@.len() && old(self)@[r.0 as int] == key && final(self)@ == old(self)@
            } else {
                r.1 && r.0 == old(self)@.len() && final(self)@ == old(self)@.push(key)
            },
    {
        let n = self.keys.len();
        let mut i: usize = 0;
        while i < n
            invariant
                i <= n,
                n == self.keys@.len(),
                self.keys@ == old(self)@,
                old(self)@.no_duplicates(),
                forall|j: int| 0 <= j < i ==> self.keys@[j] != key,
            decreases n - i,
        {
            if self.keys[i] == key {
                return (i, false);
            }
            i = i + 1;
        }
        self.keys.push(key);
        proof {
            assert(!old(self)@.contains(key));
            assert forall|a: int, b: int| 0 <= a < b < self.keys@.len() implies self.keys@[a] != self.keys@[b] by {
                if b == n {
                    assert(self.keys@[a] == old(self)@[a]);
                } else {
                    assert(old(self)@[a] != old(self)@[b]);
                }
            }
        }
        (n, true)
    }
}

/// A key asked for again gets the image it got the first time, and no new
/// image is made for it.
pub proof fn a_shared_key_makes_one_image(keys: Seq<ImageKey>, key: ImageKey)
    requires
        keys.no_duplicates(),
    ensures
        keys.push(key).contains(key),
        !keys.contains(key) ==> keys.push(key).no_duplicates(),
        !keys.contains(key) ==> keys.push(key)[keys.len() as int] == key,
{
    assert(keys.push(key)[keys.len() as int] == key);
    if !keys.contains(key) {
        assert forall|a: int, b: int| 0 <= a < b < keys.push(key).len() implies keys.push(key)[a] != keys.push(
            key,
        )[b] by {
            if b == keys.len() {
                assert(keys.push(key)[a] == keys[a]);
            } else {
                assert(keys[a] != keys[b]);
            }
        }
    }
}

/// Texel `t` of an RGBA8 image: its four bytes.
pub open spec fn texel(rgba: Seq<u8>, t: int) -> (u8, u8, u8, u8) {
    (rgba[4 * t], rgba[4 * t + 1], rgba[4 * t + 2], rgba[4 * t + 3])
}

/// Widening keeps each texel where it was: RGBA texels as they are; RGB
/// texel `t` (bytes `3t..3t+3`) with an opaque alpha; grey texel `t` spread
/// over RGB, opaque; grey-alpha texel `t` (bytes `2t`, `2t+1`) with its grey
/// spread over RGB and its alpha kept; a layout not decoded becomes opaque
/// light grey, one texel per texel of the image.
pub proof fn widening_keeps_each_texel(pixels: Seq<u8>, texels: nat)
    ensures
        spec_rgba_of(PixelLayout::Rgba8, pixels, texels) == pixels,
        spec_rgba_of(PixelLayout::Rgb8, pixels, texels).len() == 4 * (pixels.len() / 3),
        forall|t: int|
            0 <= t < pixels.len() / 3 ==> #[trigger] texel(spec_rgba_of(PixelLayout::Rgb8, pixels, texels), t) == (
                pixels[3 * t],
                pixels[3 * t + 1],
                pixels[3 * t + 2],
                255u8,
            ),
        spec_rgba_of(PixelLayout::R8, pixels, texels).len() == 4 * pixels.len(),
        forall|t: int|
            0 <= t < pixels.len() ==> #[trigger] texel(spec_rgba_of(PixelLayout::R8, pixels, texels), t) == (
                pixels[t],
                pixels[t],
                pixels[t],
                255u8,
            ),
        spec_rgba_of(PixelLayout::Rg8, pixels, texels).len() == 4 * (pixels.len() / 2),
        forall|t: int|
            0 <= t < pixels.len() / 2 ==> #[trigger] texel(spec_rgba_of(PixelLayout::Rg8, pixels, texels), t) == (
                pixels[2 * t],
                pixels[2 * t],
                pixels[2 * t],
                pixels[2 * t + 1],
            ),
        spec_rgba_of(PixelLayout::Other, pixels, texels).len() == 4 * texels,
        forall|t: int|
            0 <= t < texels ==> #[trigger] texel(spec_rgba_of(PixelLayout::Other, pixels, texels), t) == (
                200u8,
                200u8,
                200u8,
                255u8,
            ),
{
    assert forall|t: int| 0 <= t < pixels.len() / 3 implies #[trigger] texel(
        spec_rgba_of(PixelLayout::Rgb8, pixels, texels),
        t,
    ) == (pixels[3 * t], pixels[3 * t + 1], pixels[3 * t + 2], 255u8) by {
        assert((4 * t) / 4 == t && (4 * t + 1) / 4 == t && (4 * t + 2) / 4 == t && (4 * t + 3) / 4 == t);
        assert((4 * t) % 4 == 0 && (4 * t + 1) % 4 == 1 && (4 * t + 2) % 4 == 2 && (4 * t + 3) % 4 == 3);
    }
    assert forall|t: int| 0 <= t < pixels.len() implies #[trigger] texel(
        spec_rgba_of(PixelLayout::R8, pixels, texels),
        t,
    ) == (pixels[t], pixels[t], pixels[t], 255u8) by {
        assert((4 * t) / 4 == t && (4 * t + 1) / 4 == t && (4 * t + 2) / 4 == t && (4 * t + 3) / 4 == t);
        assert((4 * t) % 4 == 0 && (4 * t + 1) % 4 == 1 && (4 * t + 2) % 4 == 2 && (4 * t + 3) % 4 == 3);
    }
    assert forall|t: int| 0 <= t < pixels.len() / 2 implies #[trigger] texel(
        spec_rgba_of(PixelLayout::Rg8, pixels, texels),
        t,
    ) == (pixels[2 * t], pixels[2 * t], pixels[2 * t], pixels[2 * t + 1]) by {
        assert((4 * t) / 4 == t && (4 * t + 1) / 4 == t && (4 * t + 2) / 4 == t && (4 * t + 3) / 4 == t);
        assert((4 * t) % 4 == 0 && (4 * t + 1) % 4 == 1 && (4 * t + 2) % 4 == 2 && (4 * t + 3) % 4 == 3);
    }
    assert forall|t: int| 0 <= t < texels implies #[trigger] texel(
        spec_rgba_of(PixelLayout::Other, pixels, texels),
        t,
    ) == (200u8, 200u8, 200u8, 255u8) by {
        assert((4 * t) % 4 == 0 && (4 * t + 1) % 4 == 1 && (4 * t + 2) % 4 == 2 && (4 * t + 3) % 4 == 3);
    }
}

} // verus!
