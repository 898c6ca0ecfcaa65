//! Asset-side data and the arithmetic around it: decoded images, texture
//! handles, socket bone names, keyframe import and mip chain length.
use vstd::prelude::*;

verus! {

/// RGBA8 pixels, sRGB-encoded, row-major.
pub struct ImageData {
    pub width: u32,
    pub height: u32,
    pub pixels: Vec<u8>,
}

/// What decoding `bytes` as an image of the format named by the file
/// extension `format_hint` and converting it to RGBA8 gives: width, height
/// and pixels, or nothing when the format is unknown or the bytes do not
/// decode.
pub uninterp spec fn decoded_rgba8(format_hint: Seq<char>, bytes: Seq<u8>) -> Option<(u32, u32, Seq<u8>)>;

/// Decodes `bytes` with the `image` crate: `ImageFormat::from_extension`
/// names the format (none for an unknown extension, which
/// `ImageReader::decode` then refuses), `ImageReader::decode` decodes, and
/// `DynamicImage::into_rgba8` converts. The contract claims that the result
/// is a function of the two arguments, and that the pixels cover the image:
/// `ImageBuffer` holds at least four bytes per pixel. It does not claim that
/// they are exactly that many, since `ImageBuffer::from_raw` accepts a longer
/// buffer.
#[verifier::external_body]
fn decode_rgba8(format_hint: &str, bytes: &[u8]) -> (r: Result<ImageData, String>)
    ensures
        r is Ok <==> decoded_rgba8(format_hint@, bytes@) is Some,
        r matches Ok(img) ==> decoded_rgba8(format_hint@, bytes@) == Some((img.width, img.height, img.pixels@)),
        r matches Ok(img) ==> img.pixels@.len() >= 4 * img.width * img.height,
{
    let cursor = std::io::Cursor::new(bytes);
    let reader = match image::ImageFormat::from_extension(format_hint) {
        Some(format) => image::ImageReader::with_format(cursor, format),
        None => image::ImageReader::new(cursor),
    };
    match reader.decode() {
        Ok(img) => {
            let rgba = img.into_rgba8();
            Ok(ImageData { width: rgba.width(), height: rgba.height(), pixels: rgba.into_raw() })
        },
        Err(e) => Err(e.to_string()),
    }
}

/// Decodes an encoded PNG/JPG (whose file extension is `format_hint`) into
/// tightly packed RGBA8; the error describes why the bytes did not decode.
pub fn load_image_rgba(format_hint: &str, bytes: &[u8]) -> (r: Result<ImageData, String>)
    ensures
        r is Ok <==> decoded_rgba8(format_hint@, bytes@) is Some,
        r matches Ok(img) ==> decoded_rgba8(format_hint@, bytes@) == Some((img.width, img.height, img.pixels@)),
        r matches Ok(img) ==> img.pixels@.len() >= 4 * img.width * img.height,
{
    decode_rgba8(format_hint, bytes)
}

/// Opaque handle to a loaded GPU texture.
#[derive(Clone, Copy, Debug, PartialEq, Eq, Structural)]
pub struct TextureHandle(usize);

impl TextureHandle {
    pub closed spec fn slot_index(self) -> usize {
        self.0
    }

    /// The handle of the texture stored at `index`.
    pub fn from_index(index: usize) -> (h: TextureHandle)
        ensures
            h.slot_index() == index,
    {
        TextureHandle(index)
    }

    /// Where the texture is stored.
    pub fn index(&self) -> (i: usize)
        ensures
            i == self.slot_index(),
    {
        self.0
    }
}

/// Keyframe interpolation. Cubic-spline tracks are reduced to linear ones
/// when they are imported, so only these two remain at run time.
#[derive(Clone, Copy, PartialEq, Eq, Structural, Debug)]
pub enum Interp {
    Linear,
    Step,
}

/// The keyframe values kept from a track's output accessor. A cubic-spline
/// track stores (in-tangent, value, out-tangent) per keyframe; reduced to
/// linear, only the middle value of each triple survives. Any other output,
/// or a cubic one whose length is not three per keyframe, is kept as is.
pub fn keyframe_values<T: Copy>(vals: Vec<T>, times_len: usize, is_cubic: bool) -> (r: Vec<T>)
    requires
        is_cubic ==> 3 * times_len <= usize::MAX,
    ensures
        is_cubic && vals@.len() == 3 * times_len ==> {
            &&& r@.len() == times_len
            &&& forall|i: int| 0 <= i < times_len ==> #[trigger] r@[i] == vals@[3 * i + 1]
        },
        !(is_cubic && vals@.len() == 3 * times_len) ==> r@ == vals@,
{
    if is_cubic && vals.len() == 3 * times_len {
        let mut out: Vec<T> = Vec::new();
        let mut i: usize = 0;
        while i < times_len
            invariant
                vals@.len() == 3 * times_len,
                3 * times_len <= usize::MAX,
                i <= times_len,
                out@.len() == i,
                forall|k: int| 0 <= k < i ==> #[trigger] out@[k] == vals@[3 * k + 1],
            decreases times_len - i,
        {
            out.push(vals[3 * i + 1]);
            i = i + 1;
        }
        out
    } else {
        vals
    }
}

/// Number of binary digits of `n`: the least `b` with `n < 2^b`.
pub open spec fn bit_length(n: nat) -> nat
    decreases n,
{
    if n == 0 {
        0
    } else {
        1 + bit_length(n / 2)
    }
}

pub open spec fn two_pow(e: nat) -> nat
    decreases e,
{
    if e == 0 {
        1
    } else {
        2 * two_pow((e - 1) as nat)
    }
}

/// `bit_length(n)` is the exponent of the power of two just above `n`.
pub proof fn lemma_bit_length_bounds(n: nat)
    requires
        n > 0,
    ensures
        two_pow((bit_length(n) - 1) as nat) <= n < two_pow(bit_length(n)),
    decreases n,
{
    if n > 1 {
        lemma_bit_length_bounds(n / 2);
        assert(bit_length(n) == 1 + bit_length(n / 2));
        assert(two_pow(bit_length(n)) == 2 * two_pow(bit_length(n / 2)));
        assert(two_pow(bit_length(n / 2)) == 2 * two_pow((bit_length(n / 2) - 1) as nat));
    } else {
        assert(bit_length(0) == 0);
        assert(bit_length(1) == 1);
        assert(two_pow(1) == 2 * two_pow(0));
    }
}

/// Mip levels of a full chain for a `width` x `height` image: halving the
/// larger side, rounding down, until it is one texel, counting both ends.
pub open spec fn mip_levels(width: u32, height: u32) -> nat {
    bit_length(
        if width == 0 && height == 0 {
            1nat
        } else if width >= height {
            width as nat
        } else {
            height as nat
        },
    )
}

/// Mip levels of a full chain for a `width` x `height` image.
pub fn mip_level_count(width: u32, height: u32) -> (levels: u32)
    ensures
        levels == mip_levels(width, height),
        1 <= levels <= 32,
{
    let mut v: u32 = if width >= height {
        width
    } else {
        height
    };
    if v == 0 {
        v = 1;
    }
    let ghost top = v as nat;
    proof {
        lemma_bit_length_u32(v);
    }
    let mut levels: u32 = 0;
    while v > 0
        invariant
            levels + bit_length(v as nat) == bit_length(top),
            bit_length(v as nat) <= 32 - levels,
            levels <= 32,
        decreases v,
    {
        proof {
            lemma_bit_length_u32(v);
        }
        v = v / 2;
        levels = levels + 1;
    }
    proof {
        assert(top > 0);
        assert(bit_length(top) >= 1);
    }
    levels
}

proof fn lemma_bit_length_u32(v: u32)
    ensures
        bit_length(v as nat) <= 32,
{
    assert(two_pow(32) == 0x1_0000_0000) by {
        reveal_with_fuel(two_pow, 33);
    }
    lemma_bit_length_below(v as nat, 32);
}

proof fn lemma_bit_length_below(n: nat, k: nat)
    requires
        n < two_pow(k),
    ensures
        bit_length(n) <= k,
    decreases k,
{
    if n > 0 && k > 0 {
        lemma_bit_length_below(n / 2, (k - 1) as nat);
    }
}

/// Bone names published as attachment sockets each frame.
pub struct SocketConfig {
    pub bones: Vec<String>,
}

impl Default for SocketConfig {
    fn default() -> (c: SocketConfig)
        ensures
            c.bones@.len() == 3,
            c.bones@[0]@ == "handslot.r"@,
            c.bones@[1]@ == "handslot.l"@,
            c.bones@[2]@ == "head"@,
    {
        let mut bones: Vec<String> = Vec::new();
        bones.push("handslot.r".to_owned());
        bones.push("handslot.l".to_owned());
        bones.push("head".to_owned());
        SocketConfig { bones }
    }
}

} // verus!
