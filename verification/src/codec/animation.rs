//! Browser-friendly animation containers: the codec choice, its options, and
//! the checks an encode applies before any pixel is touched.

use vstd::prelude::*;

verus! {

/// Browser-friendly animation containers (no ffmpeg).
#[derive(Clone, Copy, Debug, PartialEq, Eq, Structural)]
pub enum BrowserCodec {
    Gif,
    Apng,
    Webm,
    /// H.264 in an MP4 container (`avc1` + `avcC`). Universally playable.
    Mp4,
    /// HEVC in an MP4 container (`hvc1` + `hvcC`), transform-coded; smaller
    /// than [`Mp4`](Self::Mp4) but with narrower playback reach.
    Mp4Hevc,
}

impl BrowserCodec {
    /// The file extension / short name of the container.
    pub fn label(self) -> (s: &'static str)
        ensures
            s@ == (match self {
                BrowserCodec::Gif => "gif"@,
                BrowserCodec::Apng => "apng"@,
                BrowserCodec::Webm => "webm"@,
                BrowserCodec::Mp4 | BrowserCodec::Mp4Hevc => "mp4"@,
            }),
    {
        match self {
            BrowserCodec::Gif => "gif",
            BrowserCodec::Apng => "apng",
            BrowserCodec::Webm => "webm",
            BrowserCodec::Mp4 | BrowserCodec::Mp4Hevc => "mp4",
        }
    }
}

/// Progress phase of an animation export.
#[derive(Clone, Copy, Debug, PartialEq, Eq, Structural)]
pub enum AnimationExportPhase {
    Capture,
    Encode,
    Done,
}

/// Errors produced while encoding a browser animation.
#[derive(Debug)]
pub enum AnimationEncodeError {
    Empty,
    FrameSize { frame: usize, expected: usize, got: usize },
    Dimension,
    Io(String),
}

/// Options for an animation encode.
pub struct AnimationEncodeOptions {
    pub width: u32,
    pub height: u32,
    pub fps: u32,
    pub codec: BrowserCodec,
    pub transparent: bool,
    /// GIF palette size (`2..=256`; normally `256`).
    pub gif_colors: u16,
}

impl Default for AnimationEncodeOptions {
    fn default() -> (o: Self)
        ensures
            o.width == 0,
            o.height == 0,
            o.fps == 30,
            o.codec == BrowserCodec::Gif,
            !o.transparent,
            o.gif_colors == 256,
    {
        AnimationEncodeOptions {
            width: 0,
            height: 0,
            fps: 30,
            codec: BrowserCodec::Gif,
            transparent: false,
            gif_colors: 256,
        }
    }
}

/// Whether the options describe an encodable animation: the frame size fits
/// `u32` bytes, nothing is zero, the rate fits a 16-bit delay denominator,
/// and each container's own limits hold (a 2–256 colour palette and 16-bit
/// sides for GIF, sides a multiple of 8 for WebM, even sides for MP4).
pub open spec fn options_valid(o: AnimationEncodeOptions) -> bool {
    &&& o.width * o.height * 4 <= u32::MAX
    &&& o.width != 0 && o.height != 0
    &&& o.fps != 0 && o.fps <= u16::MAX
    &&& o.codec == BrowserCodec::Gif ==> 2 <= o.gif_colors <= 256 && o.width <= u16::MAX && o.height <= u16::MAX
    &&& o.codec == BrowserCodec::Webm ==> o.width % 8 == 0 && o.height % 8 == 0
    &&& (o.codec == BrowserCodec::Mp4 || o.codec == BrowserCodec::Mp4Hevc) ==> o.width % 2 == 0 && o.height % 2 == 0
}

/// The checks an encode makes of its options before reading any frame: the
/// size in bytes of one RGBA frame, or `Dimension`.
pub fn check_animation_options(opts: &AnimationEncodeOptions) -> (r: Result<usize, AnimationEncodeError>)
    ensures
        options_valid(*opts) ==> (r matches Ok(n) && n == opts.width * opts.height * 4),
        !options_valid(*opts) ==> r matches Err(AnimationEncodeError::Dimension),
{
    let pixels = match opts.width.checked_mul(opts.height) {
        Some(n) => n.checked_mul(4),
        None => None,
    };
    let pixels = match pixels {
        Some(p) => p,
        None => {
            proof {
                if opts.width * opts.height <= u32::MAX {
                    assert(opts.width * opts.height * 4 > u32::MAX);
                } else {
                    assert(opts.width * opts.height * 4 > u32::MAX) by (nonlinear_arith)
                        requires
                            opts.width * opts.height > u32::MAX,
                    ;
                }
            }
            return Err(AnimationEncodeError::Dimension);
        },
    };
    let gif = opts.codec == BrowserCodec::Gif;
    if opts.width == 0 || opts.height == 0 || opts.fps == 0 || opts.fps > 65535 || (gif && !(
    2 <= opts.gif_colors && opts.gif_colors <= 256)) {
        return Err(AnimationEncodeError::Dimension);
    }
    if gif && (opts.width > 65535 || opts.height > 65535) {
        return Err(AnimationEncodeError::Dimension);
    }
    if opts.codec == BrowserCodec::Webm && (opts.width % 8 != 0 || opts.height % 8 != 0) {
        return Err(AnimationEncodeError::Dimension);
    }
    if (opts.codec == BrowserCodec::Mp4 || opts.codec == BrowserCodec::Mp4Hevc) && (opts.width % 2
        != 0 || opts.height % 2 != 0) {
        return Err(AnimationEncodeError::Dimension);
    }
    Ok(pixels as usize)
}

/// The first frame whose length is not `expected`, reported as `FrameSize`;
/// `Empty` when there are no frames.
pub fn check_frame_sizes(frame_lens: &[usize], expected: usize) -> (r: Result<(), AnimationEncodeError>)
    ensures
        frame_lens@.len() == 0 ==> r matches Err(AnimationEncodeError::Empty),
        frame_lens@.len() > 0 && (forall|i: int| 0 <= i < frame_lens@.len() ==> frame_lens@[i] == expected)
            ==> r matches Ok(()),
        (exists|i: int| 0 <= i < frame_lens@.len() && frame_lens@[i] != expected) ==> r matches Err(
            AnimationEncodeError::FrameSize { .. },
        ),
        r matches Err(AnimationEncodeError::FrameSize { frame, expected: e, got }) ==> {
            &&& frame < frame_lens@.len()
            &&& e == expected
            &&& got == frame_lens@[frame as int]
            &&& got != expected
            &&& forall|i: int| 0 <= i < frame ==> frame_lens@[i] == expected
        },
        r matches Err(e) ==> (e matches AnimationEncodeError::Empty || e matches AnimationEncodeError::FrameSize { .. }),
{
    if frame_lens.len() == 0 {
        return Err(AnimationEncodeError::Empty);
    }
    let mut i: usize = 0;
    while i < frame_lens.len()
        invariant
            i <= frame_lens@.len(),
            forall|j: int| 0 <= j < i ==> frame_lens@[j] == expected,
        decreases frame_lens@.len() - i,
    {
        if frame_lens[i] != expected {
            return Err(AnimationEncodeError::FrameSize { frame: i, expected, got: frame_lens[i] });
        }
        i = i + 1;
    }
    Ok(())
}

} // verus!
