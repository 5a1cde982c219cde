use vstd::prelude::*;

verus! {

/// Parameters of the short-time Fourier transform.
#[derive(Debug, Clone, Copy, PartialEq, Eq)]
pub struct SpectrogramConfig {
    pub sample_rate: u32,
    /// FFT size (e.g., 1024)
    pub window_size: usize,
    pub overlap: usize,
}

impl Default for SpectrogramConfig {
    fn default() -> (config: Self)
        ensures
            config == (SpectrogramConfig { sample_rate: 8000, window_size: 1024, overlap: 512 }),
    {
        Self { sample_rate: 8000, window_size: 1024, overlap: 512 }
    }
}

/// The frame grid of a spectrogram.
#[derive(Debug, Clone, Copy, PartialEq, Eq)]
pub struct SpectrogramLayout {
    pub num_frames: usize,
    pub num_bins: usize,
    pub hop_size: usize,
}

/// Why a spectrogram cannot be computed.
#[derive(Debug, Clone, Copy, PartialEq, Eq)]
pub enum SpectrogramError {
    ZeroWindowSize,
    OverlapNotBelowWindow,
    ZeroSampleRate,
    AudioTooShort,
}

impl SpectrogramError {
    /// The error message.
    pub fn message(&self) -> (msg: &'static str)
        ensures
            *self == SpectrogramError::ZeroWindowSize ==> msg@ == "window_size must be greater than 0"@,
            *self == SpectrogramError::OverlapNotBelowWindow ==> msg@ == "overlap must be less than window_size"@,
            *self == SpectrogramError::ZeroSampleRate ==> msg@ == "sample_rate must be greater than 0"@,
            *self == SpectrogramError::AudioTooShort ==> msg@ == "Audio too short for FFT window"@,
    {
        match self {
            SpectrogramError::ZeroWindowSize => "window_size must be greater than 0",
            SpectrogramError::OverlapNotBelowWindow => "overlap must be less than window_size",
            SpectrogramError::ZeroSampleRate => "sample_rate must be greater than 0",
            SpectrogramError::AudioTooShort => "Audio too short for FFT window",
        }
    }
}

/// The frame grid for `num_samples` samples: frames of `window_size`
/// samples every `window_size - overlap` samples, and `window_size / 2 + 1`
/// frequency bins (the non-negative frequencies). Checks the configuration
/// first, in this order: a window, an overlap below the window, a sample
/// rate, then enough samples for one window.
pub fn spectrogram_layout(num_samples: usize, config: SpectrogramConfig) -> (layout: Result<
    SpectrogramLayout,
    SpectrogramError,
>)
    ensures
        config.window_size == 0 ==> layout == Err::<SpectrogramLayout, _>(SpectrogramError::ZeroWindowSize),
        config.window_size != 0 && config.overlap >= config.window_size ==> layout == Err::<
            SpectrogramLayout,
            _,
        >(SpectrogramError::OverlapNotBelowWindow),
        config.window_size != 0 && config.overlap < config.window_size && config.sample_rate == 0 ==> layout
            == Err::<SpectrogramLayout, _>(SpectrogramError::ZeroSampleRate),
        config.window_size != 0 && config.overlap < config.window_size && config.sample_rate != 0
            && num_samples < config.window_size ==> layout == Err::<SpectrogramLayout, _>(
            SpectrogramError::AudioTooShort,
        ),
        layout matches Ok(l) ==> l.num_frames >= 1 && (l.num_frames - 1) * l.hop_size + config.window_size
            <= num_samples,
        config.window_size != 0 && config.overlap < config.window_size && config.sample_rate != 0
            && num_samples >= config.window_size ==> layout == Ok::<_, SpectrogramError>(
            SpectrogramLayout {
                num_frames: ((num_samples - config.window_size) / (config.window_size - config.overlap as int)
                    + 1) as usize,
                num_bins: (config.window_size / 2 + 1) as usize,
                hop_size: (config.window_size - config.overlap) as usize,
            },
        ),
{
    if config.window_size == 0 {
        return Err(SpectrogramError::ZeroWindowSize);
    }
    if config.overlap >= config.window_size {
        return Err(SpectrogramError::OverlapNotBelowWindow);
    }
    if config.sample_rate == 0 {
        return Err(SpectrogramError::ZeroSampleRate);
    }
    let window_size = config.window_size;
    let hop_size = window_size - config.overlap;
    if num_samples < window_size {
        return Err(SpectrogramError::AudioTooShort);
    }
    let num_frames = (num_samples - window_size) / hop_size + 1;
    let num_bins = window_size / 2 + 1;
    let layout = SpectrogramLayout { num_frames, num_bins, hop_size };
    proof {
        lemma_layout_frames_fit(num_samples, config, layout);
    }
    Ok(layout)
}

/// The frames of a layout are exactly those that fit in the samples: frame
/// `k` covers samples `k * hop_size .. k * hop_size + window_size`, the last
/// frame ends within the samples and one more frame would not.
pub proof fn lemma_layout_frames_fit(num_samples: usize, config: SpectrogramConfig, layout: SpectrogramLayout)
    requires
        config.window_size != 0,
        config.overlap < config.window_size,
        num_samples >= config.window_size,
        layout.num_frames == (num_samples - config.window_size) / (config.window_size - config.overlap as int) + 1,
        layout.hop_size == config.window_size - config.overlap,
    ensures
        layout.num_frames >= 1,
        (layout.num_frames - 1) * layout.hop_size + config.window_size <= num_samples,
        layout.num_frames * layout.hop_size + config.window_size > num_samples,
{
    let n = num_samples - config.window_size;
    let h = layout.hop_size as int;
    let q = n / h;
    vstd::arithmetic::div_mod::lemma_fundamental_div_mod(n, h);
    assert(0 <= n % h < h) by {
        vstd::arithmetic::div_mod::lemma_mod_bound(n, h);
    }
    assert(q >= 0) by {
        vstd::arithmetic::div_mod::lemma_div_pos_is_pos(n, h);
    }
    assert((q + 1) * h == q * h + h) by (nonlinear_arith);
    assert(q * h == h * q) by (nonlinear_arith);
}

/// The start time of a frame in whole milliseconds, truncated to `u32`.
pub open spec fn spec_frame_to_ms(frame: int, hop_size: int, sample_rate: int) -> u32 {
    ((frame * hop_size * 1000) / sample_rate) as u32
}

/// The start time of frame `frame` in whole milliseconds.
pub fn frame_to_ms(frame: usize, hop_size: usize, sample_rate: u32) -> (ms: u32)
    requires
        sample_rate > 0,
        frame * hop_size * 1000 <= usize::MAX,
    ensures
        ms == spec_frame_to_ms(frame as int, hop_size as int, sample_rate as int),
{
    assert(frame * hop_size <= frame * hop_size * 1000) by (nonlinear_arith);
    (frame * hop_size * 1000 / sample_rate as usize) as u32
}

/// Frame times never decrease with the frame index.
pub proof fn lemma_frame_to_ms_monotone(a: int, b: int, hop_size: int, sample_rate: int)
    requires
        0 <= a <= b,
        hop_size >= 0,
        sample_rate > 0,
        b * hop_size * 1000 <= u32::MAX,
    ensures
        spec_frame_to_ms(a, hop_size, sample_rate) <= spec_frame_to_ms(b, hop_size, sample_rate),
{
    assert(a * hop_size * 1000 <= b * hop_size * 1000) by (nonlinear_arith)
        requires 0 <= a <= b, hop_size >= 0;
    assert(0 <= a * hop_size * 1000) by (nonlinear_arith)
        requires 0 <= a, hop_size >= 0;
    vstd::arithmetic::div_mod::lemma_div_is_ordered(a * hop_size * 1000, b * hop_size * 1000, sample_rate);
    vstd::arithmetic::div_mod::lemma_div_pos_is_pos(a * hop_size * 1000, sample_rate);
    vstd::arithmetic::div_mod::lemma_div_is_ordered(b * hop_size * 1000, u32::MAX as int, sample_rate);
    vstd::arithmetic::div_mod::lemma_div_is_ordered_by_denominator(u32::MAX as int, 1, sample_rate);
}

} // verus!
