use auris::fingerprint::peaks::{extract_peaks, filter_by_density, peaks_to_constellation, sliding_max_centered, Peak, PeakGrid};
use auris::fingerprint::spectrogram::{frame_to_ms, spectrogram_layout, SpectrogramConfig, SpectrogramError};

/// Order-preserving key of a non-negative float.
fn key(x: f32) -> u32 {
    x.to_bits()
}

fn unkey(k: u32) -> f32 {
    f32::from_bits(k)
}

#[test]
fn test_sliding_max_centered() {
    let input: Vec<f32> = vec![1.0, 2.0, 1.5, 3.0, 2.5, 1.0];
    let keys: Vec<u32> = input.iter().map(|&x| key(x)).collect();
    let mut output_keys = vec![0u32; keys.len()];
    sliding_max_centered(&keys, 1, &mut output_keys);
    let output: Vec<f32> = output_keys.iter().map(|&k| unkey(k)).collect();
    // Radius 1 means window of 3: [1,2,1.5] -> 2.0, [2,1.5,3] -> 3.0, etc.
    assert_eq!(output, vec![2.0, 2.0, 3.0, 3.0, 3.0, 2.5]);
}

fn grid_from_powers(data: &[f32], frames: usize, bins: usize, threshold: f32) -> PeakGrid {
    let sample_rate = 8000u32;
    let window_size = 1024usize;
    PeakGrid {
        power: data.iter().map(|&p| key(p)).collect(),
        magnitude: data.iter().map(|&p| key(p.sqrt())).collect(),
        loud: data.iter().map(|&p| !(p.sqrt() < threshold)).collect(),
        bin_freq_hz: (0..bins)
            .map(|f| (f as f32 * sample_rate as f32 / window_size as f32) as u16)
            .collect(),
        num_frames: frames,
        num_bins: bins,
        sample_rate,
        hop_size: 512,
    }
}

#[test]
fn test_extract_peaks_simple() {
    let mut data = vec![0.0f32; 100 * 100];
    // Create a single clear peak at (50, 50)
    data[50 * 100 + 50] = 100.0;
    let grid = grid_from_powers(&data, 100, 100, 1.0);

    let peaks = extract_peaks(&grid);
    assert!(!peaks.is_empty());
    let peak = &peaks[0];
    assert_eq!(peak.frame_idx, 50);
    assert_eq!(peak.bin_idx, 50);
}

#[test]
fn extract_peaks_exact_fields() {
    let mut data = vec![0.0f32; 100 * 100];
    data[50 * 100 + 50] = 100.0;
    data[52 * 100 + 55] = 64.0; // dominated by the first peak
    data[80 * 100 + 20] = 4.0;
    let grid = grid_from_powers(&data, 100, 100, 1.0);
    let peaks = extract_peaks(&grid);
    assert_eq!(
        peaks,
        vec![
            Peak { frame_idx: 50, bin_idx: 50, time_ms: 3200, freq_hz: 390, magnitude_key: key(10.0) },
            Peak { frame_idx: 80, bin_idx: 20, time_ms: 5120, freq_hz: 156, magnitude_key: key(2.0) },
        ]
    );
    assert_eq!(peaks_to_constellation(peaks), vec![(3200, 390), (5120, 156)]);
}

#[test]
fn extract_peaks_ignores_band_edges_and_quiet_cells() {
    let mut data = vec![0.0f32; 30 * 30];
    data[10 * 30 + 5] = 100.0; // bin 5 < 10
    data[12 * 30 + 25] = 100.0; // bin 25 >= 30 - 10
    data[20 * 30 + 15] = 0.25; // magnitude 0.5 below threshold 1.0
    let grid = grid_from_powers(&data, 30, 30, 1.0);
    assert!(extract_peaks(&grid).is_empty());
}

#[test]
fn test_filter_by_density() {
    let mut peaks = Vec::new();
    // Create 100 peaks in the same 100ms window
    for i in 0..100 {
        peaks.push(Peak {
            frame_idx: 0,
            bin_idx: i as u16,
            time_ms: 10,
            freq_hz: i as u16 * 40,
            magnitude_key: key(i as f32), // increasing magnitude
        });
    }

    filter_by_density(&mut peaks, 10);
    // Should only keep top 10 strongest
    assert_eq!(peaks.len(), 10);
    assert!(peaks.iter().all(|p| unkey(p.magnitude_key) >= 90.0));
}

#[test]
fn filter_by_density_windows_and_order() {
    let p = |t: u32, m: u32| Peak { frame_idx: 0, bin_idx: 0, time_ms: t, freq_hz: m as u16, magnitude_key: m };
    // windows: [0, 100) holds t=0,50,99; [150, 250) holds t=150,200
    let mut peaks = vec![p(200, 1), p(0, 3), p(150, 9), p(99, 5), p(50, 5)];
    filter_by_density(&mut peaks, 2);
    // strongest first, ties in time order
    assert_eq!(peaks, vec![p(50, 5), p(99, 5), p(150, 9), p(200, 1)]);
}

#[test]
fn spectrogram_layout_checks_config() {
    let config = SpectrogramConfig { sample_rate: 8000, window_size: 1024, overlap: 512 };
    let layout = spectrogram_layout(8000, config).unwrap();
    assert_eq!(layout.num_bins, 513);
    assert_eq!(layout.num_frames, 14);
    assert_eq!(layout.hop_size, 512);
    assert_eq!(
        spectrogram_layout(8000, SpectrogramConfig { window_size: 0, ..config }),
        Err(SpectrogramError::ZeroWindowSize)
    );
    assert_eq!(
        spectrogram_layout(8000, SpectrogramConfig { overlap: 1024, ..config }),
        Err(SpectrogramError::OverlapNotBelowWindow)
    );
    assert_eq!(
        spectrogram_layout(8000, SpectrogramConfig { sample_rate: 0, ..config }),
        Err(SpectrogramError::ZeroSampleRate)
    );
    assert_eq!(spectrogram_layout(1000, config), Err(SpectrogramError::AudioTooShort));
    assert_eq!(SpectrogramError::AudioTooShort.message(), "Audio too short for FFT window");
    assert_eq!(SpectrogramConfig::default(), config);
}

#[test]
fn frame_times() {
    assert_eq!(frame_to_ms(0, 512, 8000), 0);
    assert_eq!(frame_to_ms(1, 512, 8000), 64);
    assert_eq!(frame_to_ms(3, 512, 44100), 34);
}
