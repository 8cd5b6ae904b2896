use musicviz::analyzer::{SpectralAnalyzer, SpectrumPoint};
use musicviz::pipeline::{Pipeline, PipelineConfig};
use rustfft::num_complex::Complex;
use rustfft::FftPlanner;

#[test]
fn process_extracts_complex_norms_of_first_half() {
    let analyzer = SpectralAnalyzer::new(8);
    let mut spectrum: Vec<SpectrumPoint> = vec![SpectrumPoint { re: 0, im: 0 }; 8];
    spectrum[0] = SpectrumPoint { re: 3, im: 4 };
    spectrum[1] = SpectrumPoint { re: -3, im: 4 };
    spectrum[2] = SpectrumPoint { re: 5, im: 12 };
    spectrum[3] = SpectrumPoint { re: 2, im: 0 };
    let mags = analyzer.process(&spectrum);
    assert_eq!(mags, vec![5, 5, 13, 2]);
}

#[test]
fn process_is_deterministic() {
    let analyzer = SpectralAnalyzer::new(16);
    let spectrum: Vec<SpectrumPoint> =
        (0..16i64).map(|i| SpectrumPoint { re: i * 1000 - 8000, im: 31 * i }).collect();
    let a = analyzer.process(&spectrum);
    let b = analyzer.process(&spectrum);
    assert_eq!(a, b);
}

#[test]
fn zero_window_yields_zero_end_to_end() {
    // a silent window through the real transform: all-zero magnitudes, an
    // all-zero bucket array, and the smoothed array never leaves zero
    let cfg = PipelineConfig {
        n: 64,
        sample_rate: 1280,
        bins: 8,
        min_freq: 20,
        max_freq: 20000,
        avg_factor: 4,
        alpha_num: 1,
        alpha_den: 4,
        silence_floor: 100,
    };
    let mut pipeline = Pipeline::new(&cfg);
    let mut buf: Vec<Complex<f32>> = vec![Complex::new(0.0, 0.0); 64];
    let mut planner = FftPlanner::<f32>::new();
    let fft = planner.plan_fft_forward(64);
    fft.process(&mut buf);
    let spectrum: Vec<SpectrumPoint> = buf
        .iter()
        .map(|c| SpectrumPoint { re: c.re.round() as i64, im: c.im.round() as i64 })
        .collect();
    pipeline.frame(&spectrum);
    assert_eq!(pipeline.raw, vec![0; 8]);
    assert_eq!(pipeline.smoother.smoothed, vec![0; 8]);
    assert_eq!(pipeline.smoother.running_max, 0);
}

#[test]
fn sinusoid_yields_dominant_peak_at_its_bin() {
    // a pure cosine aligned with transform bin 10: the magnitude spectrum
    // peaks there and dominates every other bin by far more than 10:1
    let n: usize = 256;
    let bin: usize = 10;
    let mut buf: Vec<Complex<f32>> = (0..n)
        .map(|t| {
            let x = (2.0 * std::f32::consts::PI * bin as f32 * t as f32 / n as f32).cos();
            Complex::new((x * 1024.0).round(), 0.0)
        })
        .collect();
    let mut planner = FftPlanner::<f32>::new();
    let fft = planner.plan_fft_forward(n);
    fft.process(&mut buf);
    let spectrum: Vec<SpectrumPoint> = buf
        .iter()
        .map(|c| SpectrumPoint { re: c.re.round() as i64, im: c.im.round() as i64 })
        .collect();
    let analyzer = SpectralAnalyzer::new(n);
    let mags = analyzer.process(&spectrum);
    assert_eq!(mags.len(), n / 2);
    let mut peak_i: usize = 0;
    let mut peak: u64 = 0;
    let mut next: u64 = 0;
    for (i, &m) in mags.iter().enumerate() {
        if m > peak {
            next = peak;
            peak = m;
            peak_i = i;
        } else if m > next {
            next = m;
        }
    }
    assert_eq!(peak_i, bin);
    assert!(peak >= 10 * next.max(1));
}

#[test]
fn shape_invariants_hold_across_frames() {
    let cfg = PipelineConfig {
        n: 64,
        sample_rate: 1280,
        bins: 8,
        min_freq: 20,
        max_freq: 20000,
        avg_factor: 4,
        alpha_num: 1,
        alpha_den: 4,
        silence_floor: 100,
    };
    let mut pipeline = Pipeline::new(&cfg);
    let spectrum: Vec<SpectrumPoint> =
        (0..64i64).map(|i| SpectrumPoint { re: 100 * i, im: -7 * i }).collect();
    for k in 0..10 {
        if k % 3 == 0 {
            pipeline.frame_idle(true);
        } else {
            pipeline.frame(&spectrum);
        }
        assert_eq!(pipeline.raw.len(), 8);
        assert_eq!(pipeline.smoother.smoothed.len(), 8);
    }
}
