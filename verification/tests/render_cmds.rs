use musicviz::render::{
    draw_commands, frequency_draw_commands, wave_draw_commands, VisualizationStrategy,
};

#[test]
fn frequency_columns_exact() {
    let smoothed: Vec<u64> = vec![100, 100, 100, 100];
    let cmds = frequency_draw_commands(&smoothed, 100, 100, 100);
    // one instruction per bucket
    assert_eq!(cmds.len(), 4);
    // base width 100*1024/4 = 25600; first column stretched by 4*33/16000
    let c0 = cmds[0];
    assert_eq!(c0.x0, 0);
    assert_eq!(c0.y0, 102400);
    assert_eq!(c0.x1, 0);
    assert_eq!(c0.y1, 51200); // full-scale value: half the display height
    assert_eq!(c0.thickness, 211);
    assert_eq!((c0.red, c0.green, c0.blue, c0.alpha), (1024, 0, 0, 1024));
    let c1 = cmds[1];
    assert_eq!(c1.x0, 211);
    assert_eq!(c1.thickness, 158);
    // color ramp at sqrt(1/4) of the way: half red, half blue
    assert_eq!((c1.red, c1.blue), (512, 512));
    let c2 = cmds[2];
    assert_eq!(c2.x0, 211 + 158);
    assert_eq!(c2.thickness, 105);
    assert_eq!((c2.red, c2.blue), (1024 - 724, 724));
    let c3 = cmds[3];
    assert_eq!(c3.x0, 211 + 158 + 105);
    assert_eq!(c3.thickness, 52);
    assert_eq!((c3.red, c3.blue), (1024 - 886, 886));
    // horizontal positions increase with the index
    assert!(c0.x0 < c1.x0 && c1.x0 < c2.x0 && c2.x0 < c3.x0);
}

#[test]
fn frequency_display_is_blank_before_any_signal() {
    // running maximum still zero: every column height is zero, none negative
    let smoothed: Vec<u64> = vec![0, 0, 0, 0, 0];
    let cmds = frequency_draw_commands(&smoothed, 0, 640, 480);
    assert_eq!(cmds.len(), 5);
    for c in cmds {
        assert_eq!(c.y1, c.y0);
    }
}

#[test]
fn wave_segments_exact() {
    let samples: Vec<i32> = vec![0, 100, -100, 50, 25, 0];
    let cmds = wave_draw_commands(&samples, 4, 8);
    // stride 1, stops a stride short of the end: segments at 0, 1, 2, 3
    assert_eq!(cmds.len(), 4);
    let c0 = cmds[0];
    // base 4*1024/6 = 682, mid 4096, amplitude 2048
    assert_eq!(c0.x0, 0);
    assert_eq!(c0.y0, 4096);
    assert_eq!(c0.x1, 682);
    assert_eq!(c0.y1, 4096 + 100 * 2048 / 1024);
    assert_eq!((c0.red, c0.blue), (0, 1024));
    let c2 = cmds[2];
    assert_eq!(c2.x0, 2 * 682);
    assert_eq!(c2.y0, 4096 - 200);
    assert_eq!(c2.red, 250);
    assert_eq!(c2.blue, 1024 - 250);
}

#[test]
fn wave_display_skips_by_stride_when_dense() {
    // 40 samples over 10 columns: stride 4, segments at 0, 4, 8, ..
    let samples: Vec<i32> = vec![7; 40];
    let cmds = wave_draw_commands(&samples, 10, 8);
    // it runs while it + 1 + 4 < 40: 0, 4, .., 32
    assert_eq!(cmds.len(), 9);
    let base = 10 * 1024 / 40;
    assert_eq!(cmds[1].x0, (4 * base) as i64);
}

#[test]
fn strategies_dispatch_to_their_displays() {
    let samples: Vec<i32> = vec![0, 100, -100, 50, 25, 0];
    let smoothed: Vec<u64> = vec![100, 100, 100, 100];
    let wave = draw_commands(&VisualizationStrategy::AudioWave, &samples, &smoothed, 100, 100, 100);
    assert_eq!(wave, wave_draw_commands(&samples, 100, 100));
    let freq = draw_commands(
        &VisualizationStrategy::FrequencySpectrum,
        &samples,
        &smoothed,
        100,
        100,
        100,
    );
    assert_eq!(freq, frequency_draw_commands(&smoothed, 100, 100, 100));
}
