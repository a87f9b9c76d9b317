use reducers::parallel::{
    axis_order_grain, axis_parallel_chunks, axis_scan_grain, chunks_for, default_parallel_grains,
    minmax_1d_grain, minmax_1d_parallel_chunks, parallel_grain, parallel_grains,
    set_axis_order_grain, set_axis_scan_grain, set_minmax_1d_grain, set_parallel_grain,
    set_parallel_grains,
    AxisParallelClass, GrainCache, GrainKey,
};

#[test]
fn chunks_for_ramps_with_work_and_caps_at_threads() {
    assert_eq!(chunks_for(0, 16, 8), 1);
    assert_eq!(chunks_for(15, 16, 8), 1);
    assert_eq!(chunks_for(16, 16, 8), 1);
    assert_eq!(chunks_for(32, 16, 8), 2);
    assert_eq!(chunks_for(64, 16, 8), 4);
    assert_eq!(chunks_for(1024, 16, 8), 8);
}

#[test]
fn chunks_for_handles_zero_thread_input() {
    assert_eq!(chunks_for(1024, 16, 0), 1);
}

#[test]
fn axis_parallel_classes_are_explicit() {
    assert_eq!(AxisParallelClass::ScanPlain, AxisParallelClass::ScanPlain);
    assert_ne!(AxisParallelClass::ScanPlain, AxisParallelClass::OrderMedian);
}

#[test]
fn chunks_for_zero_grain_counts_as_one() {
    assert_eq!(chunks_for(5, 0, 8), 5);
    assert_eq!(chunks_for(100, 0, 8), 8);
}

fn defaults() -> GrainCache {
    GrainCache::new(Vec::new())
}

#[test]
fn built_in_grains() {
    let mut g = defaults();
    assert_eq!(axis_scan_grain(&mut g), 262_144);
    assert_eq!(axis_order_grain(&mut g), 1_024);
    assert_eq!(minmax_1d_grain(&mut g), 65_536);
    assert_eq!(parallel_grain(&mut g, "axis_scan_nan"), Ok(262_144));
    assert_eq!(parallel_grain(&mut g, "axis_scan_var"), Ok(262_144));
    assert_eq!(parallel_grain(&mut g, "axis_weighted"), Ok(262_144));
    assert_eq!(parallel_grain(&mut g, "axis_order_percentile"), Ok(1_024));
}

#[test]
fn default_grains_in_name_order() {
    let d = default_parallel_grains();
    assert_eq!(
        d,
        vec![
            ("axis_order_median", 1_024),
            ("axis_order_percentile", 1_024),
            ("axis_scan_nan", 262_144),
            ("axis_scan_plain", 262_144),
            ("axis_scan_var", 262_144),
            ("axis_weighted", 262_144),
            ("minmax_1d", 65_536),
        ]
    );
    let mut names: Vec<&str> = d.iter().map(|p| p.0).collect();
    let before = names.clone();
    names.sort();
    assert_eq!(names, before);
}

#[test]
fn unknown_grain_name_is_an_error() {
    let mut g = defaults();
    assert_eq!(parallel_grain(&mut g, "axis_scan"), Err("unknown parallel grain"));
    assert_eq!(parallel_grain(&mut g, ""), Err("unknown parallel grain"));
    assert_eq!(set_parallel_grain(&mut g, "nope", 5), Err("unknown parallel grain"));
    assert_eq!(parallel_grains(&mut g), default_parallel_grains());
}

#[test]
fn zero_grain_is_refused() {
    let mut g = defaults();
    assert_eq!(
        set_parallel_grain(&mut g, "axis_weighted", 0),
        Err("parallel grains must be positive integers")
    );
    assert_eq!(set_axis_scan_grain(&mut g, 0), Err("parallel grains must be positive integers"));
    assert_eq!(set_axis_order_grain(&mut g, 0), Err("parallel grains must be positive integers"));
    assert_eq!(set_minmax_1d_grain(&mut g, 0), Err("parallel grains must be positive integers"));
    assert_eq!(parallel_grains(&mut g), default_parallel_grains());
}

#[test]
fn read_after_write() {
    let mut g = defaults();
    assert_eq!(set_parallel_grain(&mut g, "axis_weighted", 77), Ok(77));
    assert_eq!(parallel_grain(&mut g, "axis_weighted"), Ok(77));
    assert_eq!(parallel_grain(&mut g, "axis_weighted"), Ok(77));
    // the others keep theirs
    assert_eq!(parallel_grain(&mut g, "axis_scan_plain"), Ok(262_144));
    assert_eq!(set_axis_scan_grain(&mut g, 9), Ok(()));
    assert_eq!(axis_scan_grain(&mut g), 9);
    assert_eq!(parallel_grain(&mut g, "axis_scan_plain"), Ok(9));
    assert_eq!(set_axis_order_grain(&mut g, 10), Ok(()));
    assert_eq!(parallel_grain(&mut g, "axis_order_median"), Ok(10));
    assert_eq!(set_minmax_1d_grain(&mut g, 11), Ok(()));
    assert_eq!(minmax_1d_grain(&mut g), 11);
    assert_eq!(
        parallel_grains(&mut g),
        vec![
            ("axis_order_median", 10),
            ("axis_order_percentile", 1_024),
            ("axis_scan_nan", 262_144),
            ("axis_scan_plain", 9),
            ("axis_scan_var", 262_144),
            ("axis_weighted", 77),
            ("minmax_1d", 11),
        ]
    );
}

fn with_override(key: GrainKey, text: &str) -> GrainCache {
    let overrides: Vec<Option<String>> = GrainKey::all()
        .into_iter()
        .map(|k| if k == key { Some(text.to_string()) } else { None })
        .collect();
    GrainCache::new(overrides)
}

#[test]
fn override_text_is_parsed() {
    let mut g = with_override(GrainKey::AxisScanNan, "4096");
    assert_eq!(parallel_grain(&mut g, "axis_scan_nan"), Ok(4096));
    assert_eq!(parallel_grain(&mut g, "axis_scan_plain"), Ok(262_144));
    let mut g = with_override(GrainKey::Minmax1d, "+12");
    assert_eq!(minmax_1d_grain(&mut g), 12);
}

#[test]
fn bad_override_text_falls_back_to_default() {
    for text in ["0", "", "abc", " 12", "12 ", "-3", "1_000", "+", "99999999999999999999999"] {
        let mut g = with_override(GrainKey::AxisOrderMedian, text);
        assert_eq!(axis_order_grain(&mut g), 1_024, "text {text:?}");
    }
}

#[test]
fn a_write_overrides_the_override_text() {
    let mut g = with_override(GrainKey::AxisScanPlain, "64");
    assert_eq!(axis_scan_grain(&mut g), 64);
    assert_eq!(set_parallel_grain(&mut g, "axis_scan_plain", 128), Ok(128));
    assert_eq!(axis_scan_grain(&mut g), 128);
}

#[test]
fn key_names_round_trip() {
    for k in GrainKey::all() {
        assert_eq!(GrainKey::from_name(k.name()), Some(k));
        assert!(k.env_name().starts_with("REDUCERS_"));
        assert!(k.env_name().ends_with("_GRAIN"));
        assert!(k.default_grain() > 0);
    }
    assert_eq!(GrainKey::AxisScanPlain.env_name(), "REDUCERS_AXIS_SCAN_PLAIN_GRAIN");
    assert_eq!(GrainKey::Minmax1d.env_name(), "REDUCERS_MINMAX_1D_GRAIN");
    assert_eq!(GrainKey::from_name("minmax_1"), None);
}

#[test]
fn axis_chunks_stay_within_threads() {
    let threads = rayon::current_num_threads();
    let mut g = defaults();
    assert_eq!(axis_parallel_chunks(&mut g, AxisParallelClass::ScanPlain, 10, 10), 1);
    let c = axis_parallel_chunks(&mut g, AxisParallelClass::OrderMedian, 1_000, 1_000);
    assert!(c >= 1);
    assert!(c <= threads.max(1));
    assert_eq!(set_parallel_grain(&mut g, "axis_order_median", 1), Ok(1));
    let c2 = axis_parallel_chunks(&mut g, AxisParallelClass::OrderMedian, 1_000, 1_000);
    assert!(c2 >= c);
    // saturating work does not overflow
    let c3 = axis_parallel_chunks(&mut g, AxisParallelClass::Weighted, usize::MAX, 3);
    assert!(c3 >= 1);
    assert_eq!(minmax_1d_parallel_chunks(&mut g, 3), 1);
}

fn batch(pairs: &[(&str, usize)]) -> Vec<(String, usize)> {
    pairs.iter().map(|(k, v)| (k.to_string(), *v)).collect()
}

#[test]
fn batch_of_grains_all_or_nothing() {
    let mut g = defaults();
    let all = set_parallel_grains(&mut g, &batch(&[("minmax_1d", 7), ("axis_scan_nan", 9)]))
        .unwrap();
    assert_eq!(all, parallel_grains(&mut g));
    assert_eq!(minmax_1d_grain(&mut g), 7);
    assert_eq!(parallel_grain(&mut g, "axis_scan_nan"), Ok(9));
    assert_eq!(axis_scan_grain(&mut g), 262_144);

    // an unknown name anywhere refuses the batch and changes nothing
    assert_eq!(
        set_parallel_grains(&mut g, &batch(&[("minmax_1d", 3), ("nope", 5)])),
        Err("unknown parallel grain")
    );
    assert_eq!(minmax_1d_grain(&mut g), 7);
    // so does a zero value
    assert_eq!(
        set_parallel_grains(&mut g, &batch(&[("axis_weighted", 0), ("nope", 5)])),
        Err("parallel grains must be positive integers")
    );
    assert_eq!(parallel_grain(&mut g, "axis_weighted"), Ok(262_144));
    // the first refused pair decides the error
    assert_eq!(
        set_parallel_grains(&mut g, &batch(&[("nope", 0), ("minmax_1d", 0)])),
        Err("unknown parallel grain")
    );
    // a later write under the same name wins
    set_parallel_grains(&mut g, &batch(&[("minmax_1d", 11), ("minmax_1d", 12)])).unwrap();
    assert_eq!(minmax_1d_grain(&mut g), 12);
    // an empty batch changes nothing
    let before = parallel_grains(&mut g);
    assert_eq!(set_parallel_grains(&mut g, &Vec::new()), Ok(before));
}
