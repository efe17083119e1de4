use mercy::critdash::infer_dimensions;

#[test]
fn infers_mercy_shape() {
    assert_eq!(
        infer_dimensions("tail/flat/online-balanced/4096"),
        (
            "tail/flat".to_owned(),
            "online-balanced".to_owned(),
            "4096".to_owned()
        )
    );
}

#[test]
fn infers_group_candidate_without_scale() {
    assert_eq!(
        infer_dimensions("parser/simd"),
        ("parser".to_owned(), "simd".to_owned(), "default".to_owned())
    );
}

#[test]
fn keeps_simple_parameterized_benchmark_visible() {
    assert_eq!(
        infer_dimensions("fib/20"),
        ("fib".to_owned(), "default".to_owned(), "20".to_owned())
    );
}

#[test]
fn empty_parts_are_dropped_and_lone_parts_are_families() {
    assert_eq!(
        infer_dimensions(""),
        (String::new(), String::new(), "default".to_owned())
    );
    assert_eq!(
        infer_dimensions("//solo//"),
        ("solo".to_owned(), "default".to_owned(), "default".to_owned())
    );
}

#[test]
fn numeric_scales_follow_the_float_grammar() {
    assert_eq!(infer_dimensions("f/c/1.5e3").2, "1.5e3");
    assert_eq!(infer_dimensions("f/c/-.5").2, "-.5");
    assert_eq!(infer_dimensions("f/c/INF").2, "INF");
    assert_eq!(infer_dimensions("f/c/NaN").2, "NaN");
    assert_eq!(infer_dimensions("f/c/1e").2, "default");
    assert_eq!(infer_dimensions("f/c/.").2, "default");
    assert_eq!(infer_dimensions("f/c/1e").1, "1e");
    assert_eq!(infer_dimensions("a/b/c/7").0, "a/b");
}

#[test]
fn run_ids_become_safe_file_names() {
    assert_eq!(mercy::critdash::sanitize("1700000000000-a1b2c3d"), "1700000000000-a1b2c3d");
    assert_eq!(mercy::critdash::sanitize("run: v1.2/ü"), "run__v1.2__");
}
