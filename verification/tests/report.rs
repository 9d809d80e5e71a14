use bfjit::report::{mean, output_data, Measurement};

#[test]
fn report_lists_every_engine() {
    let data = vec![
        Measurement {
            implementation: "simpleinterp".to_owned(),
            milliseconds: 12345,
        },
        Measurement {
            implementation: "opjit".to_owned(),
            milliseconds: 0,
        },
    ];
    assert_eq!(
        output_data("factorization", "Linux", "x86-64", &data),
        "{\n    \"title\": \"BF JIT factorization (Linux x86-64)\",\n    \"data\": [\n        {\"implementation\": \"simpleinterp\", \"milliseconds\": 12345},\n        {\"implementation\": \"opjit\", \"milliseconds\": 0}\n    ]\n}\n"
    );
}

#[test]
fn report_without_data_has_an_empty_list() {
    assert_eq!(
        output_data("t", "macOS", "aarch64", &vec![]),
        "{\n    \"title\": \"BF JIT t (macOS aarch64)\",\n    \"data\": [\n    ]\n}\n"
    );
}

#[test]
fn mean_rounds_down() {
    assert_eq!(mean(&vec![1, 2, 4]), Some(2));
    assert_eq!(mean(&vec![10; 10]), Some(10));
    assert_eq!(mean(&vec![]), None);
    assert_eq!(mean(&vec![u64::MAX, 1]), None);
    assert_eq!(mean(&vec![u64::MAX]), Some(u64::MAX));
}
