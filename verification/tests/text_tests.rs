use networkle::cities::{available_cities, latest_version};
use networkle::render::{indentation, push_decimal};

#[test]
fn decimal_writing() {
    for (n, text) in [(0u32, "0"), (7, "7"), (10, "10"), (305, "305"), (u32::MAX, "4294967295")] {
        let mut s = String::from("d=");
        push_decimal(&mut s, n);
        assert_eq!(s, format!("d={}", text));
    }
}

#[test]
fn indentation_repeats_bars() {
    assert_eq!(indentation(0), "");
    assert_eq!(indentation(3), "| | | ");
}

#[test]
fn excluded_cities_are_not_offered() {
    let ids: Vec<String> = ["paris", "melbourne", "newyork", "london", "london-tube", "sydney"]
        .iter()
        .map(|s| s.to_string())
        .collect();
    assert_eq!(available_cities(&ids), vec!["paris", "london", "sydney"]);
    assert!(available_cities(&vec![]).is_empty());
}

#[test]
fn version_lookup_defaults_to_one() {
    let versions = vec![("paris".to_string(), 3u32), ("sydney".to_string(), 5)];
    assert_eq!(latest_version(&versions, &"sydney".to_string()), 5);
    assert_eq!(latest_version(&versions, &"oslo".to_string()), 1);
}
