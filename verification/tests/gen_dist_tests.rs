use rust_ising::dist_spec::{dist_kind, dist_parts_of, DistKind};
use rust_ising::ising_file::read_ising_file;
use rust_ising::ising_file_gen::{format_radix, ising_file_lines};

fn chars(s: &str) -> Vec<char> {
    s.chars().collect()
}

fn text(v: &Vec<char>) -> String {
    v.iter().collect()
}

#[test]
fn numbers_in_radix() {
    assert_eq!(text(&format_radix(0, 10)), "0");
    assert_eq!(text(&format_radix(255, 16)), "ff");
    assert_eq!(text(&format_radix(4096, 16)), "1000");
    assert_eq!(text(&format_radix(u64::MAX, 10)), "18446744073709551615");
    assert_eq!(text(&format_radix(u64::MAX, 16)), format!("{:x}", u64::MAX));
    assert_eq!(text(&format_radix(35, 36)), "z");
}

#[test]
fn generated_lines_layout() {
    let lines = ising_file_lines(
        &"1.5".to_string(),
        0xabc,
        2,
        &vec![2, 3],
        &vec!["0.5".to_string(), "-1".to_string()],
        &"2".to_string(),
        &vec!["3".to_string()],
    );
    let expected: Vec<&str> = vec![
        "$temp",
        "1.5",
        "",
        "$rng_seed",
        "abc",
        "",
        "$dim_sizes",
        "2 2 3",
        "",
        "$edge_weights_start",
        "0.5",
        "-1",
        "",
        "$mu",
        "2",
        "",
        "$external_magnetic_field",
        "3",
    ];
    assert_eq!(lines, expected);
}

#[test]
fn generated_file_reads_back() {
    let sizes = vec![3, 4];
    let n = 12;
    let edges: Vec<String> = (0..n * 2).map(|i| format!("{}", i as f64 / 4.0)).collect();
    let field: Vec<String> = (0..n).map(|i| format!("{}", -(i as f64))).collect();
    let lines = ising_file_lines(
        &"0.75".to_string(),
        987654321,
        2,
        &sizes,
        &edges,
        &"1".to_string(),
        &field,
    );
    let file = read_ising_file(&lines).ok().unwrap();
    assert_eq!(text(&file.temp_token), "0.75");
    assert_eq!(file.seed, 987654321);
    assert_eq!(file.sizes, sizes);
    assert_eq!(file.weight_tokens.len(), 24);
    for (i, token) in file.weight_tokens.iter().enumerate() {
        assert_eq!(text(token), edges[i]);
    }
    assert!(matches!(file.ground_state, rust_ising::ising_file::GroundState::Absent));
    assert!(file.starting_configs.is_none());
    assert_eq!(text(&file.mu_token), "1");
    assert_eq!(file.field_tokens.len(), 12);
    assert_eq!(text(&file.field_tokens[5]), "-5");
}

#[test]
fn distribution_parts() {
    let (kind, params) = dist_parts_of("Normal: 0.5 , 2").unwrap();
    assert_eq!(kind, chars("Normal"));
    assert_eq!(params, vec![chars("0.5"), chars("2")]);
    let (kind, params) = dist_parts_of("uniform:1,,3").unwrap();
    assert_eq!(kind, chars("uniform"));
    assert_eq!(params, vec![chars("1"), chars(""), chars("3")]);
    assert!(dist_parts_of("normal 0 1").is_none());
    let (_, params) = dist_parts_of("a:b:c").unwrap();
    assert_eq!(params, vec![chars("b:c")]);
}

#[test]
fn distribution_kinds() {
    assert_eq!(dist_kind(&chars("NORMAL"), 2), Some(DistKind::Normal));
    assert_eq!(dist_kind(&chars("Uniform"), 2), Some(DistKind::Uniform));
    assert_eq!(dist_kind(&chars("normal"), 3), None);
    assert_eq!(dist_kind(&chars("gauss"), 2), None);
}
