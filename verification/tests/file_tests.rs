use rust_ising::bits::Spins;
use rust_ising::config_hex::bitvec_to_hex_string;
use rust_ising::ground_state_file::{insert_ground_state, GroundStateWriteError};
use rust_ising::ising_file::{read_ising_file, GroundState, IsingFileError};

fn lines_of(text: &str) -> Vec<String> {
    text.lines().map(|l| l.to_string()).collect()
}

fn s(v: &Vec<char>) -> String {
    v.iter().collect()
}

const BASE: &str = "$temp
1.5

$rng_seed
0x2A

$dim_sizes
1 3

$edge_weights_start
0.1
0.2
0.3

$mu
2.0

$external_magnetic_field
-1
-2
-3
";

const WITH_CONFIGS: &str = "$temp
1.5

$rng_seed
0x2A

$dim_sizes
1 3

$edge_weights_start
0.1
0.2
0.3

$mu
2.0

$external_magnetic_field
-1
-2
-3

$starting_configs
05 0.25
02 0.75

$ground_state_approx
06
";

#[test]
fn reads_every_section() {
    let file = read_ising_file(&lines_of(WITH_CONFIGS)).ok().unwrap();
    assert_eq!(s(&file.temp_token), "1.5");
    assert_eq!(file.seed, 42);
    assert_eq!(file.sizes, vec![3]);
    let weights: Vec<String> = file.weight_tokens.iter().map(s).collect();
    assert_eq!(weights, vec!["0.1", "0.2", "0.3"]);
    assert_eq!(
        file.weight_slots,
        vec![Some(0), Some(1), Some(2), Some(0), Some(1), Some(2)]
    );
    assert_eq!(s(&file.mu_token), "2.0");
    let field: Vec<String> = file.field_tokens.iter().map(s).collect();
    assert_eq!(field, vec!["-1", "-2", "-3"]);
    let configs = file.starting_configs.unwrap();
    assert_eq!(configs.len(), 2);
    assert_eq!(configs[0].config.to_bools(), vec![true, false, true]);
    assert_eq!(s(&configs[0].weight), "0.25");
    assert_eq!(configs[1].config.to_bools(), vec![false, true, false]);
    assert_eq!(s(&configs[1].weight), "0.75");
    match file.ground_state {
        GroundState::Config(c) => assert_eq!(c.to_bools(), vec![false, true, true]),
        _ => panic!("ground state expected"),
    }
}

#[test]
fn optional_sections_may_be_absent() {
    let file = read_ising_file(&lines_of(BASE)).ok().unwrap();
    assert!(file.starting_configs.is_none());
    assert!(matches!(file.ground_state, GroundState::Absent));
}

#[test]
fn seed_without_prefix_and_with_spaces() {
    let text = BASE.replace("0x2A", "  ff  ");
    let file = read_ising_file(&lines_of(&text)).ok().unwrap();
    assert_eq!(file.seed, 255);
}

#[test]
fn size_two_axis_reads_both_slots() {
    let text = "$temp\n1\n$rng_seed\n1\n$dim_sizes\n1 2\n$edge_weights_start\n5\n6\n$mu\n1\n$external_magnetic_field\n0\n0\n";
    let file = read_ising_file(&lines_of(text)).ok().unwrap();
    let weights: Vec<String> = file.weight_tokens.iter().map(s).collect();
    assert_eq!(weights, vec!["5", "6"]);
    assert_eq!(file.weight_slots, vec![Some(0), Some(1), Some(1), Some(0)]);
}

#[test]
fn length_one_axis_has_no_weights() {
    let text = "$temp\n1\n$rng_seed\n1\n$dim_sizes\n2 1 2\n$edge_weights_start\n7\n8\n$mu\n1\n$external_magnetic_field\n0\n0\n";
    let file = read_ising_file(&lines_of(text)).ok().unwrap();
    assert_eq!(file.weight_tokens.len(), 2);
    assert_eq!(
        file.weight_slots,
        vec![None, None, Some(0), Some(1), None, None, Some(1), Some(0)]
    );
}

fn error_of(text: &str) -> IsingFileError {
    match read_ising_file(&lines_of(text)) {
        Err(e) => e,
        Ok(_) => panic!("an error was expected"),
    }
}

#[test]
fn header_errors() {
    assert_eq!(error_of("nothing\n"), IsingFileError::NoTemperature);
    assert_eq!(error_of("$temp\n"), IsingFileError::NoTemperatureLine);
    assert_eq!(error_of("$temp\n   \n"), IsingFileError::BlankTemperature);
    assert_eq!(error_of("$temp\n1\n"), IsingFileError::NoSeed);
    assert_eq!(error_of("$temp\n1\n$rng_seed\n"), IsingFileError::NoSeed);
    assert_eq!(error_of("$temp\n1\n$rng_seed\nxyz\n"), IsingFileError::BadSeed);
    assert_eq!(error_of("$temp\n1\n$rng_seed\n1\n"), IsingFileError::NoDimSizes);
    assert_eq!(
        error_of("$temp\n1\n$rng_seed\n1\n$dim_sizes\n\n"),
        IsingFileError::BadDimension
    );
    assert_eq!(
        error_of("$temp\n1\n$rng_seed\n1\n$dim_sizes\n0\n"),
        IsingFileError::ZeroDimension
    );
    assert_eq!(
        error_of("$temp\n1\n$rng_seed\n1\n$dim_sizes\n2 3\n"),
        IsingFileError::SizesMismatch
    );
    assert_eq!(
        error_of("$temp\n1\n$rng_seed\n1\n$dim_sizes\n2 x\n"),
        IsingFileError::BadSize
    );
    assert_eq!(
        error_of("$temp\n1\n$rng_seed\n1\n$dim_sizes\n2 4294967296 4294967296\n"),
        IsingFileError::GridTooLarge
    );
}

#[test]
fn body_errors() {
    let head = "$temp\n1\n$rng_seed\n1\n$dim_sizes\n1 3\n";
    assert_eq!(error_of(head), IsingFileError::NoEdgeWeights);
    assert_eq!(
        error_of(&format!("{head}$edge_weights_start\n1\n2\n")),
        IsingFileError::MissingWeight
    );
    assert_eq!(
        error_of(&format!("{head}$edge_weights_start\n1\n\n3\n")),
        IsingFileError::BlankWeight
    );
    let weights = format!("{head}$edge_weights_start\n1\n2\n3\n");
    assert_eq!(error_of(&weights), IsingFileError::NoMu);
    assert_eq!(error_of(&format!("{weights}$mu\n")), IsingFileError::NoMu);
    assert_eq!(error_of(&format!("{weights}$mu\n \n")), IsingFileError::BlankMu);
    let mu = format!("{weights}$mu\n1\n");
    assert_eq!(error_of(&mu), IsingFileError::NoField);
    assert_eq!(
        error_of(&format!("{mu}$external_magnetic_field\n1\n2\n")),
        IsingFileError::MissingField
    );
    assert_eq!(
        error_of(&format!("{mu}$external_magnetic_field\n1\n\n2\n")),
        IsingFileError::BlankField
    );
    let field = format!("{mu}$external_magnetic_field\n1\n2\n3\n");
    let none = read_ising_file(&lines_of(&format!("{field}$starting_configs\n\n05 1\n")))
        .ok()
        .unwrap();
    assert_eq!(none.starting_configs.unwrap().len(), 0);
    let ring = "$temp\n1\n$rng_seed\n1\n$dim_sizes\n1 9\n$edge_weights_start\n1\n1\n1\n1\n1\n1\n1\n1\n1\n$mu\n1\n$external_magnetic_field\n1\n1\n1\n1\n1\n1\n1\n1\n1\n";
    assert_eq!(
        error_of(&format!("{ring}$starting_configs\n05\n")),
        IsingFileError::StartingConfigMissingEntry
    );
    assert_eq!(
        error_of(&format!("{ring}$ground_state_approx\nff\n")),
        IsingFileError::GroundStateMissingEntry
    );
    assert_eq!(
        error_of(&format!("{field}$starting_configs\n0g 1\n")),
        IsingFileError::StartingConfigNotHex
    );
    assert_eq!(
        error_of(&format!("{field}$starting_configs\n05\n")),
        IsingFileError::MissingProbability
    );
    assert_eq!(
        error_of(&format!("{field}$ground_state_approx\n0g\n")),
        IsingFileError::GroundStateNotHex
    );
    assert_eq!(
        error_of(&format!("{field}$ground_state_approx\n \n")),
        IsingFileError::GroundStateMissingEntry
    );
    let empty = read_ising_file(&lines_of(&format!("{field}$ground_state_approx\n\n")))
        .ok()
        .unwrap();
    assert!(matches!(empty.ground_state, GroundState::Empty));
}

#[test]
fn ground_state_goes_after_starting_configs() {
    let text = WITH_CONFIGS.replace("$ground_state_approx\n06\n", "$mu_extra\n");
    let lines = lines_of(&text);
    let out = insert_ground_state(&lines, &"06".to_string()).ok().unwrap();
    let at = lines.iter().position(|l| l.starts_with("$starting_configs")).unwrap() + 3;
    assert_eq!(out[..at].to_vec(), lines[..at].to_vec());
    assert_eq!(out[at], "");
    assert_eq!(out[at + 1], "$ground_state_approx");
    assert_eq!(out[at + 2], "06");
    assert_eq!(out[at + 3..].to_vec(), lines[at + 1..].to_vec());
}

#[test]
fn ground_state_goes_after_field_and_reads_back() {
    let lines = lines_of(BASE);
    let config = Spins::from_bools(&vec![true, true, false]);
    let text = bitvec_to_hex_string(&config);
    let out = insert_ground_state(&lines, &text).ok().unwrap();
    assert_eq!(out.len(), lines.len() + 3);
    assert_eq!(out[lines.len() + 1], "$ground_state_approx");
    let file = read_ising_file(&out).ok().unwrap();
    match file.ground_state {
        GroundState::Config(c) => assert_eq!(c.to_bools(), vec![true, true, false]),
        _ => panic!("ground state expected"),
    }
}

#[test]
fn ground_state_write_errors() {
    assert!(matches!(
        insert_ground_state(&lines_of(WITH_CONFIGS), &"00".to_string()),
        Err(GroundStateWriteError::AlreadyPresent)
    ));
    assert!(matches!(
        insert_ground_state(&lines_of("$temp\n1\n"), &"00".to_string()),
        Err(GroundStateWriteError::NoSection)
    ));
}

#[test]
fn ground_state_insertion_keeps_other_sections() {
    let lines = lines_of(BASE);
    let before = read_ising_file(&lines).ok().unwrap();
    let config = Spins::from_bools(&vec![false, true, true]);
    let out = insert_ground_state(&lines, &bitvec_to_hex_string(&config)).ok().unwrap();
    let after = read_ising_file(&out).ok().unwrap();
    assert_eq!(after.temp_token, before.temp_token);
    assert_eq!(after.seed, before.seed);
    assert_eq!(after.sizes, before.sizes);
    assert_eq!(after.weight_tokens, before.weight_tokens);
    assert_eq!(after.weight_slots, before.weight_slots);
    assert_eq!(after.mu_token, before.mu_token);
    assert_eq!(after.field_tokens, before.field_tokens);
    assert_eq!(after.starting_configs.is_none(), before.starting_configs.is_none());
    match after.ground_state {
        GroundState::Config(c) => assert_eq!(c.to_bools(), vec![false, true, true]),
        _ => panic!("ground state expected"),
    }
}
