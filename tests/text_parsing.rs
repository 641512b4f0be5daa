use simgpm::gpm::{Gpmap, MapError};
use simgpm::text::{lines_of, parse_numeral, rate_text_ok, split_bytes};

#[test]
fn split_keeps_empty_pieces() {
    assert_eq!(split_bytes(b"a,,bc,", b','), vec![b"a".to_vec(), vec![], b"bc".to_vec(), vec![]]);
    assert_eq!(split_bytes(b"", b','), vec![Vec::<u8>::new()]);
}

#[test]
fn lines_drop_final_newline_and_carriage_returns() {
    assert_eq!(lines_of(b"1,2\r\n3\n"), vec![b"1,2".to_vec(), b"3".to_vec()]);
    assert_eq!(lines_of(b"x"), vec![b"x".to_vec()]);
}

#[test]
fn numerals_parse_and_overflow() {
    assert_eq!(parse_numeral(&b"0".to_vec()), Some(0));
    assert_eq!(parse_numeral(&b"18446744073709551615".to_vec()), Some(u64::MAX));
    assert_eq!(parse_numeral(&b"18446744073709551616".to_vec()), None);
    assert_eq!(parse_numeral(&b"12a".to_vec()), None);
    assert_eq!(parse_numeral(&b"".to_vec()), None);
    assert_eq!(parse_numeral(&b"-1".to_vec()), None);
}

#[test]
fn map_text_rows_are_y_fields_are_x() {
    let g = Gpmap::parse_gpmap(b"0,1,2\n3,4,5\n", 3, 2).unwrap();
    assert_eq!(g.phenotype_at(0, 0), 0);
    assert_eq!(g.phenotype_at(2, 0), 2);
    assert_eq!(g.phenotype_at(0, 1), 3);
    assert_eq!(g.phenotype_at(1, 1), 4);
    assert_eq!(g.get_pid_list().len(), 6);
}

#[test]
fn map_text_must_match_the_grid() {
    assert_eq!(Gpmap::parse_gpmap(b"7\n", 1, 2).err(), Some(MapError::WrongRowCount));
    assert_eq!(Gpmap::parse_gpmap(b"7\n8,9\n", 2, 2).err(), Some(MapError::WrongFieldCount));
}

#[test]
fn map_text_errors() {
    assert_eq!(Gpmap::parse_gpmap(b"1\n2\n3\n", 1, 2).err(), Some(MapError::WrongRowCount));
    assert_eq!(Gpmap::parse_gpmap(b"1,2,3\n4,5\n", 2, 2).err(), Some(MapError::WrongFieldCount));
    assert_eq!(Gpmap::parse_gpmap(b"1,x\n2,3\n", 2, 2).err(), Some(MapError::BadId));
    assert_eq!(Gpmap::parse_gpmap(b"1\n", 0, 2).err(), Some(MapError::BadGrid));
    assert_eq!(Gpmap::parse_gpmap(b"1\n", usize::MAX, 2).err(), Some(MapError::BadGrid));
}

use simgpm::envfile::{parse_env, EnvFileError, RegimeKind};

#[test]
fn env_file_cycle_layout() {
    let text = b"define a fit/a.csv\ndefine b fit/b.csv\ntype cycle\n10 a\n5 b\n10 a\nend\n";
    let l = parse_env(text).ok().unwrap();
    assert_eq!(l.kind, RegimeKind::Cycle);
    assert_eq!(l.files, vec![b"fit/a.csv".to_vec(), b"fit/b.csv".to_vec(), b"fit/a.csv".to_vec()]);
    assert_eq!(l.params, vec![b"10".to_vec(), b"5".to_vec(), b"10".to_vec()]);
}

#[test]
fn env_file_const_layout_and_redefinition() {
    let text = b"define a one.csv\ndefine a two.csv\ntype const\na\nend";
    let l = parse_env(text).ok().unwrap();
    assert_eq!(l.kind, RegimeKind::Constant);
    assert_eq!(l.files, vec![b"two.csv".to_vec()]);
}

#[test]
fn env_file_switch_layout() {
    let text = b"define x x.csv\ndefine y y.csv\ntype switch_prob\n0.5 x\n1.0 y\nend\n";
    let l = parse_env(text).ok().unwrap();
    assert_eq!(l.kind, RegimeKind::SwitchProb);
    assert_eq!(l.params, vec![b"0.5".to_vec(), b"1.0".to_vec()]);
    assert_eq!(l.files, vec![b"x.csv".to_vec(), b"y.csv".to_vec()]);
}

#[test]
fn env_file_errors() {
    let err = |t: &[u8]| parse_env(t).err();
    assert_eq!(err(b"define a\ntype const\na\nend\n"), Some(EnvFileError::ShortKeywordLine));
    assert_eq!(err(b"type\nend\n"), Some(EnvFileError::ShortKeywordLine));
    assert_eq!(err(b"define a a.csv\na\nend\n"), Some(EnvFileError::MissingType));
    assert_eq!(err(b"define a a.csv\ntype const\na\n"), Some(EnvFileError::MissingEnd));
    assert_eq!(err(b"end\ndefine a a.csv\ntype const\na\n"), Some(EnvFileError::MissingEnd));
    assert_eq!(err(b"define a a.csv\ntype weekly\na\nend\n"), Some(EnvFileError::UnknownKind));
    assert_eq!(err(b"define a a.csv\ntype cycle\na\nend\n"), Some(EnvFileError::ShortRegimeLine));
    assert_eq!(err(b"define a a.csv\ntype const\nb\nend\n"), Some(EnvFileError::UndefinedAlias));
}

#[test]
fn rate_texts() {
    assert!(rate_text_ok(&b"0.01005".to_vec()));
    assert!(rate_text_ok(&b"36.5".to_vec()));
    assert!(!rate_text_ok(&b"64.0".to_vec()));
    assert!(!rate_text_ok(&b"0.0".to_vec()));
    assert!(!rate_text_ok(&b"1".to_vec()));
    assert!(!rate_text_ok(&b"1.5x".to_vec()));
    assert!(!rate_text_ok(&format!("0.{}1", "0".repeat(310)).into_bytes()));
}

use simgpm::fitness::{parse_decimal_units, parse_fitness};

#[test]
fn decimals_in_billionths() {
    assert_eq!(parse_decimal_units(&b"1".to_vec()), Some(1_000_000_000));
    assert_eq!(parse_decimal_units(&b"0.5".to_vec()), Some(500_000_000));
    assert_eq!(parse_decimal_units(&b"2.0000000019".to_vec()), Some(2_000_000_001));
    assert_eq!(parse_decimal_units(&b"18446744073.709551615".to_vec()), Some(u64::MAX));
    assert_eq!(parse_decimal_units(&b"18446744074".to_vec()), None);
    assert_eq!(parse_decimal_units(&b"1.".to_vec()), None);
    assert_eq!(parse_decimal_units(&b"-1".to_vec()), None);
    assert_eq!(parse_decimal_units(&b"1.2.3".to_vec()), None);
}

#[test]
fn fitness_file_by_phenotype() {
    assert_eq!(parse_fitness(b"1,0.5\n0,2\n2,0\n"), Some(vec![2_000_000_000, 500_000_000, 0]));
    assert_eq!(parse_fitness(b"1,0.5\n1,0.25\n"), Some(vec![0, 250_000_000]));
    assert_eq!(parse_fitness(b"2,1\n0,1\n"), None);
    assert_eq!(parse_fitness(b"0,x\n"), None);
    assert_eq!(parse_fitness(b"0,1,2\n"), None);
}

#[test]
fn map_ids_listed_in_text_order() {
    let g = Gpmap::parse_gpmap(b"2,1\n1,3\n", 2, 2).unwrap();
    assert_eq!(g.get_pid_list(), &vec![2, 1, 3]);
}
