use office_escape::navigation::try_to_escape;
use office_escape::office::office_from_string;

#[test]
fn it_can_navigating_all_these_offices() {
    let test_cases = [
        ("00000\n00000\n00000", 2),
        ("00000\nx0000\n00000", 2),
        ("00000\nxxx0x\n00000", 2),
        ("00000\n00000\n0xx00", 1),
        (
            "xx0000000\n000xxx000\n0x000x000\n0x0x0xxx0\n000x000x0",
            6,
        ),
    ];

    for (office_str, start_col) in test_cases.iter() {
        let office = office_from_string((*office_str).to_string());
        assert!(try_to_escape(&office, *start_col).is_ok());
    }
}

#[test]
fn it_cannot_navigate_any_of_these_offices() {
    let test_cases = [
        ("xxxxx\nxxxxx\nxxxxx", 2),
        ("00000\nxxx00\nx0x00", 1),
        ("xxxxx\nx0000\n00000", 2),
        ("00x00\n0x0x0\nx000x", 2),
    ];
    for (office_str, start_col) in test_cases.iter() {
        let office = office_from_string((*office_str).to_string());
        assert!(!try_to_escape(&office, *start_col).is_ok());
    }
}

#[test]
fn a_single_row_office_is_escaped_at_once() {
    let office = office_from_string("000".to_string());
    let path = try_to_escape(&office, 1).unwrap();
    assert_eq!(path.len(), 0);
}

#[test]
fn every_path_stays_within_the_state_bound() {
    let cases = [
        ("00000\n00000\n00000", 2),
        ("xx0000000\n000xxx000\n0x000x000\n0x0x0xxx0\n000x000x0", 6),
        ("00x00\n0x0x0\nx000x", 2),
        ("xxxxx\nxxxxx\nxxxxx", 2),
    ];
    for (office_str, start_col) in cases.iter() {
        let office = office_from_string((*office_str).to_string());
        let width = office.desk_rows[0].len();
        let height = office.desk_rows.len();
        let path = match try_to_escape(&office, *start_col) {
            Ok(path) => path,
            Err(path) => path,
        };
        assert!(path.len() <= width * height * 4);
    }
}

#[test]
fn a_returned_path_never_repeats_a_state_nor_ends_on_the_exit_row() {
    let cases = [
        ("00000\nxxx0x\n00000", 2),
        ("00x00\n0x0x0\nx000x", 2),
        ("xxxxx\nxxxxx\nxxxxx", 0),
    ];
    for (office_str, start_col) in cases.iter() {
        let office = office_from_string((*office_str).to_string());
        let path = match try_to_escape(&office, *start_col) {
            Ok(path) => path,
            Err(path) => path,
        };
        for i in 0..path.len() {
            assert!(path[i].0.row != 0);
            for j in 0..i {
                assert!(path[i] != path[j]);
            }
        }
    }
}
