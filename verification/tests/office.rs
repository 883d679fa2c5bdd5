use office_escape::navigation::try_to_escape;
use office_escape::office::{office_from_string, Density, Desk, Office};

fn get_number_of_occupied_desks(office: &Office) -> u32 {
    let mut count = 0;

    for row in &office.desk_rows {
        for desk in row {
            if desk.is_occupied {
                count += 1;
            }
        }
    }
    count
}

#[test]
fn it_can_create_an_empty_office() {
    let mut rng = rand::thread_rng();
    let office = Office::new(2, 2, Density { num: 0, den: 1 }, &mut rng);
    for row in office.desk_rows {
        for desk in row {
            assert_eq!(desk.is_occupied, false);
        }
    }
}

#[test]
fn it_can_create_a_full_office() {
    let mut rng = rand::thread_rng();
    let office = Office::new(2, 2, Density { num: 1, den: 1 }, &mut rng);
    for row in office.desk_rows {
        for desk in row {
            assert_eq!(desk.is_occupied, true);
        }
    }
}

#[test]
fn it_can_create_offices_of_varying_occupancy() {
    let mut rng = rand::thread_rng();
    let mut office;
    office = Office::new(3, 4, Density { num: 1, den: 2 }, &mut rng);
    assert_eq!(get_number_of_occupied_desks(&office), 6);

    office = Office::new(10, 10, Density { num: 9, den: 10 }, &mut rng);
    assert_eq!(get_number_of_occupied_desks(&office), 90);

    office = Office::new(100, 50, Density { num: 3, den: 5 }, &mut rng);
    assert_eq!(get_number_of_occupied_desks(&office), 3000);
}

#[test]
fn it_can_format_itself() {
    let desk_rows = vec![
        vec![
            Desk { is_occupied: false },
            Desk { is_occupied: false },
            Desk { is_occupied: true },
        ],
        vec![
            Desk { is_occupied: true },
            Desk { is_occupied: false },
            Desk { is_occupied: true },
        ],
        vec![
            Desk { is_occupied: false },
            Desk { is_occupied: true },
            Desk { is_occupied: false },
        ],
    ];
    let office = Office { desk_rows };

    assert_eq!(office.render(), "00x\nx0x\n0x0\n");
}

#[test]
fn a_desk_shows_its_marker() {
    assert_eq!(Desk { is_occupied: true }.marker(), 'x');
    assert_eq!(Desk { is_occupied: false }.marker(), '0');
}

#[test]
fn the_occupancy_target_rounds_down() {
    let mut rng = rand::thread_rng();
    // floor(9 * 1 / 2) = 4 occupied desks out of 9
    let office = Office::new(3, 3, Density { num: 1, den: 2 }, &mut rng);
    assert_eq!(get_number_of_occupied_desks(&office), 4);
}

#[test]
fn every_draw_gives_the_same_occupied_count() {
    let mut rng = rand::thread_rng();
    for _ in 0..20 {
        let office = Office::new(7, 5, Density { num: 3, den: 10 }, &mut rng);
        assert_eq!(get_number_of_occupied_desks(&office), 10);
    }
}

#[test]
fn an_unobstructed_office_is_always_escaped() {
    let mut rng = rand::thread_rng();
    let office = Office::new(5, 4, Density { num: 0, den: 1 }, &mut rng);
    for start_column in 0..5 {
        assert!(try_to_escape(&office, start_column).is_ok());
    }
}

#[test]
fn a_fully_occupied_office_is_never_escaped() {
    let mut rng = rand::thread_rng();
    let office = Office::new(5, 4, Density { num: 1, den: 1 }, &mut rng);
    for start_column in 0..5 {
        assert!(try_to_escape(&office, start_column).is_err());
    }
}

#[test]
fn parsing_and_rendering_are_inverse() {
    let office = office_from_string("0x0\nxx0\n000".to_string());
    assert_eq!(office.render(), "0x0\nxx0\n000\n");
}

#[test]
fn any_whitespace_separates_rows_when_parsing() {
    let office = office_from_string("0x0\r\n\r\nxx0 \t 000\u{2003}0x0".to_string());
    assert_eq!(office.render(), "0x0\nxx0\n000\n0x0\n");
}
