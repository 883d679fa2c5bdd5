use office_escape::navigation::{Navigator, WallHuggingNavigator};
use office_escape::office::office_from_string;
use office_escape::show_path::show_path;

#[test]
fn it_can_print_an_office_and_path() {
    let office_string = "xx0000000\n000xxx000\n0x000x000\n0x0x0xxx0\n000x000x0".to_string();
    let office = office_from_string(office_string);
    let mut navigator = WallHuggingNavigator {};

    let path = navigator.try_to_escape(&office, 6).unwrap();

    assert_eq!(
        show_path(&office, &path),
        "xx0000000\n---xxx000\n-x---x000\n-x-x-xxx0\n---x---x0"
    )
}

#[test]
fn the_overlay_marks_exactly_the_visited_cells() {
    let office_string = "00000\nxxx0x\n00000".to_string();
    let office = office_from_string(office_string);
    let mut navigator = WallHuggingNavigator {};
    let path = navigator.try_to_escape(&office, 2).unwrap();

    let overlaid = show_path(&office, &path);
    let plain = office.render();
    let overlaid_rows: Vec<&str> = overlaid.split('\n').collect();
    let plain_rows: Vec<&str> = plain.split_whitespace().collect();
    assert_eq!(overlaid_rows.len(), plain_rows.len());

    for row in 0..overlaid_rows.len() {
        let overlaid_chars: Vec<char> = overlaid_rows[row].chars().collect();
        let plain_chars: Vec<char> = plain_rows[row].chars().collect();
        assert_eq!(overlaid_chars.len(), plain_chars.len());
        for col in 0..overlaid_chars.len() {
            let visited = path
                .iter()
                .any(|(loc, _)| loc.row == row && loc.col == col);
            if visited {
                assert_eq!(overlaid_chars[col], '-');
            } else {
                assert_eq!(overlaid_chars[col], plain_chars[col]);
            }
        }
    }
}
