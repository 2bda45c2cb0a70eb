use spreadsheet::input::file::spreadsheet_from_file;
use spreadsheet::input::spreadsheet_input;

fn cells(text: &str) -> Vec<Vec<String>> {
    spreadsheet_from_file(Some(text)).unwrap().cells
}

#[test]
fn rows_and_cells() {
    assert_eq!(
        cells("1|2\n$0:0 + $0:1|x"),
        vec![vec!["1", "2"], vec!["$0:0 + $0:1", "x"]]
    );
}

#[test]
fn empty_pieces_are_kept() {
    assert_eq!(cells(""), vec![vec![""]]);
    assert_eq!(cells("a|\n"), vec![vec!["a", ""], vec![""]]);
    assert_eq!(cells("||"), vec![vec!["", "", ""]]);
}

#[test]
fn text_round_trip() {
    let text = "1|$0:0 + 2\n\n|x|\u{e9}";
    let joined: Vec<String> = cells(text).iter().map(|row| row.join("|")).collect();
    assert_eq!(joined.join("\n"), text);
}

#[test]
fn missing_text() {
    assert!(spreadsheet_from_file(None).is_none());
}

#[test]
fn starting_spreadsheet_is_empty() {
    assert!(spreadsheet_input().cells.is_empty());
}
