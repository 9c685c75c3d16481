use iv_compat::import::compatibility_row;
use iv_compat::import::ImportError;
use iv_compat::import::parse_header;
use iv_compat::import::parse_row;
use iv_compat::import::store_row;

fn columns() -> Vec<String> {
    parse_header("name,type,A,B,C")
}

#[test]
fn header_names_the_columns() {
    assert_eq!(columns(), vec!["A".to_string(), "B".to_string(), "C".to_string()]);
    assert_eq!(parse_header("name,type"), Vec::<String>::new());
    assert_eq!(parse_header("name"), Vec::<String>::new());
    assert_eq!(parse_header(""), Vec::<String>::new());
    assert_eq!(parse_header("name,type,,X"), vec!["".to_string(), "X".to_string()]);
}

#[test]
fn row_holds_name_type_and_evidence() {
    let row = parse_row("B,2,3:0:1,,10:20:30", &columns()).unwrap();
    assert_eq!(row.name, "B");
    assert_eq!(row.inf_type, 2);
    assert_eq!(row.compat, vec![("A".to_string(), (3, 0, 1)), ("C".to_string(), (10, 20, 30))]);
}

#[test]
fn row_without_evidence() {
    let row = parse_row("Saline,1,,,", &columns()).unwrap();
    assert_eq!(row.name, "Saline");
    assert_eq!(row.inf_type, 1);
    assert!(row.compat.is_empty());
    let bare = parse_row("X,7", &vec![]).unwrap();
    assert_eq!(bare.inf_type, 7);
}

#[test]
fn row_with_wrong_number_of_cells_is_rejected() {
    assert_eq!(parse_row("B,2,1:0:0,", &columns()).unwrap_err(), ImportError::ColumnMismatch);
    assert_eq!(parse_row("B,2,,,,", &columns()).unwrap_err(), ImportError::ColumnMismatch);
}

#[test]
fn row_without_type_is_rejected() {
    assert_eq!(parse_row("B", &columns()).unwrap_err(), ImportError::MalformedRow);
    assert_eq!(parse_row("", &columns()).unwrap_err(), ImportError::MalformedRow);
    assert_eq!(parse_row("B,x,,,", &columns()).unwrap_err(), ImportError::MalformedRow);
    assert_eq!(parse_row("B,,,,", &columns()).unwrap_err(), ImportError::MalformedRow);
    assert_eq!(parse_row("B,4294967296,,,", &columns()).unwrap_err(), ImportError::MalformedRow);
}

#[test]
fn malformed_cell_is_rejected() {
    assert_eq!(parse_row("B,2,1:0,,", &columns()).unwrap_err(), ImportError::MalformedCell);
    assert_eq!(parse_row("B,2,1:0:0:0,,", &columns()).unwrap_err(), ImportError::MalformedCell);
    assert_eq!(parse_row("B,2,,a:0:0,", &columns()).unwrap_err(), ImportError::MalformedCell);
    assert_eq!(parse_row("B,2,,,1::2", &columns()).unwrap_err(), ImportError::MalformedCell);
    assert_eq!(parse_row("B,2,,,-1:0:2", &columns()).unwrap_err(), ImportError::MalformedCell);
    assert_eq!(parse_row("B,2,,,1:0:99999999999", &columns()).unwrap_err(), ImportError::MalformedCell);
}

#[test]
fn largest_count_is_read() {
    let row = parse_row("B,4294967295,0:4294967295:007,,", &columns()).unwrap();
    assert_eq!(row.inf_type, 4294967295);
    assert_eq!(row.compat, vec![("A".to_string(), (0, 4294967295, 7))]);
}

#[test]
fn smaller_id_comes_first_in_the_store() {
    assert_eq!(compatibility_row(3, 8, (1, 2, 3)), (3, 8, 1, 2, 3));
    assert_eq!(compatibility_row(8, 3, (1, 2, 3)), (3, 8, 1, 2, 3));
    assert_eq!(compatibility_row(0, 4294967295, (0, 0, 9)), (0, 4294967295, 0, 0, 9));
}

#[test]
fn no_row_for_an_infusion_paired_with_itself() {
    assert_eq!(store_row(4, 4, (1, 0, 0)), None);
    assert_eq!(store_row(0, 0, (0, 0, 0)), None);
    assert_eq!(store_row(4, 5, (1, 0, 2)), Some((4, 5, 1, 0, 2)));
    assert_eq!(store_row(5, 4, (1, 0, 2)), Some((4, 5, 1, 0, 2)));
}
