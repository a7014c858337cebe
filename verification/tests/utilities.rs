use clog::util::{
    agreed_byte_count, bytes_to_str, inside_out_option, inside_out_result,
    is_sortable_jira_ticket, parse_hex_str, sortable_jira_ticket, vec_to_arr, HexError,
    UnequalByteCounts,
};

#[test]
fn result_of_option_turns_inside_out() {
    let some: Result<Option<u8>, String> = Ok(Some(3));
    assert_eq!(inside_out_result(some), Some(Ok(3)));
    let none: Result<Option<u8>, String> = Ok(None);
    assert_eq!(inside_out_result(none), None);
    let error: Result<Option<u8>, String> = Err("bad".to_owned());
    assert_eq!(inside_out_result(error), Some(Err("bad".to_owned())));
}

#[test]
fn option_of_result_turns_inside_out() {
    let some: Option<Result<u8, String>> = Some(Ok(3));
    assert_eq!(inside_out_option(some), Ok(Some(3)));
    let none: Option<Result<u8, String>> = None;
    assert_eq!(inside_out_option(none), Ok(None));
    let error: Option<Result<u8, String>> = Some(Err("bad".to_owned()));
    assert_eq!(inside_out_option(error), Err("bad".to_owned()));
}

#[test]
fn vector_becomes_array_of_its_length() {
    let array: [u8; 3] = vec_to_arr(vec![1, 2, 3]);
    assert_eq!(array, [1, 2, 3]);
    let words: [String; 2] = vec_to_arr(vec!["a".to_owned(), "b".to_owned()]);
    assert_eq!(words, ["a".to_owned(), "b".to_owned()]);
    let none: [u8; 0] = vec_to_arr(vec![]);
    assert_eq!(none, []);
}

#[test]
fn hexadecimal_text_is_read_as_bytes() {
    assert_eq!(parse_hex_str("00ff10Ab"), Ok(vec![0x00, 0xff, 0x10, 0xab]));
    assert_eq!(parse_hex_str(""), Ok(vec![]));
    assert_eq!(parse_hex_str("7f"), Ok(vec![0x7f]));
}

#[test]
fn text_of_odd_length_is_no_hexadecimal_text() {
    assert_eq!(parse_hex_str("abc"), Err(HexError::OddLength));
    assert_eq!(parse_hex_str("g"), Err(HexError::OddLength));
}

#[test]
fn text_with_other_characters_is_no_hexadecimal_text() {
    assert_eq!(parse_hex_str("0g"), Err(HexError::InvalidDigit));
    assert_eq!(parse_hex_str("+f"), Err(HexError::InvalidDigit));
    assert_eq!(parse_hex_str("ab c"), Err(HexError::InvalidDigit));
    assert_eq!(parse_hex_str("éé"), Err(HexError::InvalidDigit));
}

#[test]
fn bytes_are_written_as_hexadecimal_text() {
    assert_eq!(bytes_to_str(&[0x00, 0xff, 0x10, 0xab]), "00ff10ab");
    assert_eq!(bytes_to_str(&[]), "");
    assert_eq!(bytes_to_str(&[0x09, 0x0a, 0xf0]), "090af0");
}

#[test]
fn bytes_written_are_read_back() {
    let bytes: Vec<u8> = (0..=255).collect();
    assert_eq!(parse_hex_str(&bytes_to_str(&bytes)), Ok(bytes));
}

#[test]
fn ticket_parts_into_project_and_issue() {
    assert_eq!(sortable_jira_ticket("PROJ-42"), ("PROJ", 42));
    assert_eq!(sortable_jira_ticket("A_B2-7"), ("A_B2", 7));
    assert_eq!(sortable_jira_ticket("X-0010"), ("X", 10));
    assert_eq!(sortable_jira_ticket("-5"), ("", 5));
    assert!(sortable_jira_ticket("AB-9") < sortable_jira_ticket("AB-10"));
    assert!(sortable_jira_ticket("AB-10") < sortable_jira_ticket("AC-1"));
}

#[test]
fn ticket_of_another_shape_is_not_sortable() {
    assert!(is_sortable_jira_ticket("PROJ-42"));
    assert!(!is_sortable_jira_ticket("PROJ42"));
    assert!(!is_sortable_jira_ticket("PROJ-"));
    assert!(!is_sortable_jira_ticket("PROJ-4-2"));
    assert!(!is_sortable_jira_ticket("PROJ-x"));
    assert!(!is_sortable_jira_ticket("PROJ-4294967296"));
    assert!(is_sortable_jira_ticket("PROJ-4294967295"));
}

#[test]
fn writers_agree_on_a_count() {
    assert_eq!(agreed_byte_count(9, &[]), Ok(9));
    assert_eq!(agreed_byte_count(9, &[4]), Ok(4));
    assert_eq!(agreed_byte_count(9, &[4, 4, 4]), Ok(4));
}

#[test]
fn writers_that_disagree_are_an_error() {
    assert_eq!(agreed_byte_count(9, &[4, 4, 5, 6]), Err(UnequalByteCounts { place: 2 }));
    assert_eq!(agreed_byte_count(9, &[9, 0]), Err(UnequalByteCounts { place: 1 }));
}
