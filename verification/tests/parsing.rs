use std::str::FromStr;

use sudoku::{Board, CoreError};

fn parse_msg(r: Result<Board, CoreError>) -> String {
    match r {
        Err(CoreError::Parse(m)) => m,
        other => panic!("expected a parse error, got {:?}", other),
    }
}

fn csv_msg(r: Result<Board, CoreError>) -> String {
    match r {
        Err(CoreError::Csv(m)) => m,
        other => panic!("expected a csv error, got {:?}", other),
    }
}

#[test]
fn rows_token_format() {
    let b = Board::from_rows(&["1 0 3", ". 2 .", ". . 1"]).unwrap();
    assert_eq!(b.cells, vec![1, 0, 3, 0, 2, 0, 0, 0, 1]);
    // tokens may carry multi-digit numbers and a plus sign, with any whitespace between
    let b = Board::from_rows(&["10\t.", " +2   1 "]).unwrap_err();
    assert!(matches!(b, CoreError::BadDigit { d: 10, n: 2 }));
    let b = Board::from_rows(&[" +2   1 ", "1 2"]).unwrap();
    assert_eq!(b.cells, vec![2, 1, 1, 2]);
}

#[test]
fn rows_char_format() {
    let b = Board::from_rows(&["1.3", ".2.", "0.1"]).unwrap();
    assert_eq!(b.cells, vec![1, 0, 3, 0, 2, 0, 0, 0, 1]);
}

#[test]
fn rows_errors() {
    assert!(matches!(Board::from_rows(&[]), Err(CoreError::BadDim)));
    assert_eq!(parse_msg(Board::from_rows(&["1 2 3", "1 2"])), "row 0 has 3 tokens, expected 2");
    assert_eq!(parse_msg(Board::from_rows(&["12", "123"])), "row 1 has length 3, expected 2");
    assert_eq!(
        parse_msg(Board::from_rows(&["1 2 3", "1 2", "3 1 2"])),
        "row 1 has 2 tokens, expected 3"
    );
    assert_eq!(parse_msg(Board::from_rows(&["1x", ".."])), "bad char 'x'");
    assert_eq!(parse_msg(Board::from_rows(&["1 x", ". ."])), "bad token 'x'");
    assert_eq!(parse_msg(Board::from_rows(&["1 -1", ". ."])), "bad token '-1'");
    assert!(matches!(Board::from_rows(&["13", ".."]), Err(CoreError::BadDigit { d: 3, n: 2 })));
    // the first fault decides
    assert_eq!(parse_msg(Board::from_rows(&["x.", "5."])), "bad char 'x'");
}

#[test]
fn from_str_reads_nonblank_trimmed_lines() {
    let b = Board::from_str("\n  1 . 3  \r\n. 2 .\n\n . . 1\n").unwrap();
    assert_eq!(b.cells, vec![1, 0, 3, 0, 2, 0, 0, 0, 1]);
    let b: Board = ".2.\n..3\n1..".parse().unwrap();
    assert_eq!(b.cells, vec![0, 2, 0, 0, 0, 3, 1, 0, 0]);
    assert!(matches!(Board::from_str("  \n\t\n"), Err(CoreError::BadDim)));
}

#[test]
fn csv_reading() {
    let b = Board::from_csv_str("1,.,3\n, 2 ,0\n.,.,1\n").unwrap();
    assert_eq!(b.cells, vec![1, 0, 3, 0, 2, 0, 0, 0, 1]);
    assert!(matches!(Board::from_csv_str("\n \n"), Err(CoreError::BadDim)));
    assert_eq!(csv_msg(Board::from_csv_str("1,2\n2")), "row 1 has 1 cols, expected 2");
    assert_eq!(csv_msg(Board::from_csv_str("1,x\n2,1")), "bad token 'x'");
    assert!(matches!(Board::from_csv_str("1,3\n2,1"), Err(CoreError::BadDigit { d: 3, n: 2 })));
}

#[test]
fn number_reading_follows_std() {
    // a one-cell CSV board reports the value it read through BadDigit
    for t in ["5", "+5", "007", "4294967295", "10", "+0"] {
        let expected: u32 = t.parse().unwrap();
        match Board::from_csv_str(t) {
            Ok(b) => assert_eq!(b.cells, vec![expected]),
            Err(CoreError::BadDigit { d, n: 1 }) => assert_eq!(d, expected),
            other => panic!("unexpected {:?} for {}", other, t),
        }
    }
    for t in ["-5", "+", "4294967296", "1.5", "++1", "1+", "٣"] {
        assert!(t.parse::<u32>().is_err());
        assert_eq!(csv_msg(Board::from_csv_str(t)), format!("bad token '{}'", t));
    }
}

#[test]
fn whitespace_matches_std() {
    for x in 0u32..0x3100 {
        if let Some(c) = char::from_u32(x) {
            let word = format!("a{}b", c);
            // two tokens exactly when the char is whitespace
            let r = Board::from_rows(&[word.as_str(), ".."]);
            if c.is_whitespace() {
                assert!(matches!(r, Err(CoreError::Parse(_))), "char {:#x}", x);
            }
            let csv = format!("{}1{}", c, c);
            let t = Board::from_csv_str(csv.as_str());
            if c.is_whitespace() {
                assert!(t.is_ok(), "char {:#x}", x);
            } else if c != ',' && c != '\n' {
                assert!(t.is_err(), "char {:#x}", x);
            }
        }
    }
}

#[test]
fn text_and_csv_roundtrip() {
    let b = Board { n: 4, cells: vec![1, 0, 0, 4, 0, 0, 3, 0, 0, 4, 0, 0, 2, 0, 0, 0] };
    assert_eq!(Board::from_str(&b.to_pretty_string()).unwrap(), b);
    assert_eq!(Board::from_csv_str(&b.to_csv_string()).unwrap(), b);
    let one = Board { n: 1, cells: vec![1] };
    assert_eq!(Board::from_str(&one.to_pretty_string()).unwrap(), one);
    assert_eq!(Board::from_csv_str(&one.to_csv_string()).unwrap(), one);
    let big = Board { n: 11, cells: (0..121).map(|i| (i % 12) as u32).collect() };
    assert_eq!(Board::from_str(&big.to_pretty_string()).unwrap(), big);
    assert_eq!(Board::from_csv_str(&big.to_csv_string()).unwrap(), big);
}

#[test]
fn json_grid_and_rows() {
    let grid = vec![vec![1, 0], vec![0, 1]];
    let b = Board::from_grid_values(2, &grid).unwrap();
    assert_eq!(b.cells, vec![1, 0, 0, 1]);
    assert_eq!(parse_msg(Board::from_grid_values(3, &grid)), "grid must be n x n");
    assert_eq!(parse_msg(Board::from_grid_values(2, &vec![vec![1, 0], vec![0]])), "grid must be n x n");
    assert!(matches!(Board::from_grid_values(0, &vec![]), Err(CoreError::BadDim)));
    assert!(matches!(
        Board::from_grid_values(2, &vec![vec![1, 3], vec![4, 1]]),
        Err(CoreError::BadDigit { d: 3, n: 2 })
    ));
    let rows = vec!["1.".to_string(), ".1".to_string()];
    assert_eq!(Board::from_row_strings(2, &rows).unwrap().cells, vec![1, 0, 0, 1]);
    assert_eq!(parse_msg(Board::from_row_strings(3, &rows)), "rows length != n");
}

#[test]
fn json_roundtrip_through_serde() {
    let b = Board { n: 3, cells: vec![1, 0, 3, 0, 2, 0, 0, 0, 1] };
    let text = b.to_json_string();
    let v: serde_json::Value = serde_json::from_str(&text).unwrap();
    let n = v["n"].as_u64().unwrap() as usize;
    let grid: Vec<Vec<u32>> = serde_json::from_value(v["grid"].clone()).unwrap();
    assert_eq!(Board::from_grid_values(n, &grid).unwrap(), b);
}

#[test]
fn parse_through_from_str_trait() {
    let b: Board = "1 . 3\n. 2 .\n. . 1".parse().unwrap();
    assert_eq!(b.n, 3);
    assert_eq!(b.cells, vec![1, 0, 3, 0, 2, 0, 0, 0, 1]);
    assert!(matches!("".parse::<Board>(), Err(CoreError::BadDim)));
    assert!(matches!("1x".parse::<Board>(), Err(CoreError::Parse(_))));
}
