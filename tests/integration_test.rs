use distribiuted_matrix_multiplication::error::MatrixError;
use distribiuted_matrix_multiplication::matrix::Matrix;
use distribiuted_matrix_multiplication::text_format::{from_token_rows, render, tokenize};

fn madd(acc: f64, x: f64, y: f64) -> f64 {
    acc + x * y
}

fn load_text(text: &str) -> Result<Matrix<f64>, MatrixError> {
    let chars: Vec<char> = text.chars().collect();
    let lines: Vec<Vec<Option<f64>>> = tokenize(&chars)
        .iter()
        .map(|line| {
            line.iter()
                .map(|tok| tok.iter().collect::<String>().parse::<f64>().ok())
                .collect()
        })
        .collect();
    from_token_rows(&lines)
}

fn save_text(m: &Matrix<f64>) -> String {
    let rows: Vec<Vec<Vec<char>>> = (0..m.rows)
        .map(|i| {
            (0..m.cols)
                .map(|j| format!("{}", m.data[i * m.cols + j]).chars().collect())
                .collect()
        })
        .collect();
    render(&rows).into_iter().collect()
}

#[test]
fn test_matrix_file_roundtrip() {
    let original =
        Matrix::from_vec(vec![1.0, 2.0, 3.0, 4.0, 5.0, 6.0, 7.0, 8.0, 9.0], 3, 3).unwrap();

    let text = save_text(&original);
    let loaded = load_text(&text).unwrap();

    assert_eq!(original.rows, loaded.rows);
    assert_eq!(original.cols, loaded.cols);
    assert_eq!(original.data, loaded.data);
}

#[test]
fn test_matrix_multiplication_correctness() {
    let a = Matrix::from_vec(vec![1.0, 2.0, 3.0, 4.0], 2, 2).unwrap();
    let b = Matrix::from_vec(vec![5.0, 6.0, 7.0, 8.0], 2, 2).unwrap();
    let c = a.multiply(&b, 0.0, &madd).unwrap();

    assert_eq!(c.get(0, 0).unwrap(), 19.0);
    assert_eq!(c.get(0, 1).unwrap(), 22.0);
    assert_eq!(c.get(1, 0).unwrap(), 43.0);
    assert_eq!(c.get(1, 1).unwrap(), 50.0);
}

#[test]
fn test_matrix_multiplication_identity() {
    let size = 5;
    let mut identity: Matrix<f64> = Matrix::new(size, size);
    for i in 0..size {
        identity.set(i, i, 1.0).unwrap();
    }

    let data: Vec<f64> = (0..size * size).map(|x| x as f64).collect();
    let test_matrix = Matrix::from_vec(data, size, size).unwrap();

    let result = test_matrix.multiply(&identity, 0.0, &madd).unwrap();
    assert_eq!(result.data, test_matrix.data);
}

#[test]
fn test_chunk_operations() {
    let data: Vec<f64> = (1..=24).map(|x| x as f64).collect();
    let matrix = Matrix::from_vec(data, 6, 4).unwrap();

    let row_chunk = matrix.get_row_chunk(2, 2).unwrap();
    assert_eq!(row_chunk.rows, 2);
    assert_eq!(row_chunk.cols, 4);
    assert_eq!(row_chunk.get(0, 0).unwrap(), 9.0);

    let col_chunk = matrix.get_col_chunk(1, 2).unwrap();
    assert_eq!(col_chunk.rows, 6);
    assert_eq!(col_chunk.cols, 2);
    assert_eq!(col_chunk.get(0, 0).unwrap(), 2.0);
}

#[test]
fn test_distributed_multiplication_simulation() {
    let a_data: Vec<f64> = (1..=12).map(|x| x as f64).collect();
    let b_data: Vec<f64> = (1..=6).map(|x| x as f64).collect();

    let matrix_a = Matrix::from_vec(a_data, 4, 3).unwrap();
    let matrix_b = Matrix::from_vec(b_data, 3, 2).unwrap();

    let row_chunk_1 = matrix_a.get_row_chunk(0, 2).unwrap();
    let col_chunk_1 = matrix_b.get_col_chunk(0, 2).unwrap();
    let result_1 = Matrix::multiply_chunks(&row_chunk_1, &col_chunk_1, 0.0, &madd).unwrap();

    let row_chunk_2 = matrix_a.get_row_chunk(2, 2).unwrap();
    let col_chunk_2 = matrix_b.get_col_chunk(0, 2).unwrap();
    let result_2 = Matrix::multiply_chunks(&row_chunk_2, &col_chunk_2, 0.0, &madd).unwrap();

    let expected = matrix_a.multiply(&matrix_b, 0.0, &madd).unwrap();

    for i in 0..result_1.rows {
        for j in 0..result_1.cols {
            assert_eq!(
                result_1.get(i, j).unwrap(),
                expected.get(i, j).unwrap(),
                "Worker 1 result mismatch at ({}, {})",
                i,
                j
            );
        }
    }

    for i in 0..result_2.rows {
        for j in 0..result_2.cols {
            assert_eq!(
                result_2.get(i, j).unwrap(),
                expected.get(i + 2, j).unwrap(),
                "Worker 2 result mismatch at ({}, {})",
                i,
                j
            );
        }
    }
}

#[test]
fn test_matrix_file_format_parsing() {
    let content = "1.5  2.5   3.5\n4.0 5.0 6.0\n7.0\t8.0\t9.0\n";
    let matrix = load_text(content).unwrap();
    assert_eq!(matrix.rows, 3);
    assert_eq!(matrix.cols, 3);
    assert!((matrix.get(0, 0).unwrap() - 1.5).abs() < 0.001);
    assert!((matrix.get(2, 2).unwrap() - 9.0).abs() < 0.001);
}

#[test]
fn test_large_matrix_file_operations() {
    let size = 100;
    let mut matrix: Matrix<f64> = Matrix::new(size, size);
    for i in 0..size {
        for j in 0..size {
            matrix.set(i, j, (i * size + j) as f64).unwrap();
        }
    }

    let text = save_text(&matrix);
    let loaded = load_text(&text).unwrap();

    assert_eq!(matrix.rows, loaded.rows);
    assert_eq!(matrix.cols, loaded.cols);
    assert_eq!(matrix.data, loaded.data);
}

#[test]
fn test_error_handling() {
    assert!(load_text("not a number 2.0\n").is_err());

    let a: Matrix<f64> = Matrix::new(2, 3);
    let b: Matrix<f64> = Matrix::new(4, 2);
    assert!(a.multiply(&b, 0.0, &madd).is_err());
}

#[test]
fn malformed_inputs_give_their_errors() {
    assert_eq!(
        load_text("1.0 2.0 3.0\n4.0 5.0\n").unwrap_err(),
        MatrixError::InconsistentShape
    );
    assert_eq!(load_text("\n  \n\t\n").unwrap_err(), MatrixError::EmptyInput);
    assert_eq!(load_text("").unwrap_err(), MatrixError::EmptyInput);
    assert_eq!(
        load_text("1.0 abc\n").unwrap_err(),
        MatrixError::ParseError { line: 1 }
    );
}

#[test]
fn first_failing_line_decides() {
    assert_eq!(
        load_text("1 2\n\n3 x\n4\n").unwrap_err(),
        MatrixError::ParseError { line: 3 }
    );
    assert_eq!(
        load_text("1 2\n3\n4 x\n").unwrap_err(),
        MatrixError::InconsistentShape
    );
}

#[test]
fn whitespace_of_every_kind_separates_tokens() {
    let m = load_text("1\u{a0}2\r\n\u{3000}3 4  \n").unwrap();
    assert_eq!((m.rows, m.cols), (2, 2));
    assert_eq!(m.data, vec![1.0, 2.0, 3.0, 4.0]);
    let m = load_text("5 6").unwrap();
    assert_eq!(m.data, vec![5.0, 6.0]);
}

#[test]
fn tokenize_splits_lines_and_runs() {
    let chars: Vec<char> = " ab  c\n\nd\t".chars().collect();
    let t = tokenize(&chars);
    let as_strings: Vec<Vec<String>> = t
        .iter()
        .map(|l| l.iter().map(|tok| tok.iter().collect()).collect())
        .collect();
    assert_eq!(
        as_strings,
        vec![vec!["ab".to_string(), "c".to_string()], vec![], vec!["d".to_string()]]
    );
}

#[test]
fn render_lays_out_rows() {
    let rows: Vec<Vec<Vec<char>>> = vec![
        vec!["1".chars().collect(), "-2.5".chars().collect()],
        vec!["3e8".chars().collect(), "4".chars().collect()],
    ];
    let text: String = render(&rows).into_iter().collect();
    assert_eq!(text, "1 -2.5\n3e8 4\n");
}

#[test]
fn round_trip_keeps_every_bit() {
    let m = Matrix::from_vec(vec![0.1, -1e-300, 1.0 / 3.0, 6.02214076e23], 2, 2).unwrap();
    let back = load_text(&save_text(&m)).unwrap();
    assert_eq!((back.rows, back.cols), (2, 2));
    for k in 0..4 {
        assert_eq!(back.data[k].to_bits(), m.data[k].to_bits());
    }
}
