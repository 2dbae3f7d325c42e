use ternary_systems::codec::ParseError;
use ternary_systems::matrix::{MatrixError, TMatrix};

fn sample() -> TMatrix {
    let mut m = TMatrix::new(2, 2);
    m.set(0, 0, 1).unwrap();
    m.set(0, 1, -2).unwrap();
    m.set(1, 1, 5).unwrap();
    m
}

#[test]
fn serialize_format() {
    assert_eq!(sample().serialize(), "2 2\n1 -2 \n0 12 \n");
    assert_eq!(TMatrix::new(0, 3).serialize(), "0 3\n");
    assert_eq!(TMatrix::new(1, 0).serialize(), "1 0\n\n");
    assert_eq!(TMatrix::new(10, 1).serialize().lines().next(), Some("10 1"));
}

#[test]
fn deserialize_reads_format() {
    assert_eq!(TMatrix::deserialize("2 2\n1 -2 \n0 12 \n"), Ok(sample()));
    assert_eq!(TMatrix::deserialize("2 2\r\n1 -2\r\n  0   12\r\nextra line\n"), Ok(sample()));
}

#[test]
fn round_trip_of_matrices() {
    let mut m = TMatrix::new(3, 4);
    let mut v: i32 = -7;
    for r in 0..3 {
        for c in 0..4 {
            m.set(r, c, v * 1234567).unwrap();
            v += 1;
        }
    }
    m.set(2, 3, i32::MIN).unwrap();
    m.set(0, 0, i32::MAX).unwrap();
    assert_eq!(TMatrix::deserialize(&m.serialize()), Ok(m.clone()));
    let e = TMatrix::new(0, 5);
    assert_eq!(TMatrix::deserialize(&e.serialize()), Ok(e));
    let z = TMatrix::new(2, 0);
    assert_eq!(TMatrix::deserialize(&z.serialize()), Ok(z));
}

#[test]
fn bad_headers() {
    assert_eq!(TMatrix::deserialize(""), Err(MatrixError::InvalidDimensions));
    assert_eq!(TMatrix::deserialize("2\n"), Err(MatrixError::InvalidDimensions));
    assert_eq!(TMatrix::deserialize("2 x\n"), Err(MatrixError::InvalidDimensions));
    assert_eq!(TMatrix::deserialize("1 2 3\n"), Err(MatrixError::InvalidDimensions));
    assert_eq!(TMatrix::deserialize("-1 2\n"), Err(MatrixError::InvalidDimensions));
    assert_eq!(
        TMatrix::deserialize("99999999999999999999999 1\n"),
        Err(MatrixError::InvalidDimensions)
    );
}

#[test]
fn row_of_wrong_length() {
    assert_eq!(TMatrix::deserialize("1 2\n1\n"), Err(MatrixError::RowLengthMismatch));
    assert_eq!(TMatrix::deserialize("1 1\n1 2\n"), Err(MatrixError::RowLengthMismatch));
}

#[test]
fn too_few_rows() {
    assert_eq!(TMatrix::deserialize("2 1\n1\n"), Err(MatrixError::InsufficientRows));
    assert_eq!(TMatrix::deserialize("1 1\n"), Err(MatrixError::InsufficientRows));
}

#[test]
fn bad_cell() {
    assert_eq!(
        TMatrix::deserialize("1 1\n3\n"),
        Err(MatrixError::InvalidEntry(ParseError::InvalidDigit('3')))
    );
    assert_eq!(
        TMatrix::deserialize("1 2\n1 -\n"),
        Err(MatrixError::InvalidEntry(ParseError::EmptyExpression))
    );
    assert_eq!(
        TMatrix::deserialize("2 1\n1 2 9\n"),
        Err(MatrixError::InvalidEntry(ParseError::InvalidDigit('9')))
    );
}
