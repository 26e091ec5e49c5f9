use dense_matrix::Matrix;

#[test]
fn sum_two_matrix_1() {
    let mut matrix1 = Matrix::<i64>::new(4, 4, 2);
    let matrix2 = Matrix::<i64>::new(4, 4, 3);
    let result_matrix = Matrix::<i64>::new(4, 4, 5);

    matrix1 = matrix1.add(matrix2).unwrap();

    assert_eq!(matrix1, result_matrix);
}

#[test]
fn sum_two_matrix_2() {
    let mut matrix1 = Matrix::<i64>::new(4, 4, 2);
    let mut matrix2 = Matrix::<i64>::new(4, 4, 0);
    let mut result_matrix = Matrix::<i64>::new(4, 4, 2);

    result_matrix.set(0, 0, 9).unwrap();
    matrix2.set(0, 0, 7).unwrap();
    matrix1 = matrix1.add(matrix2).unwrap();

    assert_eq!(matrix1, result_matrix);
}

#[test]
#[should_panic]
fn sum_two_matrix_3() {
    let mut matrix1 = Matrix::<i64>::new(4, 4, 2);
    let matrix2 = Matrix::<i64>::new(4, 5, 0);

    matrix1 = matrix1.add(matrix2).unwrap();
}

#[test]
fn substract_two_matrix_1() {
    let mut matrix1 = Matrix::<i64>::new(4, 4, 2);
    let matrix2 = Matrix::<i64>::new(4, 4, 3);
    let result_matrix = Matrix::<i64>::new(4, 4, -1);

    matrix1 = matrix1.sub(matrix2).unwrap();

    assert_eq!(matrix1, result_matrix);
}

#[test]
fn substract_two_matrix_2() {
    let mut matrix1 = Matrix::<i64>::new(4, 4, 2);
    let mut matrix2 = Matrix::<i64>::new(4, 4, 0);
    let mut result_matrix = Matrix::<i64>::new(4, 4, 2);

    result_matrix.set(0, 0, -5).unwrap();
    matrix2.set(0, 0, 7).unwrap();
    matrix1 = matrix1.sub(matrix2).unwrap();

    assert_eq!(matrix1, result_matrix);
}

#[test]
#[should_panic]
fn substract_two_matrix_3() {
    let mut matrix1 = Matrix::<i64>::new(4, 4, 2);
    let matrix2 = Matrix::<i64>::new(4, 5, 0);

    matrix1 = matrix1.sub(matrix2).unwrap();
}

#[test]
fn get_row_1() {
    let mut matrix1 = Matrix::new(3, 4, 0.0);
    matrix1.set(0, 0, 8.0).unwrap();
    matrix1.set(0, 1, 7.0).unwrap();
    matrix1.set(0, 2, 9.0).unwrap();
    matrix1.set(0, 3, 6.0).unwrap();

    let data = vec![8.0, 7.0, 9.0, 6.0];

    assert_eq!(matrix1.get_row(0).unwrap(), data);
}

#[test]
fn get_row_2() {
    let mut matrix1 = Matrix::new(3, 4, 0.0);

    matrix1.set(2, 0, 8.0).unwrap();
    matrix1.set(2, 1, 7.0).unwrap();
    matrix1.set(2, 2, 9.0).unwrap();
    matrix1.set(2, 3, 6.0).unwrap();

    let data = vec![8.0, 7.0, 9.0, 6.0];

    assert_eq!(matrix1.get_row(2).unwrap(), data);
}

#[test]
#[should_panic]
fn get_row_3() {
    let matrix1 = Matrix::new(3, 4, 0.0);

    let _data = matrix1.get_row(4).unwrap();
}

#[test]
fn get_column_1() {
    let mut matrix1 = Matrix::new(4, 3, 0.0);
    matrix1.set(0, 0, 8.0).unwrap();
    matrix1.set(1, 0, 7.0).unwrap();
    matrix1.set(2, 0, 9.0).unwrap();
    matrix1.set(3, 0, 6.0).unwrap();

    let data = vec![8.0, 7.0, 9.0, 6.0];

    assert_eq!(matrix1.get_column(0).unwrap(), data);
}

#[test]
fn get_column_2() {
    let mut matrix1 = Matrix::new(4, 3, 0.0);

    matrix1.set(0, 2, 8.0).unwrap();
    matrix1.set(1, 2, 7.0).unwrap();
    matrix1.set(2, 2, 9.0).unwrap();
    matrix1.set(3, 2, 6.0).unwrap();

    let data = vec![8.0, 7.0, 9.0, 6.0];

    assert_eq!(matrix1.get_column(2).unwrap(), data);
}

#[test]
#[should_panic]
fn get_column_3() {
    let matrix1 = Matrix::new(4, 4, 0.0);

    let _data = matrix1.get_column(4).unwrap();
}

#[test]
fn mult_matrix_1() {
    let mut matrix1 = Matrix::<i64>::new(4, 4, 2);
    let matrix2 = Matrix::<i64>::new(4, 4, 2);
    let result_matrix = Matrix::<i64>::new(4, 4, 16);

    matrix1 = matrix1.mul(matrix2).unwrap();

    assert_eq!(matrix1, result_matrix);
}

#[test]
fn mult_matrix_2() {
    let mut matrix1 = Matrix::<i64>::new(4, 4, 2);
    let mut matrix2 = Matrix::<i64>::new(4, 3, 4);
    let mut result_matrix = Matrix::<i64>::new(4, 3, 0);

    matrix1.set(0, 0, 6).unwrap();
    matrix1.set(0, 1, 8).unwrap();
    matrix1.set(0, 2, 9).unwrap();
    matrix1.set(0, 3, 5).unwrap();
    matrix1.set(1, 0, 3).unwrap();
    matrix1.set(1, 1, 8).unwrap();
    matrix1.set(1, 2, 4).unwrap();
    matrix1.set(1, 3, 7).unwrap();
    matrix1.set(2, 0, 4).unwrap();
    matrix1.set(2, 1, 5).unwrap();
    matrix1.set(2, 2, 6).unwrap();
    matrix1.set(2, 3, 4).unwrap();
    matrix1.set(3, 0, 6).unwrap();
    matrix1.set(3, 1, 2).unwrap();
    matrix1.set(3, 2, 2).unwrap();
    matrix1.set(3, 3, 9).unwrap();

    matrix2.set(0, 0, 7).unwrap();
    matrix2.set(0, 1, 6).unwrap();
    matrix2.set(0, 2, 1).unwrap();
    matrix2.set(1, 0, 6).unwrap();
    matrix2.set(1, 1, 4).unwrap();
    matrix2.set(1, 2, 8).unwrap();
    matrix2.set(2, 0, 3).unwrap();
    matrix2.set(2, 1, 0).unwrap();
    matrix2.set(2, 2, 6).unwrap();
    matrix2.set(3, 0, 1).unwrap();
    matrix2.set(3, 1, 1).unwrap();
    matrix2.set(3, 2, 1).unwrap();

    result_matrix.set(0, 0, 122).unwrap();
    result_matrix.set(0, 1, 73).unwrap();
    result_matrix.set(0, 2, 129).unwrap();
    result_matrix.set(1, 0, 88).unwrap();
    result_matrix.set(1, 1, 57).unwrap();
    result_matrix.set(1, 2, 98).unwrap();
    result_matrix.set(2, 0, 80).unwrap();
    result_matrix.set(2, 1, 48).unwrap();
    result_matrix.set(2, 2, 84).unwrap();
    result_matrix.set(3, 0, 69).unwrap();
    result_matrix.set(3, 1, 53).unwrap();
    result_matrix.set(3, 2, 43).unwrap();

    matrix1 = matrix1.mul(matrix2).unwrap();

    assert_eq!(result_matrix, matrix1);
}

#[test]
fn exchange_rows_1() {
    let mut matrix = Matrix::new(3, 4, 5.0);
    matrix.set(0, 0, 1.0).unwrap();
    matrix.set(0, 1, 2.0).unwrap();
    matrix.set(0, 2, 3.0).unwrap();
    matrix.set(0, 3, 4.0).unwrap();
    matrix.set(1, 0, 5.0).unwrap();
    matrix.set(1, 1, 6.0).unwrap();
    matrix.set(1, 2, 7.0).unwrap();
    matrix.set(1, 3, 8.0).unwrap();

    matrix.exchange_rows(0, 1).unwrap();

    let row1 = vec![1.0, 2.0, 3.0, 4.0];
    let row2 = vec![5.0, 6.0, 7.0, 8.0];

    assert_eq!(row1, matrix.get_row(1).unwrap());
    assert_eq!(row2, matrix.get_row(0).unwrap());
}

#[test]
fn exchange_rows_2() {
    let mut matrix = Matrix::new(3, 4, 5.0);
    matrix.set(0, 0, 1.0).unwrap();
    matrix.set(0, 1, 2.0).unwrap();
    matrix.set(0, 2, 3.0).unwrap();
    matrix.set(0, 3, 4.0).unwrap();
    matrix.set(2, 0, 5.0).unwrap();
    matrix.set(2, 1, 6.0).unwrap();
    matrix.set(2, 2, 7.0).unwrap();
    matrix.set(2, 3, 8.0).unwrap();

    matrix.exchange_rows(0, 2).unwrap();

    let row1 = vec![1.0, 2.0, 3.0, 4.0];
    let row2 = vec![5.0, 6.0, 7.0, 8.0];

    assert_eq!(row1, matrix.get_row(2).unwrap());
    assert_eq!(row2, matrix.get_row(0).unwrap());
}

#[test]
fn exchange_columns_1() {
    let mut matrix = Matrix::new(3, 4, 5.0);
    matrix.set(0, 0, 1.0).unwrap();
    matrix.set(1, 0, 2.0).unwrap();
    matrix.set(2, 0, 3.0).unwrap();
    matrix.set(0, 1, 4.0).unwrap();
    matrix.set(1, 1, 5.0).unwrap();
    matrix.set(2, 1, 6.0).unwrap();

    matrix.exchange_columns(0, 1).unwrap();

    let column1 = vec![1.0, 2.0, 3.0];
    let column2 = vec![4.0, 5.0, 6.0];

    assert_eq!(column1, matrix.get_column(1).unwrap());
    assert_eq!(column2, matrix.get_column(0).unwrap());
}

#[test]
fn exchange_columns_2() {
    let mut matrix = Matrix::new(3, 4, 5.0);
    matrix.set(0, 0, 1.0).unwrap();
    matrix.set(1, 0, 2.0).unwrap();
    matrix.set(2, 0, 3.0).unwrap();
    matrix.set(0, 3, 4.0).unwrap();
    matrix.set(1, 3, 5.0).unwrap();
    matrix.set(2, 3, 6.0).unwrap();

    matrix.exchange_columns(0, 3).unwrap();

    let column1 = vec![1.0, 2.0, 3.0];
    let column2 = vec![4.0, 5.0, 6.0];

    assert_eq!(column1, matrix.get_column(3).unwrap());
    assert_eq!(column2, matrix.get_column(0).unwrap());
}

#[test]
fn set_row_1() {
    let mut matrix = Matrix::new(3, 4, 5.0);
    let vec1 = vec![1.0, 2.0, 3.0, 4.0];
    matrix.set_row(0, vec1).unwrap();

    let vec2 = vec![1.0, 2.0, 3.0, 4.0];
    let row = matrix.get_row(0).unwrap();
    assert_eq!(row, vec2);
}

#[test]
fn set_row_2() {
    let mut matrix = Matrix::new(3, 4, 5.0);
    let vec1 = vec![1.0, 2.0, 3.0, 4.0];
    matrix.set_row(2, vec1).unwrap();

    let vec2 = vec![1.0, 2.0, 3.0, 4.0];
    let row = matrix.get_row(2).unwrap();
    assert_eq!(row, vec2);
}

#[test]
fn set_column_1() {
    let mut matrix = Matrix::new(3, 4, 5.0);
    let vec1 = vec![1.0, 2.0, 3.0];
    matrix.set_column(0, vec1).unwrap();

    let vec2 = vec![1.0, 2.0, 3.0];
    let column = matrix.get_column(0).unwrap();
    assert_eq!(column, vec2);
}

#[test]
fn set_column_2() {
    let mut matrix = Matrix::new(3, 4, 5.0);
    let vec1 = vec![1.0, 2.0, 3.0];
    matrix.set_column(3, vec1).unwrap();

    let vec2 = vec![1.0, 2.0, 3.0];
    let column = matrix.get_column(3).unwrap();
    assert_eq!(column, vec2);
}

#[test]
fn get_diagonal_1() {
    let mut matrix = Matrix::new(3, 3, 8.0);
    matrix.set(0, 0, 1.0).unwrap();
    matrix.set(1, 1, 2.0).unwrap();
    matrix.set(2, 2, 3.0).unwrap();

    let vec1 = vec![1.0, 2.0, 3.0];
    assert_eq!(matrix.get_diagonal().unwrap(), vec1);
}

#[test]
fn get_diagonal_2() {
    let mut matrix = Matrix::new(4, 4, 8.0);
    matrix.set(0, 0, 1.0).unwrap();
    matrix.set(1, 1, 2.0).unwrap();
    matrix.set(2, 2, 3.0).unwrap();
    matrix.set(3, 3, 4.0).unwrap();

    let vec1 = vec![1.0, 2.0, 3.0, 4.0];
    assert_eq!(matrix.get_diagonal().unwrap(), vec1);
}

#[test]
fn get_determinant_1() {
    let mut matrix = Matrix::<i64>::new(2, 2, 0);
    matrix.set(0, 0, 2).unwrap();
    matrix.set(1, 0, 4).unwrap();
    matrix.set(0, 1, 3).unwrap();
    matrix.set(1, 1, 5).unwrap();

    assert_eq!(matrix.get_determinant().unwrap(), -2);
}

#[test]
fn get_determinant_2() {
    let mut matrix = Matrix::<i64>::new(3, 3, 0);
    matrix.set(0, 0, 3).unwrap();
    matrix.set(1, 0, 4).unwrap();
    matrix.set(2, 0, 7).unwrap();
    matrix.set(0, 1, 2).unwrap();
    matrix.set(1, 1, 5).unwrap();
    matrix.set(2, 1, 8).unwrap();
    matrix.set(0, 2, 1).unwrap();
    matrix.set(1, 2, 6).unwrap();
    matrix.set(2, 2, 9).unwrap();

    assert_eq!(matrix.get_determinant().unwrap(), 0);
}
