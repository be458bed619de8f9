use qracer::codec::data_matrix::{
    data_matrix_function_module, data_matrix_symbols, find_square_symbol, push_data_matrix_symbol_hint,
    symbol,
};

#[test]
fn symbol_table_lists_square_and_rectangular_sizes() {
    let table = data_matrix_symbols();
    assert_eq!(table.len(), 30);
    assert_eq!(table[0], symbol(10, 10, 8, 8));
    assert_eq!(table[2], symbol(8, 18, 6, 16));
    assert_eq!(table[29], symbol(144, 144, 22, 22));
    assert_eq!(find_square_symbol(24), Some(symbol(24, 24, 22, 22)));
    assert_eq!(find_square_symbol(18), Some(symbol(18, 18, 16, 16)));
    assert_eq!(find_square_symbol(25), None);
}

#[test]
fn symbol_hints_are_not_repeated() {
    let mut hints = Vec::new();
    push_data_matrix_symbol_hint(&mut hints, symbol(22, 22, 20, 20));
    push_data_matrix_symbol_hint(&mut hints, symbol(24, 24, 22, 22));
    push_data_matrix_symbol_hint(&mut hints, symbol(22, 22, 20, 20));
    assert_eq!(hints, vec![symbol(22, 22, 20, 20), symbol(24, 24, 22, 22)]);
}

#[test]
fn finder_and_clock_modules() {
    let s = symbol(32, 32, 14, 14);
    // Left column and bottom row of each 16x16 block are solid.
    assert_eq!(data_matrix_function_module(s, 0, 5), Some(true));
    assert_eq!(data_matrix_function_module(s, 16, 20), Some(true));
    assert_eq!(data_matrix_function_module(s, 5, 15), Some(true));
    // Top row alternates, dark on even columns.
    assert_eq!(data_matrix_function_module(s, 2, 0), Some(true));
    assert_eq!(data_matrix_function_module(s, 3, 0), Some(false));
    // Right column alternates, dark on odd rows.
    assert_eq!(data_matrix_function_module(s, 15, 3), Some(true));
    assert_eq!(data_matrix_function_module(s, 15, 4), Some(false));
    assert_eq!(data_matrix_function_module(s, 5, 5), None);
}
