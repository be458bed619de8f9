use vstd::prelude::*;

verus! {

/// A Data Matrix symbol size: the module grid and the data region inside
/// each finder-bounded block.
#[derive(Clone, Copy, Debug, PartialEq, Eq, Structural)]
pub struct DataMatrixSymbol {
    pub rows: usize,
    pub cols: usize,
    pub region_rows: usize,
    pub region_cols: usize,
}

/// Builds a symbol description.
pub fn symbol(rows: usize, cols: usize, region_rows: usize, region_cols: usize) -> (s: DataMatrixSymbol)
    ensures
        s == (DataMatrixSymbol { rows, cols, region_rows, region_cols }),
{
    DataMatrixSymbol { rows, cols, region_rows, region_cols }
}

/// The symbol from its four sizes.
pub open spec fn sym(rows: usize, cols: usize, region_rows: usize, region_cols: usize) -> DataMatrixSymbol {
    DataMatrixSymbol { rows, cols, region_rows, region_cols }
}

/// The supported ECC 200 symbol sizes, square and rectangular, in the
/// order they are tried.
pub open spec fn data_matrix_symbols_spec() -> Seq<DataMatrixSymbol> {
    seq![
        sym(10, 10, 8, 8), sym(12, 12, 10, 10), sym(8, 18, 6, 16), sym(14, 14, 12, 12),
        sym(8, 32, 6, 14), sym(16, 16, 14, 14), sym(12, 26, 10, 24), sym(18, 18, 16, 16),
        sym(20, 20, 18, 18), sym(12, 36, 10, 16), sym(22, 22, 20, 20), sym(16, 36, 14, 16),
        sym(24, 24, 22, 22), sym(26, 26, 24, 24), sym(16, 48, 14, 22), sym(32, 32, 14, 14),
        sym(36, 36, 16, 16), sym(40, 40, 18, 18), sym(44, 44, 20, 20), sym(48, 48, 22, 22),
        sym(52, 52, 24, 24), sym(64, 64, 14, 14), sym(72, 72, 16, 16), sym(80, 80, 18, 18),
        sym(88, 88, 20, 20), sym(96, 96, 22, 22), sym(104, 104, 24, 24), sym(120, 120, 18, 18),
        sym(132, 132, 20, 20), sym(144, 144, 22, 22)
    ]
}

/// The table of supported symbol sizes.
pub fn data_matrix_symbols() -> (v: Vec<DataMatrixSymbol>)
    ensures
        v@ == data_matrix_symbols_spec(),
{
    let v = vec![
        symbol(10, 10, 8, 8), symbol(12, 12, 10, 10), symbol(8, 18, 6, 16), symbol(14, 14, 12, 12),
        symbol(8, 32, 6, 14), symbol(16, 16, 14, 14), symbol(12, 26, 10, 24), symbol(18, 18, 16, 16),
        symbol(20, 20, 18, 18), symbol(12, 36, 10, 16), symbol(22, 22, 20, 20), symbol(16, 36, 14, 16),
        symbol(24, 24, 22, 22), symbol(26, 26, 24, 24), symbol(16, 48, 14, 22), symbol(32, 32, 14, 14),
        symbol(36, 36, 16, 16), symbol(40, 40, 18, 18), symbol(44, 44, 20, 20), symbol(48, 48, 22, 22),
        symbol(52, 52, 24, 24), symbol(64, 64, 14, 14), symbol(72, 72, 16, 16), symbol(80, 80, 18, 18),
        symbol(88, 88, 20, 20), symbol(96, 96, 22, 22), symbol(104, 104, 24, 24), symbol(120, 120, 18, 18),
        symbol(132, 132, 20, 20), symbol(144, 144, 22, 22),
    ];
    assert(v@ =~= data_matrix_symbols_spec());
    v
}

/// Data regions across a square ECC 200 symbol side: one up to 26 modules,
/// two up to 52, four up to 104, six above.
pub open spec fn square_blocks(side: int) -> int {
    if side <= 26 { 1 } else if side <= 52 { 2 } else if side <= 104 { 4 } else { 6 }
}

/// `s` is a consistent ECC 200 layout: its rows and columns are whole
/// numbers of data regions, each two modules (finder and clock) larger than
/// the region it bounds, with the standard number of regions:
/// `square_blocks` per side for square symbols, one region high and one (up
/// to 26 columns) or two regions wide for rectangular ones.
pub open spec fn ecc200_layout(s: DataMatrixSymbol) -> bool {
    let vb: int = if s.rows == s.cols { square_blocks(s.rows as int) } else { 1 };
    let hb: int = if s.rows == s.cols { square_blocks(s.cols as int) } else if s.cols <= 26 { 1 } else { 2 };
    &&& s.rows == vb * (s.region_rows + 2)
    &&& s.cols == hb * (s.region_cols + 2)
    &&& s.rows % 2 == 0 && s.cols % 2 == 0
}

/// Every table entry is a consistent ECC 200 layout.
pub proof fn law_symbol_table_layouts(i: int)
    requires
        0 <= i < data_matrix_symbols_spec().len(),
    ensures
        ecc200_layout(data_matrix_symbols_spec()[i]),
{
    let t = data_matrix_symbols_spec();
    if i == 0 {
        assert(t[0] == sym(10, 10, 8, 8));
        assert(ecc200_layout(sym(10, 10, 8, 8))) by (nonlinear_arith);
    } else if i == 1 {
        assert(t[1] == sym(12, 12, 10, 10));
        assert(ecc200_layout(sym(12, 12, 10, 10))) by (nonlinear_arith);
    } else if i == 2 {
        assert(t[2] == sym(8, 18, 6, 16));
        assert(ecc200_layout(sym(8, 18, 6, 16))) by (nonlinear_arith);
    } else if i == 3 {
        assert(t[3] == sym(14, 14, 12, 12));
        assert(ecc200_layout(sym(14, 14, 12, 12))) by (nonlinear_arith);
    } else if i == 4 {
        assert(t[4] == sym(8, 32, 6, 14));
        assert(ecc200_layout(sym(8, 32, 6, 14))) by (nonlinear_arith);
    } else if i == 5 {
        assert(t[5] == sym(16, 16, 14, 14));
        assert(ecc200_layout(sym(16, 16, 14, 14))) by (nonlinear_arith);
    } else if i == 6 {
        assert(t[6] == sym(12, 26, 10, 24));
        assert(ecc200_layout(sym(12, 26, 10, 24))) by (nonlinear_arith);
    } else if i == 7 {
        assert(t[7] == sym(18, 18, 16, 16));
        assert(ecc200_layout(sym(18, 18, 16, 16))) by (nonlinear_arith);
    } else if i == 8 {
        assert(t[8] == sym(20, 20, 18, 18));
        assert(ecc200_layout(sym(20, 20, 18, 18))) by (nonlinear_arith);
    } else if i == 9 {
        assert(t[9] == sym(12, 36, 10, 16));
        assert(ecc200_layout(sym(12, 36, 10, 16))) by (nonlinear_arith);
    } else if i == 10 {
        assert(t[10] == sym(22, 22, 20, 20));
        assert(ecc200_layout(sym(22, 22, 20, 20))) by (nonlinear_arith);
    } else if i == 11 {
        assert(t[11] == sym(16, 36, 14, 16));
        assert(ecc200_layout(sym(16, 36, 14, 16))) by (nonlinear_arith);
    } else if i == 12 {
        assert(t[12] == sym(24, 24, 22, 22));
        assert(ecc200_layout(sym(24, 24, 22, 22))) by (nonlinear_arith);
    } else if i == 13 {
        assert(t[13] == sym(26, 26, 24, 24));
        assert(ecc200_layout(sym(26, 26, 24, 24))) by (nonlinear_arith);
    } else if i == 14 {
        assert(t[14] == sym(16, 48, 14, 22));
        assert(ecc200_layout(sym(16, 48, 14, 22))) by (nonlinear_arith);
    } else if i == 15 {
        assert(t[15] == sym(32, 32, 14, 14));
        assert(ecc200_layout(sym(32, 32, 14, 14))) by (nonlinear_arith);
    } else if i == 16 {
        assert(t[16] == sym(36, 36, 16, 16));
        assert(ecc200_layout(sym(36, 36, 16, 16))) by (nonlinear_arith);
    } else if i == 17 {
        assert(t[17] == sym(40, 40, 18, 18));
        assert(ecc200_layout(sym(40, 40, 18, 18))) by (nonlinear_arith);
    } else if i == 18 {
        assert(t[18] == sym(44, 44, 20, 20));
        assert(ecc200_layout(sym(44, 44, 20, 20))) by (nonlinear_arith);
    } else if i == 19 {
        assert(t[19] == sym(48, 48, 22, 22));
        assert(ecc200_layout(sym(48, 48, 22, 22))) by (nonlinear_arith);
    } else if i == 20 {
        assert(t[20] == sym(52, 52, 24, 24));
        assert(ecc200_layout(sym(52, 52, 24, 24))) by (nonlinear_arith);
    } else if i == 21 {
        assert(t[21] == sym(64, 64, 14, 14));
        assert(ecc200_layout(sym(64, 64, 14, 14))) by (nonlinear_arith);
    } else if i == 22 {
        assert(t[22] == sym(72, 72, 16, 16));
        assert(ecc200_layout(sym(72, 72, 16, 16))) by (nonlinear_arith);
    } else if i == 23 {
        assert(t[23] == sym(80, 80, 18, 18));
        assert(ecc200_layout(sym(80, 80, 18, 18))) by (nonlinear_arith);
    } else if i == 24 {
        assert(t[24] == sym(88, 88, 20, 20));
        assert(ecc200_layout(sym(88, 88, 20, 20))) by (nonlinear_arith);
    } else if i == 25 {
        assert(t[25] == sym(96, 96, 22, 22));
        assert(ecc200_layout(sym(96, 96, 22, 22))) by (nonlinear_arith);
    } else if i == 26 {
        assert(t[26] == sym(104, 104, 24, 24));
        assert(ecc200_layout(sym(104, 104, 24, 24))) by (nonlinear_arith);
    } else if i == 27 {
        assert(t[27] == sym(120, 120, 18, 18));
        assert(ecc200_layout(sym(120, 120, 18, 18))) by (nonlinear_arith);
    } else if i == 28 {
        assert(t[28] == sym(132, 132, 20, 20));
        assert(ecc200_layout(sym(132, 132, 20, 20))) by (nonlinear_arith);
    } else if i == 29 {
        assert(t[29] == sym(144, 144, 22, 22));
        assert(ecc200_layout(sym(144, 144, 22, 22))) by (nonlinear_arith);
    }
}

/// The first square symbol of the table with `modules` rows and columns.
pub open spec fn square_symbol_index(t: Seq<DataMatrixSymbol>, modules: usize, n: int) -> Option<int>
    decreases n,
{
    if n <= 0 {
        None
    } else {
        match square_symbol_index(t, modules, n - 1) {
            Some(i) => Some(i),
            None => if t[n - 1].rows == modules && t[n - 1].cols == modules { Some(n - 1) } else { None },
        }
    }
}

/// A match found in a prefix of the table stays the answer for longer prefixes.
proof fn lemma_square_index_stable(t: Seq<DataMatrixSymbol>, modules: usize, k: int, n: int)
    requires
        0 <= k <= n,
        square_symbol_index(t, modules, k) is Some,
    ensures
        square_symbol_index(t, modules, n) == square_symbol_index(t, modules, k),
    decreases n - k,
{
    if n > k {
        lemma_square_index_stable(t, modules, k, n - 1);
    }
}

/// The side lengths of the square ECC 200 symbols: 10 to 26 in steps of 2,
/// 32 to 52 in steps of 4, 64 to 104 in steps of 8, 120 to 144 in steps of
/// 12.
pub open spec fn is_square_side(m: int) -> bool {
    ||| 10 <= m <= 26 && m % 2 == 0
    ||| 32 <= m <= 52 && m % 4 == 0
    ||| 64 <= m <= 104 && m % 8 == 0
    ||| 120 <= m <= 144 && m % 12 == 0
}

/// A square symbol is found exactly for the square ECC 200 sides, and the
/// symbol found has that side and a consistent layout.
#[verifier::rlimit(40)]
pub proof fn law_square_symbols_are_the_standard_ones(m: usize)
    ensures
        square_symbol_index(data_matrix_symbols_spec(), m, 30) is Some <==> is_square_side(m as int),
        square_symbol_index(data_matrix_symbols_spec(), m, 30) matches Some(i) ==> {
            &&& 0 <= i < 30
            &&& data_matrix_symbols_spec()[i].rows == m
            &&& data_matrix_symbols_spec()[i].cols == m
            &&& ecc200_layout(data_matrix_symbols_spec()[i])
        },
{
    reveal_with_fuel(square_symbol_index, 31);
    let t = data_matrix_symbols_spec();
    assert(t.len() == 30);
    assert forall|i: int| 0 <= i < 30 implies ecc200_layout(#[trigger] t[i]) by {
        law_symbol_table_layouts(i);
    }
}

/// Looks up the square symbol with `modules` rows and columns.
pub fn find_square_symbol(modules: usize) -> (r: Option<DataMatrixSymbol>)
    ensures
        match square_symbol_index(data_matrix_symbols_spec(), modules, 30) {
            Some(i) => r == Some(data_matrix_symbols_spec()[i]),
            None => r is None,
        },
{
    let table = data_matrix_symbols();
    let mut i: usize = 0;
    while i < table.len()
        invariant
            table@ == data_matrix_symbols_spec(),
            i <= table@.len(),
            square_symbol_index(table@, modules, i as int) is None,
        decreases table@.len() - i,
    {
        let s = table[i];
        if s.rows == modules && s.cols == modules {
            proof {
                lemma_square_index_stable(table@, modules, i as int + 1, 30);
            }
            return Some(s);
        }
        i = i + 1;
    }
    None
}

/// Adds `symbol` to the list of sizes to try unless it is already there.
pub fn push_data_matrix_symbol_hint(symbols: &mut Vec<DataMatrixSymbol>, symbol: DataMatrixSymbol)
    ensures
        old(symbols)@.contains(symbol) ==> final(symbols)@ == old(symbols)@,
        !old(symbols)@.contains(symbol) ==> final(symbols)@ == old(symbols)@.push(symbol),
{
    let n = symbols.len();
    let mut i: usize = 0;
    while i < n
        invariant
            n == symbols@.len(),
            i <= n,
            forall|k: int| 0 <= k < i ==> symbols@[k] != symbol,
        decreases n - i,
    {
        if symbols[i] == symbol {
            assert(symbols@[i as int] == symbol);
            return;
        }
        i = i + 1;
    }
    symbols.push(symbol);
}

/// The function pattern of a symbol: in each region block, the solid
/// finder on the left column and bottom row, the alternating clock track
/// on the top row (dark on even columns) and on the right column (dark on
/// odd rows). `None` for data modules.
pub open spec fn function_module_spec(s: DataMatrixSymbol, x: int, y: int) -> Option<bool> {
    let rh = s.region_rows + 2;
    let rw = s.region_cols + 2;
    let lx = x % rw;
    let ly = y % rh;
    if lx == 0 || ly == rh - 1 {
        Some(true)
    } else if ly == 0 {
        Some(lx % 2 == 0)
    } else if lx == rw - 1 {
        Some(ly % 2 == 1)
    } else {
        None
    }
}

/// The expected colour of module `(x, y)` if it belongs to the finder or
/// clock pattern.
pub fn data_matrix_function_module(s: DataMatrixSymbol, x: usize, y: usize) -> (r: Option<bool>)
    requires
        s.region_rows + 2 <= usize::MAX,
        s.region_cols + 2 <= usize::MAX,
    ensures
        r == function_module_spec(s, x as int, y as int),
{
    let rh = s.region_rows + 2;
    let rw = s.region_cols + 2;
    let lx = x % rw;
    let ly = y % rh;
    if lx == 0 || ly == rh - 1 {
        Some(true)
    } else if ly == 0 {
        Some(lx % 2 == 0)
    } else if lx == rw - 1 {
        Some(ly % 2 == 1)
    } else {
        None
    }
}

} // verus!
