use vstd::prelude::*;
use vstd::string::{StrSliceExecFns, StringExecFns};
use crate::text::{chars_of, decimal, decimal_string, push_char};
use crate::headers::views;

verus! {

/// The capital letters, in order.
pub open spec fn alphabet() -> Seq<char> {
    "ABCDEFGHIJKLMNOPQRSTUVWXYZ"@
}

/// The spreadsheet name of the column at zero-based `index`: A..Z, then AA, AB, ...
pub open spec fn column_name(index: nat) -> Seq<char>
    decreases index,
{
    if index < 26 {
        seq![alphabet()[index as int]]
    } else {
        column_name((index / 26 - 1) as nat).push(alphabet()[(index % 26) as int])
    }
}

fn column_name_into(index: u32, letters: &Vec<char>) -> (r: String)
    requires
        letters@ == alphabet(),
    ensures
        r@ == column_name(index as nat),
    decreases index,
{
    proof {
        reveal_strlit("ABCDEFGHIJKLMNOPQRSTUVWXYZ");
    }
    if index < 26 {
        let mut r = String::new();
        push_char(&mut r, letters[index as usize]);
        assert(r@ =~= column_name(index as nat));
        r
    } else {
        let mut r = column_name_into(index / 26 - 1, letters);
        push_char(&mut r, letters[(index % 26) as usize]);
        r
    }
}

/// The spreadsheet name of the column at zero-based `index`: A..Z, then AA, AB, ...
pub fn excel_column_name(index: u32) -> (r: String)
    ensures
        r@ == column_name(index as nat),
{
    let letters = chars_of("ABCDEFGHIJKLMNOPQRSTUVWXYZ");
    column_name_into(index, &letters)
}

/// The reference of the cell at zero-based `row` and `col`, with `$` before the
/// column and the row where they are absolute.
pub open spec fn cell_reference(row: nat, col: nat, absolute_col: bool, absolute_row: bool) -> Seq<char> {
    (if absolute_col {
        "$"@
    } else {
        seq![]
    }) + column_name(col) + (if absolute_row {
        "$"@
    } else {
        seq![]
    }) + decimal(row + 1)
}

/// The reference of the cell at zero-based `row` and `col`, such as `B3` or `$B$3`.
pub fn excel_cell_reference(row: u32, col: u32, absolute_col: bool, absolute_row: bool) -> (r: String)
    ensures
        r@ == cell_reference(row as nat, col as nat, absolute_col, absolute_row),
{
    let mut r = String::new();
    if absolute_col {
        r.append("$");
    }
    let name = excel_column_name(col);
    r.append(name.as_str());
    if absolute_row {
        r.append("$");
    }
    let digits = decimal_string(row as u128 + 1);
    r.append(digits.as_str());
    r
}

/// A sheet name with each single quote doubled, as a quoted sheet name needs.
pub open spec fn escape_quotes(s: Seq<char>) -> Seq<char>
    decreases s.len(),
{
    if s.len() == 0 {
        seq![]
    } else {
        escape_quotes(s.drop_last()) + if s.last() == '\'' {
            seq!['\'', '\'']
        } else {
            seq![s.last()]
        }
    }
}

fn escape_sheet_name(sheet: &str) -> (r: String)
    ensures
        r@ == escape_quotes(sheet@),
{
    let n = sheet.unicode_len();
    let mut r = String::new();
    let mut i: usize = 0;
    while i < n
        invariant
            n == sheet@.len(),
            i <= n,
            r@ == escape_quotes(sheet@.subrange(0, i as int)),
        decreases n - i,
    {
        let c = sheet.get_char(i);
        push_char(&mut r, c);
        if c == '\'' {
            push_char(&mut r, '\'');
        }
        proof {
            let pre = sheet@.subrange(0, i as int + 1);
            assert(pre.drop_last() =~= sheet@.subrange(0, i as int));
            assert(r@ =~= escape_quotes(pre));
        }
        i = i + 1;
    }
    assert(sheet@.subrange(0, n as int) =~= sheet@);
    r
}

/// The absolute reference of a block of cells on a named sheet, such as
/// `'Sheet 1'!$A$1:$C$4`.
pub fn excel_range_reference(sheet: &str, start_row: u32, start_col: u32, end_row: u32, end_col: u32) -> (r:
    String)
    ensures
        r@ == "'"@ + escape_quotes(sheet@) + "'!"@ + cell_reference(start_row as nat, start_col as nat, true, true)
            + ":"@ + cell_reference(end_row as nat, end_col as nat, true, true),
{
    let mut r = String::from_str("'");
    let escaped = escape_sheet_name(sheet);
    r.append(escaped.as_str());
    r.append("'!");
    let start = excel_cell_reference(start_row, start_col, true, true);
    r.append(start.as_str());
    r.append(":");
    let end = excel_cell_reference(end_row, end_col, true, true);
    r.append(end.as_str());
    r
}

/// The parts joined with `sep` between each two.
pub open spec fn join_with(parts: Seq<Seq<char>>, sep: Seq<char>) -> Seq<char>
    decreases parts.len(),
{
    if parts.len() == 0 {
        seq![]
    } else if parts.len() == 1 {
        parts[0]
    } else {
        join_with(parts.drop_last(), sep) + sep + parts.last()
    }
}

/// The parts joined with `sep` between each two.
pub fn join_strings(parts: &Vec<String>, sep: &str) -> (r: String)
    ensures
        r@ == join_with(views(parts@), sep@),
{
    let mut r = String::new();
    let mut k: usize = 0;
    while k < parts.len()
        invariant
            k <= parts.len(),
            r@ == join_with(views(parts@.subrange(0, k as int)), sep@),
        decreases parts.len() - k,
    {
        if k > 0 {
            r.append(sep);
        }
        r.append(parts[k].as_str());
        proof {
            let pre = views(parts@.subrange(0, k as int + 1));
            assert(pre.drop_last() =~= views(parts@.subrange(0, k as int)));
            if k == 0 {
                assert(r@ =~= join_with(pre, sep@));
            }
        }
        k = k + 1;
    }
    assert(parts@.subrange(0, parts.len() as int) =~= parts@);
    r
}

/// A formula that sums the products of the given ranges, or `=0` where there are
/// none.
pub fn build_sumproduct_formula(factors: &Vec<String>) -> (r: String)
    ensures
        factors.len() == 0 ==> r@ == "=0"@,
        factors.len() > 0 ==> r@ == "=SUMPRODUCT("@ + join_with(views(factors@), ", "@) + ")"@,
{
    if factors.len() == 0 {
        String::from_str("=0")
    } else {
        let mut r = String::from_str("=SUMPRODUCT(");
        let joined = join_strings(factors, ", ");
        r.append(joined.as_str());
        r.append(")");
        r
    }
}

} // verus!
