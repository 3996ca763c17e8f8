use vstd::prelude::*;
use vstd::string::StrSliceExecFns;
use crate::text::{lemma_trim_shorter, trim_of, trim_text, is_ascii_letter, lower_of, lowercase_text, has_substring, contains_text};
use crate::headers::{views, holds_text};

verus! {

/// A text that reads as a number: once trimmed, it is not empty and holds no
/// ASCII letter.
pub open spec fn numeric_text(t: Seq<char>) -> bool {
    &&& t.len() > 0
    &&& forall|i: int| 0 <= i < t.len() ==> !is_ascii_letter(#[trigger] t[i])
}

/// Whether `t`, taken as it is, is not empty and holds no ASCII letter.
fn numeric_chars(t: &str) -> (r: bool)
    ensures
        r == numeric_text(t@),
{
    let n = t.unicode_len();
    if n == 0 {
        return false;
    }
    let mut i: usize = 0;
    while i < n
        invariant
            n == t@.len(),
            i <= n,
            forall|k: int| 0 <= k < i ==> !is_ascii_letter(#[trigger] t@[k]),
        decreases n - i,
    {
        let c = t.get_char(i);
        if ('a' <= c && c <= 'z') || ('A' <= c && c <= 'Z') {
            assert(is_ascii_letter(t@[i as int]));
            return false;
        }
        i = i + 1;
    }
    true
}

/// Whether `value` reads as a number: once trimmed, it is not empty and holds no
/// ASCII letter.
pub fn is_numeric_like(value: &str) -> (r: bool)
    ensures
        r == numeric_text(trim_of(value@)),
{
    let t = trim_text(value);
    numeric_chars(t.as_str())
}

/// What a data cell holds once trimmed, where it exists and is not empty.
pub open spec fn cell_text(rows: Seq<Vec<String>>, r: int, c: int) -> Option<Seq<char>> {
    if 0 <= c < rows[r]@.len() && trim_of(rows[r]@[c]@).len() > 0 {
        Some(trim_of(rows[r]@[c]@))
    } else {
        None
    }
}

/// The characters of column `c` over the first `n` rows, untrimmed.
pub open spec fn column_chars(rows: Seq<Vec<String>>, c: int, n: int) -> nat
    decreases n,
{
    if n <= 0 {
        0
    } else {
        column_chars(rows, c, n - 1) + if 0 <= c < rows[n - 1]@.len() {
            rows[n - 1]@[c]@.len()
        } else {
            0nat
        }
    }
}

/// The non-empty cells of column `c` over the first `n` rows.
pub open spec fn col_non_empty(rows: Seq<Vec<String>>, c: int, n: int) -> nat
    decreases n,
{
    if n <= 0 {
        0
    } else {
        col_non_empty(rows, c, n - 1) + if cell_text(rows, n - 1, c) is Some {
            1nat
        } else {
            0nat
        }
    }
}

/// The trimmed characters of column `c` over the first `n` rows.
pub open spec fn col_total(rows: Seq<Vec<String>>, c: int, n: int) -> nat
    decreases n,
{
    if n <= 0 {
        0
    } else {
        col_total(rows, c, n - 1) + match cell_text(rows, n - 1, c) {
            Some(t) => t.len(),
            None => 0nat,
        }
    }
}

/// The longest trimmed cell of column `c` over the first `n` rows.
pub open spec fn col_max(rows: Seq<Vec<String>>, c: int, n: int) -> nat
    decreases n,
{
    if n <= 0 {
        0
    } else {
        let m = col_max(rows, c, n - 1);
        match cell_text(rows, n - 1, c) {
            Some(t) => if t.len() > m {
                t.len()
            } else {
                m
            },
            None => m,
        }
    }
}

/// The non-empty cells of column `c` over the first `n` rows that read as numbers.
pub open spec fn col_numeric(rows: Seq<Vec<String>>, c: int, n: int) -> nat
    decreases n,
{
    if n <= 0 {
        0
    } else {
        col_numeric(rows, c, n - 1) + match cell_text(rows, n - 1, c) {
            Some(t) => if numeric_text(t) {
                1nat
            } else {
                0nat
            },
            None => 0nat,
        }
    }
}

/// Figures on the cells of one column. The average length of its non-empty cells
/// is `total_length / non_empty`, and the share of them that read as numbers is
/// `numeric_like / non_empty`.
#[derive(Clone, Copy, Debug, PartialEq, Eq)]
pub struct ColumnStats {
    pub index: usize,
    pub non_empty: usize,
    pub total_length: usize,
    pub max_length: usize,
    pub numeric_like: usize,
}

/// `s` holds the figures of column `c` of `rows`.
pub open spec fn stats_of(rows: Seq<Vec<String>>, c: int, s: ColumnStats) -> bool {
    let n = rows.len() as int;
    &&& s.index == c
    &&& s.non_empty == col_non_empty(rows, c, n)
    &&& s.total_length == col_total(rows, c, n)
    &&& s.max_length == col_max(rows, c, n)
    &&& s.numeric_like == col_numeric(rows, c, n)
}

/// The figures of the first `n` columns of `rows`.
pub open spec fn stats_table(rows: Seq<Vec<String>>, n: int) -> Seq<ColumnStats> {
    Seq::new(
        n as nat,
        |c: int|
            ColumnStats {
                index: c as usize,
                non_empty: col_non_empty(rows, c, rows.len() as int) as usize,
                total_length: col_total(rows, c, rows.len() as int) as usize,
                max_length: col_max(rows, c, rows.len() as int) as usize,
                numeric_like: col_numeric(rows, c, rows.len() as int) as usize,
            },
    )
}

/// The text of every column fits in memory: its characters can be counted.
pub open spec fn columns_fit(rows: Seq<Vec<String>>, columns: int) -> bool {
    forall|c: int| 0 <= c < columns ==> #[trigger] column_chars(rows, c, rows.len() as int) <= usize::MAX
}

proof fn lemma_column_chars_prefix(rows: Seq<Vec<String>>, c: int, m: int, n: int)
    requires
        m <= n,
    ensures
        column_chars(rows, c, m) <= column_chars(rows, c, n),
    decreases n - m,
{
    if m < n {
        lemma_column_chars_prefix(rows, c, m, n - 1);
    }
}

/// The figures of column `index` of `rows`.
fn column_stats(rows: &Vec<Vec<String>>, index: usize) -> (s: ColumnStats)
    requires
        column_chars(rows@, index as int, rows.len() as int) <= usize::MAX,
    ensures
        stats_of(rows@, index as int, s),
{
    let ghost rs = rows@;
    let n = rows.len();
    let mut non_empty: usize = 0;
    let mut total_length: usize = 0;
    let mut max_length: usize = 0;
    let mut numeric_like: usize = 0;
    let mut r: usize = 0;
    while r < n
        invariant
            rs == rows@,
            n == rs.len(),
            r <= n,
            column_chars(rs, index as int, n as int) <= usize::MAX,
            non_empty == col_non_empty(rs, index as int, r as int),
            non_empty <= r,
            total_length == col_total(rs, index as int, r as int),
            total_length <= column_chars(rs, index as int, r as int),
            max_length == col_max(rs, index as int, r as int),
            numeric_like == col_numeric(rs, index as int, r as int),
            numeric_like <= non_empty,
        decreases n - r,
    {
        proof {
            lemma_column_chars_prefix(rs, index as int, r as int + 1, n as int);
        }
        if index < rows[r].len() {
            let t = trim_text(rows[r][index].as_str());
            proof {
                lemma_trim_shorter(rows@[r as int]@[index as int]@);
            }
            let len = t.as_str().unicode_len();
            if len > 0 {
                non_empty = non_empty + 1;
                total_length = total_length + len;
                if len > max_length {
                    max_length = len;
                }
                if numeric_chars(t.as_str()) {
                    numeric_like = numeric_like + 1;
                }
            }
        }
        r = r + 1;
    }
    ColumnStats { index, non_empty, total_length, max_length, numeric_like }
}

/// The figures of every column named in `headers`, in column order.
pub fn compute_column_stats(headers: &Vec<String>, rows: &Vec<Vec<String>>) -> (r: Vec<ColumnStats>)
    requires
        columns_fit(rows@, headers.len() as int),
    ensures
        r.len() == headers.len(),
        forall|c: int| 0 <= c < r.len() ==> stats_of(rows@, c, #[trigger] r@[c]),
        r@ == stats_table(rows@, headers.len() as int),
        indexed(r@),
{
    let n = headers.len();
    let mut r: Vec<ColumnStats> = Vec::new();
    let mut c: usize = 0;
    while c < n
        invariant
            n == headers.len(),
            c <= n,
            columns_fit(rows@, n as int),
            r.len() == c,
            forall|x: int| 0 <= x < c ==> stats_of(rows@, x, #[trigger] r@[x]),
        decreases n - c,
    {
        assert(column_chars(rows@, c as int, rows.len() as int) <= usize::MAX);
        let s = column_stats(rows, c);
        r.push(s);
        c = c + 1;
    }
    assert(r@ =~= stats_table(rows@, headers.len() as int));
    r
}

/// Some keyword of `kws` occurs in `h`.
pub open spec fn mentions_any(h: Seq<char>, kws: Seq<&str>) -> bool {
    exists|k: int| 0 <= k < kws.len() && has_substring(h, #[trigger] kws[k]@)
}

/// Whether some keyword of `kws` occurs in `h`.
pub fn mentions_any_of(h: &str, kws: &Vec<&str>) -> (r: bool)
    ensures
        r == mentions_any(h@, kws@),
{
    let mut k: usize = 0;
    while k < kws.len()
        invariant
            k <= kws.len(),
            forall|j: int| 0 <= j < k ==> !has_substring(h@, #[trigger] kws@[j]@),
        decreases kws.len() - k,
    {
        if contains_text(h, kws[k]) {
            return true;
        }
        k = k + 1;
    }
    false
}

/// The indexes `c < flags.len()` where `flags` is set, in increasing order.
pub open spec fn lists_flags(r: Seq<usize>, flags: Seq<bool>) -> bool {
    &&& forall|a: int, b: int| 0 <= a < b < r.len() ==> r[a] < r[b]
    &&& forall|a: int| 0 <= a < r.len() ==> #[trigger] r[a] < flags.len()
    &&& forall|c: int| 0 <= c < flags.len() ==> (r.contains(c as usize) <==> #[trigger] flags[c])
}

/// The indexes `c < n` where `flags` is set, in increasing order.
pub open spec fn flag_list(flags: Seq<bool>, n: int) -> Seq<usize>
    decreases n,
{
    if n <= 0 {
        seq![]
    } else if flags[n - 1] {
        flag_list(flags, n - 1).push((n - 1) as usize)
    } else {
        flag_list(flags, n - 1)
    }
}

fn flagged_indexes(flags: &Vec<bool>) -> (r: Vec<usize>)
    ensures
        lists_flags(r@, flags@),
        r@ == flag_list(flags@, flags.len() as int),
{
    let mut r: Vec<usize> = Vec::new();
    let mut c: usize = 0;
    while c < flags.len()
        invariant
            c <= flags.len(),
            forall|a: int, b: int| 0 <= a < b < r.len() ==> r@[a] < r@[b],
            forall|a: int| 0 <= a < r.len() ==> #[trigger] r@[a] < c,
            forall|x: int| 0 <= x < c ==> (r@.contains(x as usize) <==> #[trigger] flags@[x]),
            r@ == flag_list(flags@, c as int),
        decreases flags.len() - c,
    {
        let ghost old_r = r@;
        if flags[c] {
            r.push(c);
        }
        proof {
            assert forall|x: int| 0 <= x <= c implies (r@.contains(x as usize) <==> #[trigger] flags@[x]) by {
                if old_r.contains(x as usize) {
                    let w = choose|w: int| 0 <= w < old_r.len() && old_r[w] == x as usize;
                    assert(r@[w] == x as usize);
                }
                if r@.contains(x as usize) {
                    let w = choose|w: int| 0 <= w < r@.len() && r@[w] == x as usize;
                    if w < old_r.len() {
                        assert(old_r[w] == x as usize);
                    }
                }
                if x == c && flags@[x] {
                    assert(r@[r@.len() - 1] == x as usize);
                }
            }
        }
        c = c + 1;
    }
    r
}

/// Column `a`'s average cell length is above column `b`'s.
pub open spec fn longer_avg(a: ColumnStats, b: ColumnStats) -> bool {
    a.total_length * b.non_empty > b.total_length * a.non_empty
}

/// Columns `a` and `b` have the same average cell length.
pub open spec fn same_avg(a: ColumnStats, b: ColumnStats) -> bool {
    a.total_length * b.non_empty == b.total_length * a.non_empty
}

proof fn lemma_avg_order(a: ColumnStats, b: ColumnStats, c: ColumnStats)
    requires
        a.non_empty > 0,
        b.non_empty > 0,
        c.non_empty > 0,
    ensures
        longer_avg(a, b) && longer_avg(b, c) ==> longer_avg(a, c),
        longer_avg(a, b) && same_avg(b, c) ==> longer_avg(a, c),
        same_avg(a, b) && longer_avg(b, c) ==> longer_avg(a, c),
        same_avg(a, b) && same_avg(b, c) ==> same_avg(a, c),
        same_avg(a, b) ==> same_avg(b, a),
{
    let (ta, na, tb, nb, tc, nc) = (
        a.total_length as int,
        a.non_empty as int,
        b.total_length as int,
        b.non_empty as int,
        c.total_length as int,
        c.non_empty as int,
    );
    assert(ta * nb > tb * na && tb * nc > tc * nb ==> ta * nc > tc * na) by (nonlinear_arith)
        requires
            na > 0,
            nb > 0,
            nc > 0,
    ;
    assert(ta * nb > tb * na && tb * nc == tc * nb ==> ta * nc > tc * na) by (nonlinear_arith)
        requires
            na > 0,
            nb > 0,
            nc > 0,
    ;
    assert(ta * nb == tb * na && tb * nc > tc * nb ==> ta * nc > tc * na) by (nonlinear_arith)
        requires
            na > 0,
            nb > 0,
            nc > 0,
    ;
    assert(ta * nb == tb * na && tb * nc == tc * nb ==> ta * nc == tc * na) by (nonlinear_arith)
        requires
            na > 0,
            nb > 0,
            nc > 0,
    ;
}

fn cross(a: usize, b: usize) -> (r: u128)
    ensures
        r == a * b,
{
    proof {
        assert(a * b <= u128::MAX) by (nonlinear_arith)
            requires
                a <= usize::MAX,
                b <= usize::MAX,
        ;
    }
    (a as u128) * (b as u128)
}

fn avg_longer(a: &ColumnStats, b: &ColumnStats) -> (r: bool)
    ensures
        r == longer_avg(*a, *b),
{
    cross(a.total_length, b.non_empty) > cross(b.total_length, a.non_empty)
}

fn avg_same(a: &ColumnStats, b: &ColumnStats) -> (r: bool)
    ensures
        r == same_avg(*a, *b),
{
    cross(a.total_length, b.non_empty) == cross(b.total_length, a.non_empty)
}

/// A column that may hold free text: it has content and under three fifths of its
/// cells read as numbers.
pub open spec fn text_candidate(s: ColumnStats) -> bool {
    s.non_empty > 0 && 5 * s.numeric_like < 3 * s.non_empty
}

/// A text column long enough to embed: average length of 18 or more, or a cell of
/// 60 characters or more.
pub open spec fn text_long(s: ColumnStats) -> bool {
    s.total_length >= 18 * s.non_empty || s.max_length >= 60
}

/// Column `a` ranks before column `b` as free text: longer average, then longer
/// longest cell, then the earlier column.
pub open spec fn text_ahead(a: ColumnStats, b: ColumnStats) -> bool {
    longer_avg(a, b) || (same_avg(a, b) && (a.max_length > b.max_length || (a.max_length
        == b.max_length && a.index < b.index)))
}

/// A column that may identify a row: it has content.
pub open spec fn id_candidate(s: ColumnStats) -> bool {
    s.non_empty > 0
}

/// A column short or numeric enough to identify a row: average length of 36 or
/// less, or at least half of its cells read as numbers.
pub open spec fn id_short(s: ColumnStats) -> bool {
    s.total_length <= 36 * s.non_empty || 2 * s.numeric_like >= s.non_empty
}

/// Column `a` ranks before column `b` as identifier: shorter average, then more
/// non-empty cells, then the earlier column.
pub open spec fn id_ahead(a: ColumnStats, b: ColumnStats) -> bool {
    longer_avg(b, a) || (same_avg(a, b) && (a.non_empty > b.non_empty || (a.non_empty
        == b.non_empty && a.index < b.index)))
}

/// The columns that are short enough and rank before column `c`, among the first `m`.
pub open spec fn id_rank(st: Seq<ColumnStats>, c: int, m: int) -> nat
    decreases m,
{
    if m <= 0 {
        0
    } else {
        id_rank(st, c, m - 1) + if id_candidate(st[m - 1]) && id_short(st[m - 1]) && id_ahead(
            st[m - 1],
            st[c],
        ) {
            1nat
        } else {
            0nat
        }
    }
}

/// Column `c` is the first of the free-text candidates.
pub open spec fn best_text(st: Seq<ColumnStats>, c: int) -> bool {
    &&& 0 <= c < st.len()
    &&& text_candidate(st[c])
    &&& forall|d: int|
        0 <= d < st.len() && d != c && text_candidate(#[trigger] st[d]) ==> text_ahead(st[c], st[d])
}

/// Column `c` is the first of the identifier candidates.
pub open spec fn best_id(st: Seq<ColumnStats>, c: int) -> bool {
    &&& 0 <= c < st.len()
    &&& id_candidate(st[c])
    &&& forall|d: int|
        0 <= d < st.len() && d != c && id_candidate(#[trigger] st[d]) ==> id_ahead(st[c], st[d])
}

/// Some column may hold free text.
pub open spec fn any_text_candidate(st: Seq<ColumnStats>) -> bool {
    exists|d: int| 0 <= d < st.len() && text_candidate(#[trigger] st[d])
}

/// Some column may hold free text long enough to embed.
pub open spec fn any_long_text(st: Seq<ColumnStats>) -> bool {
    exists|d: int| 0 <= d < st.len() && text_candidate(#[trigger] st[d]) && text_long(st[d])
}

/// Some column may identify a row.
pub open spec fn any_id_candidate(st: Seq<ColumnStats>) -> bool {
    exists|d: int| 0 <= d < st.len() && id_candidate(#[trigger] st[d])
}

/// Some column is short or numeric enough to identify a row.
pub open spec fn any_short_id(st: Seq<ColumnStats>) -> bool {
    exists|d: int| 0 <= d < st.len() && id_candidate(#[trigger] st[d]) && id_short(st[d])
}

/// The header of column `c` names one of `kws`, in any case.
pub open spec fn header_mentions(headers: Seq<String>, c: int, kws: Seq<&str>) -> bool {
    mentions_any(lower_of(headers[c]@), kws)
}

/// Some header names one of `kws`, in any case.
pub open spec fn any_header_mentions(headers: Seq<String>, kws: Seq<&str>) -> bool {
    exists|d: int| 0 <= d < headers.len() && #[trigger] header_mentions(headers, d, kws)
}

/// Column `c` is suggested as text to embed.
pub open spec fn text_selected(headers: Seq<String>, st: Seq<ColumnStats>, kws: Seq<&str>, c: int) -> bool {
    let n = headers.len() as int;
    if any_header_mentions(headers, kws) {
        header_mentions(headers, c, kws)
    } else if any_long_text(st) {
        text_candidate(st[c]) && text_long(st[c])
    } else if any_text_candidate(st) {
        best_text(st, c)
    } else {
        c == n - 1
    }
}

/// Column `c` is suggested as identifier: of the short enough columns, at most the
/// three that rank first.
pub open spec fn id_selected(headers: Seq<String>, st: Seq<ColumnStats>, kws: Seq<&str>, c: int) -> bool {
    if any_header_mentions(headers, kws) {
        header_mentions(headers, c, kws)
    } else if any_short_id(st) {
        id_candidate(st[c]) && id_short(st[c]) && id_rank(st, c, st.len() as int) < 3
    } else if any_id_candidate(st) {
        best_id(st, c)
    } else {
        c == 0
    }
}

/// The columns' figures carry their own positions.
pub open spec fn indexed(st: Seq<ColumnStats>) -> bool {
    forall|c: int| 0 <= c < st.len() ==> (#[trigger] st[c]).index == c
}

fn text_before(a: &ColumnStats, b: &ColumnStats) -> (r: bool)
    ensures
        r == text_ahead(*a, *b),
{
    avg_longer(a, b) || (avg_same(a, b) && (a.max_length > b.max_length || (a.max_length
        == b.max_length && a.index < b.index)))
}

fn id_before(a: &ColumnStats, b: &ColumnStats) -> (r: bool)
    ensures
        r == id_ahead(*a, *b),
{
    avg_longer(b, a) || (avg_same(a, b) && (a.non_empty > b.non_empty || (a.non_empty
        == b.non_empty && a.index < b.index)))
}

fn is_text_candidate(s: &ColumnStats) -> (r: bool)
    ensures
        r == text_candidate(*s),
{
    s.non_empty > 0 && (s.numeric_like as u128) * 5 < (s.non_empty as u128) * 3
}

fn is_text_long(s: &ColumnStats) -> (r: bool)
    ensures
        r == text_long(*s),
{
    (s.total_length as u128) >= (s.non_empty as u128) * 18 || s.max_length >= 60
}

fn is_id_short(s: &ColumnStats) -> (r: bool)
    ensures
        r == id_short(*s),
{
    (s.total_length as u128) <= (s.non_empty as u128) * 36 || (s.numeric_like as u128) * 2 >= (
    s.non_empty as u128)
}

/// The first free-text candidate, if any.
fn best_text_column(st: &Vec<ColumnStats>) -> (r: Option<usize>)
    requires
        indexed(st@),
    ensures
        match r {
            Some(b) => b < st.len() && forall|c: int| 0 <= c < st.len() ==> (best_text(st@, c) <==> c == b),
            None => !any_text_candidate(st@),
        },
{
    let n = st.len();
    let mut best: Option<usize> = None;
    let mut i: usize = 0;
    while i < n
        invariant
            n == st.len(),
            indexed(st@),
            i <= n,
            match best {
                None => forall|d: int| 0 <= d < i ==> !text_candidate(#[trigger] st@[d]),
                Some(b) => {
                    &&& b < i
                    &&& text_candidate(st@[b as int])
                    &&& forall|d: int|
                        0 <= d < i && d != b && text_candidate(#[trigger] st@[d]) ==> text_ahead(
                            st@[b as int],
                            st@[d],
                        )
                },
            },
        decreases n - i,
    {
        if is_text_candidate(&st[i]) {
            match best {
                None => {
                    best = Some(i);
                },
                Some(b) => {
                    let ghost si = st@[i as int];
                    let ghost sb = st@[b as int];
                    assert(si.index == i && sb.index == b);
                    if text_before(&st[i], &st[b]) {
                        proof {
                            assert forall|d: int|
                                0 <= d < i + 1 && d != i && text_candidate(#[trigger] st@[d]) implies text_ahead(
                                si,
                                st@[d],
                            ) by {
                                if d != b {
                                    lemma_avg_order(si, sb, st@[d]);
                                    assert(st@[d].index == d);
                                }
                            }
                        }
                        best = Some(i);
                    } else {
                        proof {
                            lemma_avg_order(si, sb, sb);
                            lemma_avg_order(sb, si, si);
                        }
                    }
                },
            }
        }
        i = i + 1;
    }
    proof {
        match best {
            Some(b) => {
                assert forall|c: int| 0 <= c < n implies (best_text(st@, c) <==> c == b) by {
                    if c != b && best_text(st@, c) {
                        assert(text_ahead(st@[c], st@[b as int]));
                        assert(text_ahead(st@[b as int], st@[c]));
                        assert(st@[c].index == c);
                        lemma_avg_order(st@[c], st@[b as int], st@[c]);
                    }
                }
            },
            None => {},
        }
    }
    best
}

/// The first identifier candidate, if any.
fn best_id_column(st: &Vec<ColumnStats>) -> (r: Option<usize>)
    requires
        indexed(st@),
    ensures
        match r {
            Some(b) => b < st.len() && forall|c: int| 0 <= c < st.len() ==> (best_id(st@, c) <==> c == b),
            None => !any_id_candidate(st@),
        },
{
    let n = st.len();
    let mut best: Option<usize> = None;
    let mut i: usize = 0;
    while i < n
        invariant
            n == st.len(),
            indexed(st@),
            i <= n,
            match best {
                None => forall|d: int| 0 <= d < i ==> !id_candidate(#[trigger] st@[d]),
                Some(b) => {
                    &&& b < i
                    &&& id_candidate(st@[b as int])
                    &&& forall|d: int|
                        0 <= d < i && d != b && id_candidate(#[trigger] st@[d]) ==> id_ahead(
                            st@[b as int],
                            st@[d],
                        )
                },
            },
        decreases n - i,
    {
        if st[i].non_empty > 0 {
            match best {
                None => {
                    best = Some(i);
                },
                Some(b) => {
                    let ghost si = st@[i as int];
                    let ghost sb = st@[b as int];
                    assert(si.index == i && sb.index == b);
                    if id_before(&st[i], &st[b]) {
                        proof {
                            assert forall|d: int|
                                0 <= d < i + 1 && d != i && id_candidate(#[trigger] st@[d]) implies id_ahead(
                                si,
                                st@[d],
                            ) by {
                                if d != b {
                                    lemma_avg_order(st@[d], sb, si);
                                    assert(st@[d].index == d);
                                }
                            }
                        }
                        best = Some(i);
                    } else {
                        proof {
                            lemma_avg_order(si, sb, sb);
                            lemma_avg_order(sb, si, si);
                        }
                    }
                },
            }
        }
        i = i + 1;
    }
    proof {
        match best {
            Some(b) => {
                assert forall|c: int| 0 <= c < n implies (best_id(st@, c) <==> c == b) by {
                    if c != b && best_id(st@, c) {
                        assert(id_ahead(st@[c], st@[b as int]));
                        assert(id_ahead(st@[b as int], st@[c]));
                        assert(st@[c].index == c);
                        lemma_avg_order(st@[c], st@[b as int], st@[c]);
                    }
                }
            },
            None => {},
        }
    }
    best
}

/// Header words that mark a column of free text.
pub open spec fn text_keywords() -> Seq<&'static str> {
    seq![
        "prompt",
        "interest",
        "research",
        "description",
        "summary",
        "essay",
        "statement",
        "focus",
        "topic",
        "goal",
    ]
}

/// Header words that mark an identifier column.
pub open spec fn id_keywords() -> Seq<&'static str> {
    seq!["id", "identifier", "name", "first", "last", "student", "email", "netid", "number", "uid"]
}

fn text_keyword_list() -> (r: Vec<&'static str>)
    ensures
        r@ == text_keywords(),
{
    let r = vec![
        "prompt",
        "interest",
        "research",
        "description",
        "summary",
        "essay",
        "statement",
        "focus",
        "topic",
        "goal",
    ];
    assert(r@ =~= text_keywords());
    r
}

fn id_keyword_list() -> (r: Vec<&'static str>)
    ensures
        r@ == id_keywords(),
{
    let r = vec!["id", "identifier", "name", "first", "last", "student", "email", "netid", "number", "uid"];
    assert(r@ =~= id_keywords());
    r
}

/// For each header, whether it names one of `kws` in any case.
fn keyword_flags(headers: &Vec<String>, kws: &Vec<&str>) -> (f: Vec<bool>)
    ensures
        f.len() == headers.len(),
        forall|c: int| 0 <= c < f.len() ==> #[trigger] f@[c] == header_mentions(headers@, c, kws@),
{
    let mut f: Vec<bool> = Vec::new();
    let mut c: usize = 0;
    while c < headers.len()
        invariant
            c <= headers.len(),
            f.len() == c,
            forall|x: int| 0 <= x < c ==> #[trigger] f@[x] == header_mentions(headers@, x, kws@),
        decreases headers.len() - c,
    {
        let lower = lowercase_text(headers[c].as_str());
        f.push(mentions_any_of(lower.as_str(), kws));
        c = c + 1;
    }
    f
}

fn any_set(f: &Vec<bool>) -> (r: bool)
    ensures
        r == exists|c: int| 0 <= c < f.len() && #[trigger] f@[c],
{
    let mut c: usize = 0;
    while c < f.len()
        invariant
            c <= f.len(),
            forall|x: int| 0 <= x < c ==> !#[trigger] f@[x],
        decreases f.len() - c,
    {
        if f[c] {
            return true;
        }
        c = c + 1;
    }
    false
}

fn single_flag(n: usize, x: usize) -> (f: Vec<bool>)
    ensures
        f.len() == n,
        forall|c: int| 0 <= c < n ==> #[trigger] f@[c] == (c == x),
{
    let mut f: Vec<bool> = Vec::new();
    let mut c: usize = 0;
    while c < n
        invariant
            c <= n,
            f.len() == c,
            forall|y: int| 0 <= y < c ==> #[trigger] f@[y] == (y == x),
        decreases n - c,
    {
        f.push(c == x);
        c = c + 1;
    }
    f
}

/// The short enough identifier candidates that rank before column `c`.
fn id_rank_of(st: &Vec<ColumnStats>, c: usize) -> (r: usize)
    requires
        c < st.len(),
    ensures
        r == id_rank(st@, c as int, st.len() as int),
{
    let mut r: usize = 0;
    let mut d: usize = 0;
    while d < st.len()
        invariant
            c < st.len(),
            d <= st.len(),
            r == id_rank(st@, c as int, d as int),
            r <= d,
        decreases st.len() - d,
    {
        if st[d].non_empty > 0 && is_id_short(&st[d]) && id_before(&st[d], &st[c]) {
            r = r + 1;
        }
        d = d + 1;
    }
    r
}

/// For each column, whether it is suggested as text to embed.
fn text_flags(headers: &Vec<String>, st: &Vec<ColumnStats>, kws: &Vec<&str>) -> (f: Vec<bool>)
    requires
        st.len() == headers.len(),
        indexed(st@),
    ensures
        f.len() == headers.len(),
        forall|c: int| 0 <= c < f.len() ==> #[trigger] f@[c] == text_selected(headers@, st@, kws@, c),
{
    let n = headers.len();
    let kw = keyword_flags(headers, kws);
    let any_kw = any_set(&kw);
    proof {
        if any_header_mentions(headers@, kws@) {
            let d = choose|d: int| 0 <= d < headers.len() && #[trigger] header_mentions(headers@, d, kws@);
            assert(kw@[d]);
        }
        if any_kw {
            let d = choose|d: int| 0 <= d < kw.len() && #[trigger] kw@[d];
            assert(header_mentions(headers@, d, kws@));
        }
    }
    if any_kw {
        return kw;
    }
    let mut long: Vec<bool> = Vec::new();
    let mut c: usize = 0;
    while c < n
        invariant
            n == st.len(),
            c <= n,
            long.len() == c,
            forall|x: int| 0 <= x < c ==> #[trigger] long@[x] == (text_candidate(st@[x]) && text_long(st@[x])),
        decreases n - c,
    {
        long.push(is_text_candidate(&st[c]) && is_text_long(&st[c]));
        c = c + 1;
    }
    let any_long = any_set(&long);
    proof {
        if any_long_text(st@) {
            let d = choose|d: int| 0 <= d < st.len() && text_candidate(#[trigger] st@[d]) && text_long(st@[d]);
            assert(long@[d]);
        }
        if any_long {
            let d = choose|d: int| 0 <= d < long.len() && #[trigger] long@[d];
            assert(text_candidate(st@[d]) && text_long(st@[d]));
        }
    }
    if any_long {
        return long;
    }
    match best_text_column(st) {
        Some(b) => {
            assert(best_text(st@, b as int));
            assert(text_candidate(st@[b as int]));
            single_flag(n, b)
        },
        None => {
            if n == 0 {
                Vec::new()
            } else {
                single_flag(n, n - 1)
            }
        },
    }
}

/// For each column, whether it is suggested as identifier.
fn id_flags(headers: &Vec<String>, st: &Vec<ColumnStats>, kws: &Vec<&str>) -> (f: Vec<bool>)
    requires
        st.len() == headers.len(),
        indexed(st@),
    ensures
        f.len() == headers.len(),
        forall|c: int| 0 <= c < f.len() ==> #[trigger] f@[c] == id_selected(headers@, st@, kws@, c),
{
    let n = headers.len();
    let kw = keyword_flags(headers, kws);
    let any_kw = any_set(&kw);
    proof {
        if any_header_mentions(headers@, kws@) {
            let d = choose|d: int| 0 <= d < headers.len() && #[trigger] header_mentions(headers@, d, kws@);
            assert(kw@[d]);
        }
        if any_kw {
            let d = choose|d: int| 0 <= d < kw.len() && #[trigger] kw@[d];
            assert(header_mentions(headers@, d, kws@));
        }
    }
    if any_kw {
        return kw;
    }
    let mut short: Vec<bool> = Vec::new();
    let mut c: usize = 0;
    while c < n
        invariant
            n == st.len(),
            c <= n,
            short.len() == c,
            forall|x: int| 0 <= x < c ==> #[trigger] short@[x] == (id_candidate(st@[x]) && id_short(st@[x])),
        decreases n - c,
    {
        short.push(st[c].non_empty > 0 && is_id_short(&st[c]));
        c = c + 1;
    }
    let any_short = any_set(&short);
    proof {
        if any_short_id(st@) {
            let d = choose|d: int| 0 <= d < st.len() && id_candidate(#[trigger] st@[d]) && id_short(st@[d]);
            assert(short@[d]);
        }
        if any_short {
            let d = choose|d: int| 0 <= d < short.len() && #[trigger] short@[d];
            assert(id_candidate(st@[d]) && id_short(st@[d]));
        }
    }
    if any_short {
        let mut top: Vec<bool> = Vec::new();
        let mut c: usize = 0;
        while c < n
            invariant
                n == st.len(),
                c <= n,
                short.len() == n,
                forall|x: int| 0 <= x < n ==> #[trigger] short@[x] == (id_candidate(st@[x]) && id_short(st@[x])),
                top.len() == c,
                forall|x: int|
                    0 <= x < c ==> #[trigger] top@[x] == (id_candidate(st@[x]) && id_short(st@[x])
                        && id_rank(st@, x, n as int) < 3),
            decreases n - c,
        {
            let chosen = short[c] && id_rank_of(st, c) < 3;
            top.push(chosen);
            c = c + 1;
        }
        return top;
    }
    match best_id_column(st) {
        Some(b) => {
            assert(best_id(st@, b as int));
            assert(id_candidate(st@[b as int]));
            single_flag(n, b)
        },
        None => single_flag(n, 0),
    }
}

/// For each column, whether it is suggested as text to embed.
pub open spec fn text_flag_seq(headers: Seq<String>, rows: Seq<Vec<String>>) -> Seq<bool> {
    Seq::new(
        headers.len() as nat,
        |c: int| text_selected(headers, stats_table(rows, headers.len() as int), text_keywords(), c),
    )
}

/// For each column, whether it is suggested as identifier.
pub open spec fn id_flag_seq(headers: Seq<String>, rows: Seq<Vec<String>>) -> Seq<bool> {
    Seq::new(
        headers.len() as nat,
        |c: int| id_selected(headers, stats_table(rows, headers.len() as int), id_keywords(), c),
    )
}

/// The suggested columns of a table: first those whose header names a word of free
/// text (prompt, interest, research, ...) or of an identifier (id, name, email,
/// ...), and where no header does, those that the cells' lengths and numeric
/// share point to. Each list is in increasing order without repeats.
pub fn suggest_spreadsheet_columns(headers: &Vec<String>, rows: &Vec<Vec<String>>) -> (r: (
    Vec<usize>,
    Vec<usize>,
))
    requires
        columns_fit(rows@, headers.len() as int),
    ensures
        lists_flags(r.0@, text_flag_seq(headers@, rows@)),
        lists_flags(r.1@, id_flag_seq(headers@, rows@)),
        r.0@ == flag_list(text_flag_seq(headers@, rows@), headers.len() as int),
        r.1@ == flag_list(id_flag_seq(headers@, rows@), headers.len() as int),
{
    let st = compute_column_stats(headers, rows);
    let tk = text_keyword_list();
    let ik = id_keyword_list();
    let tf = text_flags(headers, &st, &tk);
    let idf = id_flags(headers, &st, &ik);
    let ghost stt = stats_table(rows@, headers.len() as int);
    assert(tf@ =~= text_flag_seq(headers@, rows@));
    assert(idf@ =~= id_flag_seq(headers@, rows@));
    (flagged_indexes(&tf), flagged_indexes(&idf))
}

/// Header words that mark a category column.
pub open spec fn category_keywords() -> Seq<&'static str> {
    seq!["program", "track", "pathway", "division", "department"]
}

fn category_keyword_list() -> (r: Vec<&'static str>)
    ensures
        r@ == category_keywords(),
{
    let r = vec!["program", "track", "pathway", "division", "department"];
    assert(r@ =~= category_keywords());
    r
}

/// The distinct lower-case values of column `c` over the first `n` rows, in the
/// order in which they first occur.
pub open spec fn distinct_values(rows: Seq<Vec<String>>, c: int, n: int) -> Seq<Seq<char>>
    decreases n,
{
    if n <= 0 {
        seq![]
    } else {
        let prev = distinct_values(rows, c, n - 1);
        match cell_text(rows, n - 1, c) {
            Some(t) => if prev.contains(lower_of(t)) {
                prev
            } else {
                prev.push(lower_of(t))
            },
            None => prev,
        }
    }
}

/// What the choice of category columns reads of one column: its position, its
/// number of distinct values and its number of non-empty cells.
#[derive(Clone, Copy, Debug, PartialEq, Eq)]
pub struct CategoryStats {
    pub index: usize,
    pub distinct: usize,
    pub non_empty: usize,
}

/// A column that may hold categories: a header, some content, and at most 25
/// distinct values.
pub open spec fn category_candidate(headers: Seq<String>, s: CategoryStats) -> bool {
    &&& trim_of(headers[s.index as int]@).len() > 0
    &&& s.non_empty > 0
    &&& 0 < s.distinct <= 25
}

/// Column `a` ranks before column `b` as category: fewer distinct values, then more
/// non-empty cells, then the earlier column.
pub open spec fn category_ahead(a: CategoryStats, b: CategoryStats) -> bool {
    a.distinct < b.distinct || (a.distinct == b.distinct && (a.non_empty > b.non_empty || (
    a.non_empty == b.non_empty && a.index < b.index)))
}

/// The category candidates among the first `m` columns that rank before column `c`.
pub open spec fn category_rank(headers: Seq<String>, cs: Seq<CategoryStats>, c: int, m: int) -> nat
    decreases m,
{
    if m <= 0 {
        0
    } else {
        category_rank(headers, cs, c, m - 1) + if category_candidate(headers, cs[m - 1])
            && category_ahead(cs[m - 1], cs[c]) {
            1nat
        } else {
            0nat
        }
    }
}

/// The figures of the first `n` columns that the choice of category columns reads.
pub open spec fn category_table(rows: Seq<Vec<String>>, n: int) -> Seq<CategoryStats> {
    Seq::new(
        n as nat,
        |c: int|
            CategoryStats {
                index: c as usize,
                distinct: distinct_values(rows, c, rows.len() as int).len() as usize,
                non_empty: col_non_empty(rows, c, rows.len() as int) as usize,
            },
    )
}

/// Column `c` is suggested as category column: at most the four candidates that
/// rank first, where no header names a category word.
pub open spec fn category_selected(headers: Seq<String>, cs: Seq<CategoryStats>, c: int) -> bool {
    if any_header_mentions(headers, category_keywords()) {
        header_mentions(headers, c, category_keywords())
    } else {
        category_candidate(headers, cs[c]) && category_rank(headers, cs, c, cs.len() as int) < 4
    }
}

proof fn lemma_distinct_bound(rows: Seq<Vec<String>>, c: int, n: int)
    ensures
        distinct_values(rows, c, n).len() <= col_non_empty(rows, c, n),
        col_non_empty(rows, c, n) <= if n < 0 { 0 } else { n },
    decreases n,
{
    if n > 0 {
        lemma_distinct_bound(rows, c, n - 1);
    }
}

/// The figures of column `index` that the choice of category columns reads.
fn category_stats(rows: &Vec<Vec<String>>, index: usize) -> (s: CategoryStats)
    ensures
        s == category_table(rows@, index as int + 1)[index as int],
{
    let ghost rs = rows@;
    let n = rows.len();
    let mut seen: Vec<String> = Vec::new();
    let mut non_empty: usize = 0;
    let mut r: usize = 0;
    while r < n
        invariant
            rs == rows@,
            n == rs.len(),
            r <= n,
            non_empty == col_non_empty(rs, index as int, r as int),
            views(seen@) == distinct_values(rs, index as int, r as int),
        decreases n - r,
    {
        proof {
            lemma_distinct_bound(rs, index as int, r as int);
        }
        if index < rows[r].len() {
            let t = trim_text(rows[r][index].as_str());
            if t.as_str().unicode_len() > 0 {
                non_empty = non_empty + 1;
                let lower = lowercase_text(t.as_str());
                if !holds_text(&seen, &lower) {
                    let ghost before = seen@;
                    seen.push(lower);
                    assert(views(seen@) =~= views(before).push(lower@));
                }
            }
        }
        r = r + 1;
    }
    proof {
        lemma_distinct_bound(rs, index as int, n as int);
    }
    CategoryStats { index, distinct: seen.len(), non_empty }
}

/// For each column, whether it is suggested as category column.
pub open spec fn category_flag_seq(headers: Seq<String>, rows: Seq<Vec<String>>) -> Seq<bool> {
    Seq::new(
        headers.len() as nat,
        |c: int| category_selected(headers, category_table(rows, headers.len() as int), c),
    )
}

/// The suggested category columns of a table: those whose header names a category
/// word (program, track, department, ...), and where no header does, at most four
/// columns with few distinct values, fewest first. The list is in increasing order
/// without repeats.
pub fn suggest_program_columns(headers: &Vec<String>, rows: &Vec<Vec<String>>) -> (r: Vec<usize>)
    ensures
        lists_flags(r@, category_flag_seq(headers@, rows@)),
        r@ == flag_list(category_flag_seq(headers@, rows@), headers.len() as int),
{
    let n = headers.len();
    let ghost ct = category_table(rows@, n as int);
    let kws = category_keyword_list();
    let kw = keyword_flags(headers, &kws);
    let any_kw = any_set(&kw);
    proof {
        if any_header_mentions(headers@, kws@) {
            let d = choose|d: int| 0 <= d < headers.len() && #[trigger] header_mentions(headers@, d, kws@);
            assert(kw@[d]);
        }
        if any_kw {
            let d = choose|d: int| 0 <= d < kw.len() && #[trigger] kw@[d];
            assert(header_mentions(headers@, d, kws@));
        }
    }
    if any_kw {
        assert(kw@ =~= category_flag_seq(headers@, rows@));
        return flagged_indexes(&kw);
    }
    let mut cs: Vec<CategoryStats> = Vec::new();
    let mut cand: Vec<bool> = Vec::new();
    let mut c: usize = 0;
    while c < n
        invariant
            n == headers.len(),
            ct == category_table(rows@, n as int),
            c <= n,
            cs.len() == c,
            cand.len() == c,
            forall|x: int| 0 <= x < c ==> #[trigger] cs@[x] == ct[x],
            forall|x: int| 0 <= x < c ==> #[trigger] cand@[x] == category_candidate(headers@, ct[x]),
        decreases n - c,
    {
        let s = category_stats(rows, c);
        let h = trim_text(headers[c].as_str());
        let ok = h.as_str().unicode_len() > 0 && s.non_empty > 0 && s.distinct > 0 && s.distinct <= 25;
        cs.push(s);
        cand.push(ok);
        c = c + 1;
    }
    assert(cs@ =~= ct);
    let mut flags: Vec<bool> = Vec::new();
    let mut c: usize = 0;
    while c < n
        invariant
            n == headers.len(),
            ct == category_table(rows@, n as int),
            cs@ == ct,
            cand.len() == n,
            forall|x: int| 0 <= x < n ==> #[trigger] cand@[x] == category_candidate(headers@, ct[x]),
            c <= n,
            flags.len() == c,
            forall|x: int|
                0 <= x < c ==> #[trigger] flags@[x] == (category_candidate(headers@, ct[x])
                    && category_rank(headers@, ct, x, n as int) < 4),
        decreases n - c,
    {
        let mut rank: usize = 0;
        let mut d: usize = 0;
        while d < n
            invariant
                n == headers.len(),
                cs@ == ct,
                ct.len() == n,
                cand.len() == n,
                forall|x: int| 0 <= x < n ==> #[trigger] cand@[x] == category_candidate(headers@, ct[x]),
                c < n,
                d <= n,
                rank == category_rank(headers@, ct, c as int, d as int),
                rank <= d,
            decreases n - d,
        {
            let a = cs[d];
            let b = cs[c];
            if cand[d] && (a.distinct < b.distinct || (a.distinct == b.distinct && (a.non_empty
                > b.non_empty || (a.non_empty == b.non_empty && a.index < b.index)))) {
                rank = rank + 1;
            }
            d = d + 1;
        }
        flags.push(cand[c] && rank < 4);
        c = c + 1;
    }
    assert(flags@ =~= category_flag_seq(headers@, rows@));
    flagged_indexes(&flags)
}

} // verus!
